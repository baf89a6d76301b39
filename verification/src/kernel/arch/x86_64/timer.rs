//! The timer of the local APIC.

use vstd::prelude::*;

verus! {

/// The vector of the timer interrupt.
pub const TIMER_VECTOR: u8 = 32;

/// The value for the APIC base register that turns the APIC on, and the address of its registers,
/// from the two halves of that register.
pub fn lapic_enabled(lo: u32, hi: u32) -> (r: (u64, u64))
    ensures
        r.0 == (hi * 0x1_0000_0000 + lo) as u64 | 0x800,
        r.1 == r.0 & 0x000f_ffff_ffff_f000,
{
    let val: u64 = (hi as u64) * 0x1_0000_0000 + lo as u64;
    let enabled: u64 = val | 0x800;
    (enabled, enabled & 0x000f_ffff_ffff_f000)
}

/// The count that makes the timer fire about `hz` times a second, and not more often than every
/// 10000 counts.
pub fn timer_count(hz: u32) -> (count: u32)
    ensures
        count == ({
            let rate = if hz == 0 {
                1
            } else {
                hz as int
            };
            let n = 62_500_000int / rate;
            if n < 10_000 {
                10_000
            } else {
                n
            }
        }),
{
    let rate: u32 = if hz == 0 {
        1
    } else {
        hz
    };
    let n: u32 = 62_500_000u32 / rate;
    if n < 10_000 {
        10_000
    } else {
        n
    }
}

} // verus!
