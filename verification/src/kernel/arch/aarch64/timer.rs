//! The physical timer of EL1.

use vstd::prelude::*;

verus! {

/// The interval that makes a timer of `freq` fire about `hz` times a second, and not more often than
/// every 1000 ticks.
pub fn timer_interval(freq: u64, hz: u32) -> (interval: u64)
    ensures
        interval == ({
            let n = freq as int / if hz == 0 {
                1
            } else {
                hz as int
            };
            if n < 1000 {
                1000
            } else {
                n
            }
        }),
{
    let rate: u64 = if hz == 0 {
        1
    } else {
        hz as u64
    };
    let n: u64 = freq / rate;
    if n < 1000 {
        1000
    } else {
        n
    }
}

} // verus!
