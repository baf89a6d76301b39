//! Memory tagging: memory carries tags, pointers carry tags, and an access faults where they differ.

use vstd::prelude::*;

verus! {

/// `addr` with tag `tag` in its top byte, of which the low four bits count.
pub fn with_tag(addr: u64, tag: u8) -> (p: u64)
    ensures
        p == (addr & 0xf0ff_ffff_ffff_ffff) | ((tag % 16) * 0x0100_0000_0000_0000) as u64,
        p % 0x0100_0000_0000_0000 == addr % 0x0100_0000_0000_0000,
        p / 0x0100_0000_0000_0000 % 16 == tag % 16,
{
    let t: u64 = (tag % 16) as u64 * 0x0100_0000_0000_0000;
    assert(((addr & 0xf0ff_ffff_ffff_ffff) | t) % 0x0100_0000_0000_0000 == addr
        % 0x0100_0000_0000_0000 && ((addr & 0xf0ff_ffff_ffff_ffff) | t) / 0x0100_0000_0000_0000
        % 16 == t / 0x0100_0000_0000_0000) by (bit_vector)
        requires
            t % 0x0100_0000_0000_0000 == 0,
            t < 0x1000_0000_0000_0000,
    ;
    (addr & 0xf0ff_ffff_ffff_ffff) | t
}

/// The registers that turn tagging on: memory attributes, translation control, system control.
#[derive(Clone, Copy, PartialEq, Eq, Structural, Debug)]
pub struct TagRegisters {
    pub mair: u64,
    pub tcr: u64,
    pub sctlr: u64,
}

impl TagRegisters {
    /// With tagging on: memory attribute 2 is tagged memory, the top byte of high addresses is a tag,
    /// tag 0 is checked like the others, and an access with another tag faults at once. Nothing
    /// else changes.
    pub open spec fn enabled(self) -> TagRegisters {
        TagRegisters {
            mair: (self.mair & 0xffff_ffff_ff00_ffff) | 0xf0_0000,
            tcr: (self.tcr | 0x40_0000_0000) & 0xfbff_ffff_ffff_ffff,
            sctlr: ((self.sctlr | 0x800_0000_0000) & 0xffff_fcff_ffff_ffff) | 0x100_0000_0000,
        }
    }
}

/// Turn tagging on.
pub fn enable(r: TagRegisters) -> (n: TagRegisters)
    ensures
        n == r.enabled(),
{
    TagRegisters {
        mair: (r.mair & 0xffff_ffff_ff00_ffff) | 0xf0_0000,
        tcr: (r.tcr | 0x40_0000_0000) & 0xfbff_ffff_ffff_ffff,
        sctlr: ((r.sctlr | 0x800_0000_0000) & 0xffff_fcff_ffff_ffff) | 0x100_0000_0000,
    }
}

/// **Law:** turning tagging on a second time changes nothing.
pub proof fn law_enabling_twice_is_enabling_once(r: TagRegisters)
    ensures
        r.enabled().enabled() == r.enabled(),
{
    lemma_enabled(r.mair, r.tcr, r.sctlr);
}

/// What turning tagging on sets, clears and keeps.
proof fn lemma_enabled(m: u64, t: u64, s: u64)
    by (bit_vector)
    ensures
        (((m & 0xffff_ffff_ff00_ffff) | 0xf0_0000) & 0xffff_ffff_ff00_ffff) | 0xf0_0000 == (m
            & 0xffff_ffff_ff00_ffff) | 0xf0_0000,
        (((t | 0x40_0000_0000) & 0xfbff_ffff_ffff_ffff) | 0x40_0000_0000) & 0xfbff_ffff_ffff_ffff
            == (t | 0x40_0000_0000) & 0xfbff_ffff_ffff_ffff,
        (((((s | 0x800_0000_0000) & 0xffff_fcff_ffff_ffff) | 0x100_0000_0000) | 0x800_0000_0000)
            & 0xffff_fcff_ffff_ffff) | 0x100_0000_0000 == ((s | 0x800_0000_0000)
            & 0xffff_fcff_ffff_ffff) | 0x100_0000_0000,
        (((m & 0xffff_ffff_ff00_ffff) | 0xf0_0000) >> 16) & 0xff == 0xf0,
        ((m & 0xffff_ffff_ff00_ffff) | 0xf0_0000) & !0xff_0000u64 == m & !0xff_0000u64,
        (((t | 0x40_0000_0000) & 0xfbff_ffff_ffff_ffff) >> 38) & 1 == 1,
        (((t | 0x40_0000_0000) & 0xfbff_ffff_ffff_ffff) >> 58) & 1 == 0,
        ((t | 0x40_0000_0000) & 0xfbff_ffff_ffff_ffff) & !0x400_0040_0000_0000u64 == t
            & !0x400_0040_0000_0000u64,
        ((((s | 0x800_0000_0000) & 0xffff_fcff_ffff_ffff) | 0x100_0000_0000) >> 43) & 1 == 1,
        ((((s | 0x800_0000_0000) & 0xffff_fcff_ffff_ffff) | 0x100_0000_0000) >> 40) & 3 == 1,
        (((s | 0x800_0000_0000) & 0xffff_fcff_ffff_ffff) | 0x100_0000_0000) & !0xb00_0000_0000u64
            == s & !0xb00_0000_0000u64,
{
}

/// **Law:** memory attribute 2 becomes tagged memory, high addresses carry a tag (bit 38 of the
/// translation control) and tag 0 is checked like the others (bit 58), and allocation tags (bit 43 of
/// the system control) are checked at once (bits 40 and 41). Every other bit stays.
pub proof fn law_enabling_sets_these_bits_alone(r: TagRegisters)
    ensures
        (r.enabled().mair >> 16) & 0xff == 0xf0,
        r.enabled().mair & !0xff_0000u64 == r.mair & !0xff_0000u64,
        (r.enabled().tcr >> 38) & 1 == 1,
        (r.enabled().tcr >> 58) & 1 == 0,
        r.enabled().tcr & !0x400_0040_0000_0000u64 == r.tcr & !0x400_0040_0000_0000u64,
        (r.enabled().sctlr >> 43) & 1 == 1,
        (r.enabled().sctlr >> 40) & 3 == 1,
        r.enabled().sctlr & !0xb00_0000_0000u64 == r.sctlr & !0xb00_0000_0000u64,
{
    lemma_enabled(r.mair, r.tcr, r.sctlr);
}

/// The stack pointer that a process of isolation domain `domain` starts with: its top byte is the
/// domain's tag.
pub fn tagged_sp(user_sp: u64, domain: u64) -> (sp: u64)
    ensures
        sp == user_sp | (domain % 16 * 0x0100_0000_0000_0000) as u64,
{
    user_sp | (domain % 16 * 0x0100_0000_0000_0000)
}

} // verus!
