//! Capability rights: the subset of an object type's operations that a capability permits.
//!
//! Rights are checked on every operation and only ever narrow along a derivation: MINT and
//! COPY refuse a request that fails [`Rights::subset_of`].

use core::ops::BitOr;
use vstd::prelude::*;

verus! {

/// Every bit the model defines.
pub const ALL_BITS: u32 = 0xfff;

/// A set of rights, one bit per right.
#[derive(Clone, Copy, PartialEq, Eq, Structural, Debug)]
pub struct Rights {
    pub bits: u32,
}

impl Rights {
    /// Does this set of rights include every right in `want`?
    pub open spec fn includes(self, want: Rights) -> bool {
        self.bits & want.bits == want.bits
    }

    /// No rights at all.
    pub fn empty() -> (r: Rights)
        ensures
            r == (Rights { bits: 0 }),
    {
        Rights { bits: 0 }
    }

    /// Every right: an "owner" capability.
    pub fn all() -> (r: Rights)
        ensures
            r == (Rights { bits: ALL_BITS }),
    {
        Rights { bits: ALL_BITS }
    }

    /// Read the object's memory.
    pub fn read() -> (r: Rights)
        ensures
            r == (Rights { bits: 1 }),
    {
        Rights { bits: 1 }
    }

    /// Write the object's memory.
    pub fn write() -> (r: Rights)
        ensures
            r == (Rights { bits: 2 }),
    {
        Rights { bits: 2 }
    }

    /// Map the frame executable (subject to W^X).
    pub fn execute() -> (r: Rights)
        ensures
            r == (Rights { bits: 4 }),
    {
        Rights { bits: 4 }
    }

    /// Install the frame into an address space.
    pub fn map() -> (r: Rights)
        ensures
            r == (Rights { bits: 8 }),
    {
        Rights { bits: 8 }
    }

    /// Transfer the capability over IPC.
    pub fn grant() -> (r: Rights)
        ensures
            r == (Rights { bits: 0x10 }),
    {
        Rights { bits: 0x10 }
    }

    /// Turn `Untyped` memory into typed objects.
    pub fn retype() -> (r: Rights)
        ensures
            r == (Rights { bits: 0x20 }),
    {
        Rights { bits: 0x20 }
    }

    /// Send on an endpoint.
    pub fn send() -> (r: Rights)
        ensures
            r == (Rights { bits: 0x40 }),
    {
        Rights { bits: 0x40 }
    }

    /// Receive on an endpoint.
    pub fn recv() -> (r: Rights)
        ensures
            r == (Rights { bits: 0x80 }),
    {
        Rights { bits: 0x80 }
    }

    /// Signal a notification.
    pub fn signal() -> (r: Rights)
        ensures
            r == (Rights { bits: 0x100 }),
    {
        Rights { bits: 0x100 }
    }

    /// Derive or duplicate capabilities from this one (MINT/COPY authority).
    pub fn derive() -> (r: Rights)
        ensures
            r == (Rights { bits: 0x200 }),
    {
        Rights { bits: 0x200 }
    }

    /// Enter an isolation domain; distinct from editing the domain's translation.
    pub fn enter() -> (r: Rights)
        ensures
            r == (Rights { bits: 0x400 }),
    {
        Rights { bits: 0x400 }
    }

    /// Wait on a notification.
    pub fn wait() -> (r: Rights)
        ensures
            r == (Rights { bits: 0x800 }),
    {
        Rights { bits: 0x800 }
    }

    /// The raw bits.
    pub fn bits(&self) -> (b: u32)
        ensures
            b == self.bits,
    {
        self.bits
    }

    /// The rights named by `bits`, or `None` if a bit outside the model is set.
    pub fn from_bits(bits: u32) -> (r: Option<Rights>)
        ensures
            r == (if bits & !ALL_BITS == 0 {
                Some(Rights { bits })
            } else {
                None
            }),
    {
        if bits & !ALL_BITS == 0 {
            Some(Rights { bits })
        } else {
            None
        }
    }

    /// Is every right in `other` also in `self`?
    pub fn contains(&self, other: Rights) -> (b: bool)
        ensures
            b == self.includes(other),
    {
        self.bits & other.bits == other.bits
    }

    /// Is `self` no wider than `parent`? Derivations that fail this are refused.
    pub fn subset_of(self, parent: Rights) -> (b: bool)
        ensures
            b == parent.includes(self),
    {
        parent.contains(self)
    }
}

impl BitOr for Rights {
    type Output = Rights;

    fn bitor(self, rhs: Rights) -> (r: Rights) {
        Rights { bits: self.bits | rhs.bits }
    }
}

impl vstd::std_specs::ops::BitOrSpecImpl for Rights {
    open spec fn obeys_bitor_spec() -> bool {
        true
    }

    open spec fn bitor_req(self, rhs: Rights) -> bool {
        true
    }

    open spec fn bitor_spec(self, rhs: Rights) -> Rights {
        Rights { bits: self.bits | rhs.bits }
    }
}

/// Narrowing is transitive: what a child may do, every ancestor along its derivation may do.
pub proof fn law_narrowing_is_transitive(grandparent: Rights, parent: Rights, child: Rights)
    requires
        grandparent.includes(parent),
        parent.includes(child),
    ensures
        grandparent.includes(child),
{
    let g = grandparent.bits;
    let p = parent.bits;
    let c = child.bits;
    assert(g & c == c) by (bit_vector)
        requires
            g & p == p,
            p & c == c,
    ;
}

} // verus!
