//! CPU time as a capability: the `Sched` budget model.
//!
//! A [`Budget`] is an allotment of up to `capacity` CPU-time units per `period`, replenished
//! each period. It is carried inside a `Sched` capability, so CPU time is subdivided only by
//! [`Budget::split`] and [`Budget::delegate`], which move capacity and never create it.

use crate::cap::cap::RawCap;
use vstd::prelude::*;

verus! {

/// A CPU-time allotment: `capacity` units per `period`, `consumed` so far this period.
#[derive(Clone, Copy, PartialEq, Eq, Structural, Debug)]
pub struct Budget {
    /// CPU-time units granted per period.
    pub capacity: u32,
    /// Units consumed in the current period.
    pub consumed: u32,
    /// Replenishment period.
    pub period: u32,
}

impl Budget {
    /// The allotment that a `Sched` record carries.
    pub open spec fn of(cap: RawCap) -> Budget {
        Budget { capacity: cap.size, consumed: cap.watermark, period: cap.aux }
    }

    /// The record `cap` with this allotment written into it.
    pub open spec fn stored_in(self, cap: RawCap) -> RawCap {
        RawCap { size: self.capacity, watermark: self.consumed, aux: self.period, ..cap }
    }

    /// Units still available this period.
    pub open spec fn available(self) -> int {
        if self.consumed < self.capacity {
            self.capacity - self.consumed
        } else {
            0
        }
    }

    /// Can `amount` units be taken out of this allotment?
    pub open spec fn can_give(self, amount: u32) -> bool {
        0 < amount <= self.available()
    }

    /// A fresh, fully available allotment.
    pub fn new(capacity: u32, period: u32) -> (b: Budget)
        ensures
            b == (Budget { capacity, consumed: 0, period }),
    {
        Budget { capacity, consumed: 0, period }
    }

    /// Read the allotment out of a `Sched` record.
    pub fn from_cap(cap: &RawCap) -> (b: Budget)
        ensures
            b == Budget::of(*cap),
    {
        Budget { capacity: cap.size, consumed: cap.watermark, period: cap.aux }
    }

    /// Write the allotment back into a `Sched` record.
    pub fn write_into(&self, cap: &mut RawCap)
        ensures
            *final(cap) == self.stored_in(*old(cap)),
    {
        cap.size = self.capacity;
        cap.watermark = self.consumed;
        cap.aux = self.period;
    }

    /// Is this allotment used up for the current period?
    pub fn is_depleted(&self) -> (b: bool)
        ensures
            b == (self.available() == 0),
    {
        self.consumed >= self.capacity
    }

    /// Units still available to run this period.
    pub fn remaining(&self) -> (n: u32)
        ensures
            n == self.available(),
    {
        self.capacity.saturating_sub(self.consumed)
    }

    /// Charge `n` units against this period; the counter saturates, it never wraps.
    pub fn charge(&mut self, n: u32)
        ensures
            final(self).consumed == (if old(self).consumed + n > u32::MAX {
                u32::MAX as int
            } else {
                old(self).consumed + n
            }),
            final(self).capacity == old(self).capacity,
            final(self).period == old(self).period,
    {
        self.consumed = self.consumed.saturating_add(n);
    }

    /// Start a new period: nothing is consumed.
    pub fn replenish(&mut self)
        ensures
            *final(self) == (Budget { consumed: 0, ..*old(self) }),
    {
        self.consumed = 0;
    }

    /// SPLIT: carve `amount` units into a fresh child allotment. Refused, with nothing
    /// changed, if `amount` is zero or more than what is still available.
    #[must_use]
    pub fn split(&mut self, amount: u32) -> (child: Option<Budget>)
        ensures
            old(self).can_give(amount) ==> {
                &&& child == Some(Budget { capacity: amount, consumed: 0, period: old(self).period })
                &&& final(self).capacity == old(self).capacity - amount
                &&& final(self).consumed == old(self).consumed
                &&& final(self).period == old(self).period
            },
            !old(self).can_give(amount) ==> child is None && *final(self) == *old(self),
    {
        if amount == 0 || amount > self.remaining() {
            return None;
        }
        self.capacity = self.capacity - amount;
        Some(Budget { capacity: amount, consumed: 0, period: self.period })
    }

    /// DELEGATE: move `amount` units into `dst`. Refused, with both unchanged, if `amount` is
    /// zero, more than what is available, or more than `dst` can hold.
    #[must_use]
    pub fn delegate(&mut self, dst: &mut Budget, amount: u32) -> (moved: bool)
        ensures
            moved == (old(self).can_give(amount) && old(dst).capacity + amount <= u32::MAX),
            moved ==> {
                &&& final(self).capacity == old(self).capacity - amount
                &&& final(self).consumed == old(self).consumed
                &&& final(self).period == old(self).period
                &&& final(dst).capacity == old(dst).capacity + amount
                &&& final(dst).consumed == old(dst).consumed
                &&& final(dst).period == old(dst).period
            },
            !moved ==> *final(self) == *old(self) && *final(dst) == *old(dst),
            // CPU time is conserved.
            final(self).capacity + final(dst).capacity == old(self).capacity + old(dst).capacity,
    {
        if amount == 0 || amount > self.remaining() {
            return false;
        }
        match dst.capacity.checked_add(amount) {
            None => false,
            Some(credited) => {
                self.capacity = self.capacity - amount;
                dst.capacity = credited;
                true
            },
        }
    }
}

/// Writing an allotment into a record and reading it back gives the same allotment.
pub proof fn law_budget_round_trip(b: Budget, cap: RawCap)
    ensures
        Budget::of(b.stored_in(cap)) == b,
        Budget::of(cap).stored_in(cap) == cap,
{
}

} // verus!
