//! Retype accounting: an `Untyped` region is consumed from its start and only reclaimed whole.

use crate::mem::frame::Pfn;
use vstd::prelude::*;

verus! {

/// A region of frames, of which the first `watermark` have been handed out.
#[derive(Clone, Copy, Debug)]
pub struct Untyped {
    base: Pfn,
    frames: Pfn,
    watermark: Pfn,
}

/// The state of an [`Untyped`].
pub struct UntypedView {
    pub base: int,
    pub frames: int,
    pub used: int,
}

impl View for Untyped {
    type V = UntypedView;

    closed spec fn view(&self) -> UntypedView {
        UntypedView {
            base: self.base as int,
            frames: self.frames as int,
            used: self.watermark as int,
        }
    }
}

impl Untyped {
    #[verifier::type_invariant]
    spec fn within_region(self) -> bool {
        self.watermark <= self.frames
    }

    /// A region of `frames` frames from `base` on.
    #[must_use]
    pub fn new(base: Pfn, frames: Pfn) -> (u: Self)
        ensures
            u@ == (UntypedView { base: base as int, frames: frames as int, used: 0 }),
    {
        Untyped { base, frames, watermark: 0 }
    }

    /// The first frame of the region.
    #[must_use]
    pub fn base(&self) -> (b: Pfn)
        ensures
            b == self@.base,
    {
        self.base
    }

    /// The number of frames in the region.
    #[must_use]
    pub fn frames(&self) -> (n: Pfn)
        ensures
            n == self@.frames,
    {
        self.frames
    }

    /// The number of frames consumed.
    #[must_use]
    pub fn used(&self) -> (n: Pfn)
        ensures
            n == self@.used,
            n <= self@.frames,
    {
        proof {
            use_type_invariant(self);
        }
        self.watermark
    }

    /// The number of frames left.
    #[must_use]
    pub fn remaining(&self) -> (n: Pfn)
        ensures
            n == self@.frames - self@.used,
    {
        proof {
            use_type_invariant(self);
        }
        self.frames - self.watermark
    }

    /// Charge `frames_per_obj * count` frames and return the first of them, or `None`, with
    /// nothing charged, if fewer are left. The caller clears them before they become observable.
    pub fn retype(&mut self, frames_per_obj: Pfn, count: Pfn) -> (start: Option<Pfn>)
        requires
            frames_per_obj * count <= old(self)@.frames - old(self)@.used ==> old(self)@.base
                + old(self)@.used <= u32::MAX,
        ensures
            frames_per_obj * count <= old(self)@.frames - old(self)@.used ==> {
                &&& start is Some
                &&& start->0 == old(self)@.base + old(self)@.used
                &&& final(self)@ == (UntypedView {
                    used: old(self)@.used + frames_per_obj * count,
                    ..old(self)@
                })
            },
            frames_per_obj * count > old(self)@.frames - old(self)@.used ==> start is None
                && final(self)@ == old(self)@,
    {
        proof {
            use_type_invariant(&*self);
        }
        let need: Pfn = match frames_per_obj.checked_mul(count) {
            None => {
                return None;
            },
            Some(need) => need,
        };
        if need > self.remaining() {
            return None;
        }
        let start: Pfn = self.base + self.watermark;
        self.watermark = self.watermark + need;
        Some(start)
    }

    /// Reclaim the whole region.
    pub fn reset(&mut self)
        ensures
            final(self)@ == (UntypedView { used: 0, ..old(self)@ }),
    {
        self.watermark = 0;
    }
}

/// Two runs retyped one after the other lie inside the region and share no frame.
pub proof fn law_runs_are_disjoint(u: UntypedView, first: int, second: int)
    requires
        0 <= u.used <= u.frames,
        0 <= first <= u.frames - u.used,
        0 <= second <= u.frames - (u.used + first),
    ensures
        ({
            let next = UntypedView { used: u.used + first, ..u };
            &&& u.base <= u.base + u.used
            &&& u.base + u.used + first <= next.base + next.used
            &&& next.base + next.used + second <= u.base + u.frames
        }),
{
}

} // verus!
