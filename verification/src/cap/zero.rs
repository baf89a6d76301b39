//! The object-zeroing hook: how a CSpace clears the memory behind an object.

use vstd::prelude::*;

verus! {

/// Ranges of frames that were cleared: the first frame number and the number of frames, oldest
/// first.
pub type ZeroedRanges = Seq<(u64, u32)>;

/// Zeroes object memory. A CSpace calls it before a retyped object becomes observable, and when
/// an object's last capability goes.
pub trait ZeroFrames {
    /// Every range cleared so far.
    spec fn zeroed(&self) -> ZeroedRanges;

    /// Clear `frames` frames starting at frame number `frame`.
    fn zero(&mut self, frame: u64, frames: u32)
        ensures
            final(self).zeroed() == old(self).zeroed().push((frame, frames)),
    ;
}

/// Records what was to be cleared and touches no memory: for a CSpace whose frames somebody else
/// clears later, from the record, or that names no real frames at all.
pub struct ZeroLog {
    ranges: Vec<(u64, u32)>,
}

impl ZeroLog {
    /// An empty record.
    pub fn new() -> (log: ZeroLog)
        ensures
            log.zeroed() == Seq::<(u64, u32)>::empty(),
    {
        ZeroLog { ranges: Vec::new() }
    }

    /// The recorded ranges, oldest first.
    pub fn ranges(&self) -> (r: &Vec<(u64, u32)>)
        ensures
            r@ == self.zeroed(),
    {
        &self.ranges
    }
}

impl ZeroFrames for ZeroLog {
    closed spec fn zeroed(&self) -> ZeroedRanges {
        self.ranges@
    }

    fn zero(&mut self, frame: u64, frames: u32) {
        self.ranges.push((frame, frames));
    }
}

} // verus!
