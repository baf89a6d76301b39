//! Physical memory at boot: which frames the allocator gets, and the allocator over them.
//!
//! The memory map is not trusted. Regions that are malformed are passed over; a map whose usable
//! regions overlap, or that leaves no room for the frame descriptors, is refused.

pub mod demo;
pub mod laws;

use crate::cap::zero::ZeroFrames;
use crate::kernel::arch::KernelMap;
use crate::kernel::boot::MemRegion;
use crate::mem::blocks;
use crate::mem::blocks::{BuddyView, ORDERS};
use crate::mem::buddy::{Buddy, FrameDesc};
use crate::mem::frame;
use crate::mem::frame::{Pfn, PAGE_SIZE};
use vstd::prelude::*;

verus! {

/// The number of usable ranges that are accepted.
pub const MAX_USABLE: usize = 512;

/// The low memory that is mapped.
pub const IDENTITY_BYTES: u64 = 0x1_0000_0000;

/// The number of frames in it.
pub const MAPPED_FRAMES: u64 = 0x10_0000;

/// Why the memory map is refused.
#[derive(Clone, Copy, PartialEq, Eq, Structural, Debug)]
pub enum MemError {
    /// It is empty or unreadable.
    EmptyMap,
    /// It has too many usable regions.
    TooManyRegions,
    /// It has no usable memory within the mapped window.
    NoUsableRam,
    /// Usable regions overlap.
    Overlap,
    /// No usable region has room for the frame descriptors.
    NoRoomForDescriptors,
    /// The kernel image is not aligned to 2 MiB, or larger than that.
    BadKernelImage,
}

/// The frames of a region, from and to; `None` if the region is malformed.
pub open spec fn region_frames(r: MemRegion) -> Option<(int, int)> {
    let start = r.base as int / 4096;
    if r.base % 4096 != 0 || r.pages == 0 || start + r.pages > u64::MAX {
        None
    } else {
        Some((start, start + r.pages))
    }
}

/// The frames of a region, from and to; `None` if the region is malformed.
pub fn usable_frames(r: &MemRegion) -> (f: Option<(u64, u64)>)
    ensures
        match region_frames(*r) {
            Some((start, end)) => f is Some && f->0 == (start as u64, end as u64),
            None => f is None,
        },
{
    if r.base % PAGE_SIZE != 0 {
        return None;
    }
    let start: u64 = r.base / PAGE_SIZE;
    let end: u64 = match start.checked_add(r.pages) {
        None => {
            return None;
        },
        Some(end) => end,
    };
    if end <= start {
        return None;
    }
    Some((start, end))
}

/// The frames of a region that the allocator can use: those of a usable region that are mapped.
pub open spec fn range_of(r: MemRegion) -> Option<(Pfn, Pfn)> {
    match region_frames(r) {
        Some((start, end)) => if r.kind.code == 0 && start < MAPPED_FRAMES {
            Some(
                (
                    start as Pfn,
                    if end < MAPPED_FRAMES {
                        end as Pfn
                    } else {
                        MAPPED_FRAMES as Pfn
                    },
                ),
            )
        } else {
            None
        },
        None => None,
    }
}

/// The usable ranges of the first `n` regions.
pub open spec fn ranges_of(regions: Seq<MemRegion>, n: int) -> Seq<(Pfn, Pfn)>
    decreases n,
{
    if n <= 0 {
        Seq::empty()
    } else {
        match range_of(regions[n - 1]) {
            Some(range) => ranges_of(regions, n - 1).push(range),
            None => ranges_of(regions, n - 1),
        }
    }
}

/// No two ranges share a frame.
pub open spec fn disjoint(ranges: Seq<(Pfn, Pfn)>) -> bool {
    forall|i: int, j: int|
        0 <= i < j < ranges.len() ==> (#[trigger] ranges[i]).1 <= (#[trigger] ranges[j]).0
            || ranges[j].1 <= ranges[i].0
}

/// The ranges are in the order of their starts.
pub open spec fn sorted(ranges: Seq<(Pfn, Pfn)>) -> bool {
    forall|i: int, j: int|
        0 <= i < j < ranges.len() ==> (#[trigger] ranges[i]).0 <= (#[trigger] ranges[j]).0
}

/// The same ranges in another order.
pub open spec fn same_ranges(a: Seq<(Pfn, Pfn)>, b: Seq<(Pfn, Pfn)>) -> bool {
    a.to_multiset() == b.to_multiset()
}

/// The number of frames in the first `n` ranges.
pub open spec fn frames_in(ranges: Seq<(Pfn, Pfn)>, n: int) -> int
    decreases n,
{
    if n <= 0 {
        0
    } else {
        frames_in(ranges, n - 1) + (ranges[n - 1].1 - ranges[n - 1].0)
    }
}

/// The first range that has room for `frames` frames, from the `i`th on.
pub open spec fn first_room(ranges: Seq<(Pfn, Pfn)>, frames: int, i: int) -> Option<int>
    decreases ranges.len() - i,
{
    if i >= ranges.len() {
        None
    } else if ranges[i].1 - ranges[i].0 >= frames {
        Some(i)
    } else {
        first_room(ranges, frames, i + 1)
    }
}

/// How the allocator is to be set up.
pub struct InitPlan {
    /// The usable ranges, in order.
    pub ranges: Vec<(Pfn, Pfn)>,
    /// The first usable frame.
    pub base_pfn: Pfn,
    /// The number of frames from there to the last usable one.
    pub span: Pfn,
    /// The number of usable frames.
    pub total_pages: u64,
    /// The number of frames for the frame descriptors.
    pub desc_frames: Pfn,
    /// The first of them.
    pub desc_start: Pfn,
}

/// The frames that `span` descriptors of `desc_size` bytes fill.
pub open spec fn desc_frames_for(span: int, desc_size: int) -> int {
    (span * desc_size + 4095) / 4096
}

impl InitPlan {
    /// The plan is consistent.
    pub open spec fn wf(&self) -> bool {
        let r = self.ranges@;
        &&& r.len() > 0
        &&& sorted(r)
        &&& disjoint(r)
        &&& proper(r)
        &&& self.base_pfn == r[0].0
        &&& self.span == r[r.len() - 1].1 - self.base_pfn
        &&& exists|h: int|
            0 <= h < r.len() && (#[trigger] r[h]).0 == self.desc_start && r[h].1 - r[h].0
                >= self.desc_frames
    }

    /// Frame `f` is for the allocator to hand out.
    pub open spec fn usable(&self, f: int) -> bool {
        &&& exists|i: int|
            0 <= i < self.ranges@.len() && (#[trigger] self.ranges@[i]).0 <= f
                < self.ranges@[i].1
        &&& !(self.desc_start <= f < self.desc_start + self.desc_frames)
    }

    /// The first frame of range `i` that is released: behind the descriptors, in the range that
    /// they are in.
    pub open spec fn release_start(&self, i: int) -> int {
        let from = self.ranges@[i].0;
        if from == self.desc_start {
            from + self.desc_frames
        } else {
            from as int
        }
    }

    /// The blocks once the first `n` ranges are released, one after the other, each as the largest
    /// aligned blocks there are.
    pub open spec fn released(&self, n: int) -> BuddyView
        decreases n,
    {
        if n <= 0 {
            BuddyView {
                nframes: self.span as nat,
                lists: Seq::new(ORDERS as nat, |o: int| Seq::<u32>::empty()),
                live: Map::empty(),
            }
        } else {
            self.released(n - 1).carved(
                self.release_start(n - 1) - self.base_pfn,
                self.ranges@[n - 1].1 - self.base_pfn,
            )
        }
    }
}

/// No range is empty, and all are mapped.
pub open spec fn proper(ranges: Seq<(Pfn, Pfn)>) -> bool {
    forall|i: int|
        0 <= i < ranges.len() ==> (#[trigger] ranges[i]).0 < ranges[i].1 && ranges[i].1
            <= MAPPED_FRAMES
}

/// Why the map is refused.
pub open spec fn plan_error(regions: Seq<MemRegion>, desc_size: u64) -> Option<MemError> {
    let all = ranges_of(regions, regions.len() as int);
    if regions.len() == 0 {
        Some(MemError::EmptyMap)
    } else if all.len() > MAX_USABLE {
        Some(MemError::TooManyRegions)
    } else if all.len() == 0 {
        Some(MemError::NoUsableRam)
    } else if !disjoint(all) {
        Some(MemError::Overlap)
    } else if forall|i: int|
        0 <= i < all.len() ==> (#[trigger] all[i]).1 - all[i].0 < desc_frames_for(
            last_frame(all) - first_frame(all),
            desc_size as int,
        ) {
        Some(MemError::NoRoomForDescriptors)
    } else {
        None
    }
}

/// The lowest start of the ranges.
pub open spec fn first_frame(ranges: Seq<(Pfn, Pfn)>) -> int
    decreases ranges.len(),
{
    if ranges.len() <= 1 {
        ranges[0].0 as int
    } else if ranges.last().0 < first_frame(ranges.drop_last()) {
        ranges.last().0 as int
    } else {
        first_frame(ranges.drop_last())
    }
}

/// The highest end of the ranges.
pub open spec fn last_frame(ranges: Seq<(Pfn, Pfn)>) -> int
    decreases ranges.len(),
{
    if ranges.len() <= 1 {
        ranges[0].1 as int
    } else if ranges.last().1 > last_frame(ranges.drop_last()) {
        ranges.last().1 as int
    } else {
        last_frame(ranges.drop_last())
    }
}

proof fn lemma_bounds(ranges: Seq<(Pfn, Pfn)>)
    requires
        ranges.len() > 0,
    ensures
        exists|i: int| 0 <= i < ranges.len() && (#[trigger] ranges[i]).0 == first_frame(ranges),
        exists|i: int| 0 <= i < ranges.len() && (#[trigger] ranges[i]).1 == last_frame(ranges),
        forall|i: int|
            0 <= i < ranges.len() ==> first_frame(ranges) <= (#[trigger] ranges[i]).0
                && ranges[i].1 <= last_frame(ranges),
    decreases ranges.len(),
{
    if ranges.len() > 1 {
        let d = ranges.drop_last();
        lemma_bounds(d);
        let i = choose|i: int| 0 <= i < d.len() && (#[trigger] d[i]).0 == first_frame(d);
        let j = choose|j: int| 0 <= j < d.len() && (#[trigger] d[j]).1 == last_frame(d);
        assert(ranges[i].0 == first_frame(d));
        assert(ranges[j].1 == last_frame(d));
        let n = ranges.len() - 1;
        assert(ranges[n] == ranges.last());
        assert forall|k: int| 0 <= k < ranges.len() implies first_frame(ranges) <= (
        #[trigger] ranges[k]).0 && ranges[k].1 <= last_frame(ranges) by {
            if k < n {
                assert(d[k] == ranges[k]);
            }
        }
    } else {
        assert(ranges[0].0 == first_frame(ranges));
        assert(ranges[0].1 == last_frame(ranges));
    }
}

/// The same ranges have the same bounds.
proof fn lemma_bounds_permute(a: Seq<(Pfn, Pfn)>, b: Seq<(Pfn, Pfn)>)
    requires
        a.len() > 0,
        same_ranges(a, b),
    ensures
        b.len() == a.len(),
        first_frame(a) == first_frame(b),
        last_frame(a) == last_frame(b),
{
    a.to_multiset_ensures();
    b.to_multiset_ensures();
    lemma_bounds(a);
    lemma_bounds(b);
    let i = choose|i: int| 0 <= i < a.len() && (#[trigger] a[i]).0 == first_frame(a);
    let j = choose|j: int| 0 <= j < b.len() && (#[trigger] b[j]).0 == first_frame(b);
    let k = choose|k: int| 0 <= k < a.len() && (#[trigger] a[k]).1 == last_frame(a);
    let l = choose|l: int| 0 <= l < b.len() && (#[trigger] b[l]).1 == last_frame(b);
    lemma_member(a, b, i);
    lemma_member(b, a, j);
    lemma_member(a, b, k);
    lemma_member(b, a, l);
}

/// A range of the one is a range of the other.
proof fn lemma_member(a: Seq<(Pfn, Pfn)>, b: Seq<(Pfn, Pfn)>, i: int) -> (j: int)
    requires
        same_ranges(a, b),
        0 <= i < a.len(),
    ensures
        0 <= j < b.len(),
        b[j] == a[i],
{
    a.to_multiset_ensures();
    b.to_multiset_ensures();
    assert(a.contains(a[i]));
    assert(a.to_multiset().count(a[i]) > 0);
    assert(b.contains(a[i]));
    choose|j: int| 0 <= j < b.len() && b[j] == a[i]
}

/// Whether ranges share frames does not depend on their order.
proof fn lemma_disjoint_permutes(a: Seq<(Pfn, Pfn)>, b: Seq<(Pfn, Pfn)>)
    requires
        same_ranges(a, b),
        proper(a),
        disjoint(a),
    ensures
        disjoint(b),
{
    assert(a.no_duplicates()) by {
        assert forall|i: int, j: int| 0 <= i < j < a.len() implies a[i] != a[j] by {
            assert(a[i].1 <= a[j].0 || a[j].1 <= a[i].0);
        }
    }
    a.lemma_multiset_has_no_duplicates();
    b.lemma_multiset_has_no_duplicates_conv();
    assert forall|i: int, j: int| 0 <= i < j < b.len() implies (#[trigger] b[i]).1 <= (
    #[trigger] b[j]).0 || b[j].1 <= b[i].0 by {
        let p = lemma_member(b, a, i);
        let q = lemma_member(b, a, j);
        assert(b[i] != b[j]);
        if p < q {
            assert(a[p].1 <= a[q].0 || a[q].1 <= a[p].0);
        } else {
            assert(a[q].1 <= a[p].0 || a[p].1 <= a[q].0);
        }
    }
}

proof fn lemma_ranges_proper(regions: Seq<MemRegion>, n: int)
    requires
        0 <= n <= regions.len(),
    ensures
        proper(ranges_of(regions, n)),
        ranges_of(regions, n).len() <= n,
    decreases n,
{
    if n > 0 {
        lemma_ranges_proper(regions, n - 1);
    }
}

proof fn lemma_ranges_grow(regions: Seq<MemRegion>, m: int, n: int)
    requires
        0 <= m <= n,
    ensures
        ranges_of(regions, m).len() <= ranges_of(regions, n).len(),
    decreases n,
{
    if m < n {
        lemma_ranges_grow(regions, m, n - 1);
    }
}

/// In order and apart, ranges have at least as many frames between first and last as in them.
proof fn lemma_frames_in(ranges: Seq<(Pfn, Pfn)>, n: int)
    requires
        0 < n <= ranges.len(),
        proper(ranges),
        sorted(ranges),
        disjoint(ranges),
    ensures
        0 <= frames_in(ranges, n) <= ranges[n - 1].1 - ranges[0].0,
    decreases n,
{
    if n > 1 {
        lemma_frames_in(ranges, n - 1);
        assert(ranges[n - 2].1 <= ranges[n - 1].0 || ranges[n - 1].1 <= ranges[n - 2].0);
        assert(ranges[n - 2].0 <= ranges[n - 1].0);
        assert(ranges[n - 2].0 < ranges[n - 2].1);
        assert(ranges[n - 1].0 < ranges[n - 1].1);
    } else {
        assert(frames_in(ranges, 0) == 0);
        assert(ranges[0].0 < ranges[0].1);
    }
}

/// Plan the allocator from the memory map, for descriptors of `desc_size` bytes.
pub fn plan(regions: &[MemRegion], desc_size: u64) -> (r: Result<InitPlan, MemError>)
    requires
        0 < desc_size <= 4096,
    ensures
        match plan_error(regions@, desc_size) {
            Some(e) => r is Err && r->Err_0 == e,
            None => {
                &&& r is Ok
                &&& r->Ok_0.wf()
                &&& same_ranges(r->Ok_0.ranges@, ranges_of(regions@, regions@.len() as int))
                &&& forall|k: int, f: int| #[trigger]
                    laws::in_range(r->Ok_0.ranges@, k, f) ==> exists|i: int|
                        0 <= i < regions@.len() && (#[trigger] regions@[i]).kind.code == 0
                            && regions@[i].base <= f * 4096 < regions@[i].base + regions@[i].pages
                            * 4096
                &&& r->Ok_0.total_pages == frames_in(
                    r->Ok_0.ranges@,
                    r->Ok_0.ranges@.len() as int,
                )
                &&& r->Ok_0.desc_frames == desc_frames_for(
                    r->Ok_0.span as int,
                    desc_size as int,
                )
                &&& match first_room(r->Ok_0.ranges@, r->Ok_0.desc_frames as int, 0) {
                    Some(h) => r->Ok_0.desc_start == r->Ok_0.ranges@[h].0,
                    None => false,
                }
            },
        },
{
    let count: usize = regions.len();
    if count == 0 {
        return Err(MemError::EmptyMap);
    }
    let mut ranges: Vec<(Pfn, Pfn)> = Vec::new();
    let mut i: usize = 0;
    let ghost all = ranges_of(regions@, count as int);
    while i < count
        invariant
            i <= count,
            count == regions@.len(),
            count > 0,
            all == ranges_of(regions@, count as int),
            sorted(ranges@),
            ranges@.len() <= MAX_USABLE,
            ranges@.len() == ranges_of(regions@, i as int).len(),
            same_ranges(ranges@, ranges_of(regions@, i as int)),
        decreases count - i,
    {
        let ghost seen = ranges_of(regions@, i as int);
        let r = regions[i];
        if r.kind.code == 0 {
            match usable_frames(&r) {
                None => {},
                Some((start, end)) => {
                    let end: u64 = if end < MAPPED_FRAMES {
                        end
                    } else {
                        MAPPED_FRAMES
                    };
                    if start < end {
                        assert(range_of(r) == Some((start as Pfn, end as Pfn)));
                        if ranges.len() >= MAX_USABLE {
                            proof {
                                lemma_ranges_grow(regions@, i + 1, count as int);
                            }
                            return Err(MemError::TooManyRegions);
                        }
                        let ghost before = ranges@;
                        insert_sorted(&mut ranges, (start as Pfn, end as Pfn));
                        proof {
                            before.to_multiset_ensures();
                            seen.to_multiset_ensures();
                        }
                    }
                },
            }
        }
        i = i + 1;
    }
    let n: usize = ranges.len();
    if n == 0 {
        return Err(MemError::NoUsableRam);
    }
    proof {
        lemma_ranges_proper(regions@, count as int);
        assert(proper(ranges@)) by {
            assert forall|k: int| 0 <= k < ranges@.len() implies (#[trigger] ranges@[k]).0
                < ranges@[k].1 && ranges@[k].1 <= MAPPED_FRAMES by {
                let q = lemma_member(ranges@, all, k);
                assert(all[q].0 < all[q].1);
            }
        }
        lemma_bounds_permute(all, ranges@);
        lemma_bounds(ranges@);
    }
    let mut j: usize = 1;
    while j < n
        invariant
            1 <= j <= n,
            n == ranges@.len(),
            sorted(ranges@),
            proper(ranges@),
            proper(all),
            same_ranges(ranges@, all),
            0 < all.len() <= MAX_USABLE,
            regions@.len() > 0,
            all == ranges_of(regions@, regions@.len() as int),
            forall|a: int, b: int|
                0 <= a < b < j ==> (#[trigger] ranges@[a]).1 <= (#[trigger] ranges@[b]).0,
        decreases n - j,
    {
        if ranges[j].0 < ranges[j - 1].1 {
            proof {
                if disjoint(all) {
                    lemma_disjoint_permutes(all, ranges@);
                    assert(ranges@[j - 1].1 <= ranges@[j as int].0 || ranges@[j as int].1
                        <= ranges@[j - 1].0);
                    assert(ranges@[j - 1].0 <= ranges@[j as int].0);
                    assert(ranges@[j as int].0 < ranges@[j as int].1);
                    assert(false);
                }
            }
            return Err(MemError::Overlap);
        }
        proof {
            assert forall|a: int| 0 <= a < j implies (#[trigger] ranges@[a]).1
                <= ranges@[j as int].0 by {
                if a < j - 1 {
                    assert(ranges@[a].1 <= ranges@[j - 1].0);
                    assert(ranges@[j - 1].0 <= ranges@[j as int].0);
                }
            }
        }
        j = j + 1;
    }
    proof {
        assert(disjoint(ranges@));
        lemma_disjoint_permutes(ranges@, all);
    }
    let base_pfn: Pfn = ranges[0].0;
    proof {
        let h = choose|h: int|
            0 <= h < ranges@.len() && (#[trigger] ranges@[h]).1 == last_frame(ranges@);
        assert(ranges@[n - 1].1 <= last_frame(ranges@));
        if h < n - 1 {
            assert(ranges@[h].1 <= ranges@[n - 1].0);
            assert(ranges@[n - 1].0 < ranges@[n - 1].1);
        }
        assert(ranges@[n - 1].1 == last_frame(ranges@));
        let g = choose|g: int|
            0 <= g < ranges@.len() && (#[trigger] ranges@[g]).0 == first_frame(ranges@);
        if g > 0 {
            assert(ranges@[0].0 <= ranges@[g].0);
        }
        assert(ranges@[0].0 == first_frame(ranges@));
        lemma_frames_in(ranges@, n as int);
    }
    let span: Pfn = ranges[n - 1].1 - base_pfn;
    let mut total_pages: u64 = 0;
    let mut k: usize = 0;
    while k < n
        invariant
            k <= n,
            n == ranges@.len(),
            proper(ranges@),
            sorted(ranges@),
            disjoint(ranges@),
            total_pages == frames_in(ranges@, k as int),
        decreases n - k,
    {
        proof {
            lemma_frames_in(ranges@, k + 1);
            assert(ranges@[k as int].0 < ranges@[k as int].1);
        }
        total_pages = total_pages + (ranges[k].1 - ranges[k].0) as u64;
        k = k + 1;
    }
    assert(span * desc_size <= 0x10_0000 * 4096) by (nonlinear_arith)
        requires
            span <= 0x10_0000,
            desc_size <= 4096,
    ;
    let desc_bytes: u64 = (span as u64) * desc_size;
    let desc_frames: Pfn = ((desc_bytes + 4095) / 4096) as Pfn;
    let mut h: usize = 0;
    while h < n
        invariant
            h <= n,
            n == ranges@.len(),
            proper(ranges@),
            first_room(ranges@, desc_frames as int, 0) == first_room(
                ranges@,
                desc_frames as int,
                h as int,
            ),
            forall|x: int|
                0 <= x < h ==> (#[trigger] ranges@[x]).1 - ranges@[x].0 < desc_frames,
            // What has been established so far.
            sorted(ranges@),
            disjoint(ranges@),
            disjoint(all),
            same_ranges(ranges@, all),
            0 < all.len() <= MAX_USABLE,
            regions@.len() > 0,
            all == ranges_of(regions@, regions@.len() as int),
            base_pfn == ranges@[0].0,
            span == ranges@[n - 1].1 - base_pfn,
            span == last_frame(all) - first_frame(all),
            desc_frames == desc_frames_for(span as int, desc_size as int),
            total_pages == frames_in(ranges@, n as int),
        decreases n - h,
    {
        assert(ranges@[h as int].0 < ranges@[h as int].1);
        if ranges[h].1 - ranges[h].0 >= desc_frames {
            let desc_start: Pfn = ranges[h].0;
            proof {
                let q = lemma_member(ranges@, all, h as int);
                assert(all[q].1 - all[q].0 >= desc_frames);
                assert forall|k: int, f: int| #[trigger]
                    laws::in_range(ranges@, k, f) implies exists|i: int|
                    0 <= i < regions@.len() && (#[trigger] regions@[i]).kind.code == 0
                        && regions@[i].base <= f * 4096 < regions@[i].base + regions@[i].pages
                        * 4096 by {
                    laws::law_plan_takes_free_ram_alone(regions@, ranges@, f);
                    let i = choose|i: int| laws::is_ram(regions@, i, f);
                    assert(regions@[i].kind.code == 0);
                }
            }
            return Ok(
                InitPlan { ranges, base_pfn, span, total_pages, desc_frames, desc_start },
            );
        }
        h = h + 1;
    }
    proof {
        assert forall|x: int| 0 <= x < all.len() implies (#[trigger] all[x]).1 - all[x].0
            < desc_frames by {
            let q = lemma_member(all, ranges@, x);
            assert(ranges@[q].1 - ranges@[q].0 < desc_frames);
        }
    }
    Err(MemError::NoRoomForDescriptors)
}

/// Put `range` in its place.
fn insert_sorted(ranges: &mut Vec<(Pfn, Pfn)>, range: (Pfn, Pfn))
    requires
        sorted(old(ranges)@),
    ensures
        sorted(final(ranges)@),
        final(ranges)@.len() == old(ranges)@.len() + 1,
        same_ranges(final(ranges)@, old(ranges)@.push(range)),
{
    let mut i: usize = 0;
    while i < ranges.len() && ranges[i].0 <= range.0
        invariant
            i <= ranges@.len(),
            ranges@ == old(ranges)@,
            forall|k: int| 0 <= k < i ==> (#[trigger] ranges@[k]).0 <= range.0,
        decreases ranges@.len() - i,
    {
        i = i + 1;
    }
    ranges.insert(i, range);
    proof {
        let s = old(ranges)@;
        let t = ranges@;
        assert(t =~= s.insert(i as int, range));
        assert forall|a: int, b: int| 0 <= a < b < t.len() implies (#[trigger] t[a]).0 <= (
        #[trigger] t[b]).0 by {
            let sa = if a < i {
                a
            } else {
                a - 1
            };
            let sb = if b < i {
                b
            } else {
                b - 1
            };
            if a == i {
                assert(s[i as int].0 > range.0);
                if sb > i {
                    assert(s[i as int].0 <= s[sb].0);
                }
            } else if b == i {
                assert(s[sa].0 <= range.0);
            } else {
                assert(s[sa].0 <= s[sb].0);
            }
        }
        vstd::seq_lib::to_multiset_insert(s, i as int, range);
        s.to_multiset_ensures();
    }
}

/// The physical frame allocator: a buddy allocator whose frame 0 is frame `base_pfn`.
pub struct FrameAllocator<'a> {
    buddy: Buddy<'a>,
    base_pfn: Pfn,
}

/// The state of a [`FrameAllocator`].
#[verifier::ext_equal]
pub struct FramesView {
    pub buddy: BuddyView,
    pub base_pfn: int,
}

impl<'a> View for FrameAllocator<'a> {
    type V = FramesView;

    closed spec fn view(&self) -> FramesView {
        FramesView { buddy: self.buddy@, base_pfn: self.base_pfn as int }
    }
}

impl FramesView {
    /// Physical frame `pfn` is free.
    pub open spec fn free(self, pfn: int) -> bool {
        self.buddy.frame_free(pfn - self.base_pfn)
    }

    /// Physical frame `pfn` is handed out.
    pub open spec fn live(self, pfn: int) -> bool {
        self.buddy.frame_live(pfn - self.base_pfn)
    }

    /// The block at physical address `pa` is handed out.
    pub open spec fn holds(self, pa: u64) -> bool {
        &&& pa % 4096 == 0
        &&& self.base_pfn <= pa / 4096
        &&& pa as int / 4096 - self.base_pfn <= u32::MAX
        &&& self.buddy.live.contains_key(self.index(pa))
    }

    /// The physical address of the block of order `order` that is handed out next.
    pub open spec fn next_block(self, order: int) -> int {
        (self.base_pfn + self.buddy.lists[self.buddy.first_fit(order)][0]) * 4096
    }

    /// The allocator's number of the frame at physical address `pa`.
    pub open spec fn index(self, pa: u64) -> u32 {
        (pa as int / 4096 - self.base_pfn) as u32
    }
}

impl<'a> FrameAllocator<'a> {
    /// The blocks are sound, and every frame has a number.
    pub(crate) proof fn lemma_sound(&self)
        requires
            self.wf(),
        ensures
            self@.buddy.wf(),
            0 <= self@.base_pfn,
            self@.base_pfn + self@.buddy.nframes <= u32::MAX,
    {
    }

    /// The blocks are sound, and every frame has a number.
    pub closed spec fn wf(&self) -> bool {
        &&& self.buddy.wf()
        &&& self.base_pfn + self.buddy@.nframes <= u32::MAX
    }

    /// The allocator that `plan` describes, over its frame descriptors: every usable frame is free
    /// but those that hold the descriptors, and the free blocks are as large as the usable ranges
    /// allow.
    pub fn init(plan: &InitPlan, desc: &'a mut [FrameDesc]) -> (fa: Self)
        requires
            plan.wf(),
            old(desc)@.len() == plan.span,
        ensures
            fa.wf(),
            fa@.base_pfn == plan.base_pfn,
            fa@.buddy == plan.released(plan.ranges@.len() as int),
            forall|pfn: int| #[trigger] fa@.free(pfn) == plan.usable(pfn),
            forall|pfn: int| !#[trigger] fa@.live(pfn),
    {
        let mut buddy = Buddy::new(desc);
        let ghost start = buddy@;
        proof {
            assert forall|f: int| !#[trigger] start.frame_live(f) by {}
            assert forall|f: int| !#[trigger] start.frame_free(f) by {}
        }
        let n: usize = plan.ranges.len();
        let base: Pfn = plan.base_pfn;
        let mut i: usize = 0;
        while i < n
            invariant
                i <= n,
                n == plan.ranges@.len(),
                base == plan.base_pfn,
                plan.wf(),
                buddy.wf(),
                buddy@.nframes == plan.span,
                buddy@ == plan.released(i as int),
                forall|f: int| !#[trigger] buddy@.frame_live(f),
                forall|f: int| #[trigger]
                    buddy@.frame_free(f) == usable_in(plan, i as int, f + base),
            decreases n - i,
        {
            let ghost before = buddy@;
            let ghost r = plan.ranges@;
            let (from, to) = plan.ranges[i];
            let start: Pfn = if from == plan.desc_start {
                proof {
                    let h = choose|h: int|
                        0 <= h < r.len() && (#[trigger] r[h]).0 == plan.desc_start && r[h].1
                            - r[h].0 >= plan.desc_frames;
                    lemma_same_start(r, h, i as int);
                }
                from + plan.desc_frames
            } else {
                from
            };
            proof {
                lemma_range_bounds(r, i as int);
                assert(r[i as int].0 < r[i as int].1);
                assert forall|f: int|
                    start - base <= f < to - base implies !#[trigger] before.frame_managed(f) by {
                    assert(before.frame_free(f) == usable_in(plan, i as int, f + base));
                    if usable_in(plan, i as int, f + base) {
                        let j = choose|j: int|
                            0 <= j < i && (#[trigger] r[j]).0 <= f + base < r[j].1;
                        lemma_range_order(r, j, i as int);
                    }
                }
            }
            if start < to {
                buddy.add_frames(start - base, to - start);
            }
            i = i + 1;
            proof {
                assert forall|f: int| #[trigger]
                    buddy@.frame_free(f) == usable_in(plan, i as int, f + base) by {
                    assert(before.frame_free(f) == usable_in(plan, i - 1, f + base));
                    lemma_usable_step(plan, i - 1, f + base);
                }
                assert(buddy@.nframes == before.nframes) by {
                    if start < to {
                        lemma_carving_keeps_span(before, start - base, to - base);
                    }
                }
            }
        }
        let fa = FrameAllocator { buddy, base_pfn: base };
        proof {
            lemma_range_bounds(plan.ranges@, n - 1);
            assert forall|pfn: int| #[trigger] fa@.free(pfn) == plan.usable(pfn) by {
                assert(fa@.buddy.frame_free(pfn - base) == usable_in(
                    plan,
                    n as int,
                    (pfn - base) + base,
                ));
            }
            assert forall|pfn: int| !#[trigger] fa@.live(pfn) by {
                assert(!fa@.buddy.frame_live(pfn - base));
            }
        }
        fa
    }

    /// Hand out `2^order` frames: the physical address of the first.
    pub fn allocate(&mut self, order: u8) -> (r: Option<u64>)
        requires
            old(self).wf(),
        ensures
            final(self).wf(),
            final(self)@.base_pfn == old(self)@.base_pfn,
            match r {
                None => {
                    &&& order >= ORDERS || old(self)@.buddy.first_fit(order as int) == ORDERS
                    &&& final(self)@ == old(self)@
                },
                Some(pa) => {
                    &&& order < ORDERS
                    &&& old(self)@.buddy.first_fit(order as int) < ORDERS
                    &&& final(self)@.buddy == old(self)@.buddy.allocated(order as int)
                    &&& final(self)@.holds(pa)
                    &&& final(self)@.buddy.live[final(self)@.index(pa)] == order
                    &&& pa == old(self)@.next_block(order as int)
                    &&& forall|pfn: int|
                        pa / 4096 <= pfn < pa / 4096 + blocks::span(order as int)
                            ==> #[trigger] old(self)@.free(pfn)
                },
            },
    {
        match self.buddy.allocate(order) {
            None => None,
            Some(rel) => {
                proof {
                    let v = self.buddy@;
                    assert(v.is_live(rel, order as int));
                    assert(blocks::placed(rel as int, order as int, v.nframes));
                    blocks::lemma_span(order as int);
                    assert forall|pfn: int|
                        self.base_pfn + rel <= pfn < self.base_pfn + rel + blocks::span(
                            order as int,
                        ) implies #[trigger] old(self)@.free(pfn) by {
                        assert(old(self)@.buddy.frame_free(pfn - self.base_pfn));
                    }
                }
                Some(frame::pfn_to_phys(self.base_pfn + rel))
            },
        }
    }

    /// Take back the block at physical address `pa`, which must be handed out.
    pub fn free(&mut self, pa: u64)
        requires
            old(self).wf(),
            old(self)@.holds(pa),
        ensures
            final(self).wf(),
            final(self)@ == (FramesView {
                buddy: old(self)@.buddy.freed(old(self)@.index(pa)),
                ..old(self)@
            }),
    {
        proof {
            let rel = self@.index(pa);
            let v = self.buddy@;
            assert(v.is_live(rel, v.live[rel] as int));
            assert(blocks::placed(rel as int, v.live[rel] as int, v.nframes));
            blocks::lemma_span(v.live[rel] as int);
        }
        let rel: Pfn = frame::phys_to_pfn(pa) - self.base_pfn;
        let ghost before = self.buddy@;
        self.buddy.free(rel);
        proof {
            lemma_freeing_keeps_span(before, rel);
        }
    }

    /// The number of free frames.
    pub fn free_frames(&self) -> (n: Pfn)
        requires
            self.wf(),
        ensures
            n == self@.buddy.free_count(),
    {
        self.buddy.free_frames()
    }
}

/// Frame `f` is in one of the first `n` ranges, and holds no descriptor.
spec fn usable_in(plan: &InitPlan, n: int, f: int) -> bool {
    &&& exists|i: int|
        0 <= i < n && (#[trigger] plan.ranges@[i]).0 <= f < plan.ranges@[i].1
    &&& !(plan.desc_start <= f < plan.desc_start + plan.desc_frames)
}

proof fn lemma_usable_step(plan: &InitPlan, n: int, f: int)
    requires
        plan.wf(),
        0 <= n < plan.ranges@.len(),
    ensures
        usable_in(plan, n + 1, f) == (usable_in(plan, n, f) || ({
            let from = plan.ranges@[n].0 + if plan.ranges@[n].0 == plan.desc_start {
                plan.desc_frames as int
            } else {
                0
            };
            from <= f < plan.ranges@[n].1
        })),
{
    let r = plan.ranges@;
    let h = choose|h: int|
        0 <= h < r.len() && (#[trigger] r[h]).0 == plan.desc_start && r[h].1 - r[h].0
            >= plan.desc_frames;
    assert(r[n].0 < r[n].1 && r[h].0 < r[h].1);
    if usable_in(plan, n, f) {
        let i = choose|i: int| 0 <= i < n && (#[trigger] r[i]).0 <= f < r[i].1;
        assert(r[i].0 <= f < r[i].1);
    }
    if usable_in(plan, n + 1, f) {
        let i = choose|i: int| 0 <= i < n + 1 && (#[trigger] r[i]).0 <= f < r[i].1;
        if i < n {
            assert(usable_in(plan, n, f));
        }
    }
    if r[n].0 <= f < r[n].1 && r[n].0 != plan.desc_start {
        // The descriptors are in another range.
        assert(h != n);
        if h < n {
            lemma_range_order(r, h, n);
        } else {
            lemma_range_order(r, n, h);
        }
    }
    if r[n].0 == plan.desc_start {
        lemma_same_start(r, h, n);
    }
}

/// Ranges in order that share no frame follow each other.
proof fn lemma_range_order(r: Seq<(Pfn, Pfn)>, i: int, j: int)
    requires
        sorted(r),
        disjoint(r),
        proper(r),
        0 <= i < j < r.len(),
    ensures
        r[i].1 <= r[j].0,
{
    assert(r[i].1 <= r[j].0 || r[j].1 <= r[i].0);
    assert(r[i].0 <= r[j].0);
    assert(r[i].0 < r[i].1);
    assert(r[j].0 < r[j].1);
}

/// Ranges that share no frame do not start together.
proof fn lemma_same_start(r: Seq<(Pfn, Pfn)>, i: int, j: int)
    requires
        sorted(r),
        disjoint(r),
        proper(r),
        0 <= i < r.len(),
        0 <= j < r.len(),
        r[i].0 == r[j].0,
    ensures
        i == j,
{
    assert(r[i].0 < r[i].1);
    assert(r[j].0 < r[j].1);
    if i < j {
        lemma_range_order(r, i, j);
    } else if j < i {
        lemma_range_order(r, j, i);
    }
}

/// Every range lies between the first start and the last end.
proof fn lemma_range_bounds(r: Seq<(Pfn, Pfn)>, i: int)
    requires
        sorted(r),
        disjoint(r),
        proper(r),
        0 <= i < r.len(),
    ensures
        r[0].0 <= r[i].0,
        r[i].1 <= r[r.len() - 1].1,
        r[r.len() - 1].1 <= MAPPED_FRAMES,
{
    if i > 0 {
        assert(r[0].0 <= r[i].0);
    }
    assert(r[r.len() - 1].0 < r[r.len() - 1].1);
    if i < r.len() - 1 {
        lemma_range_order(r, i, r.len() - 1);
    }
}

proof fn lemma_carving_keeps_span(v: BuddyView, base: int, end: int)
    ensures
        v.carved(base, end).nframes == v.nframes,
    decreases
        if base < end {
            end - base
        } else {
            0
        },
{
    if base < end {
        let o = blocks::largest_order(base, end, ORDERS - 1);
        if o >= 0 {
            blocks::lemma_span(o);
            lemma_carving_keeps_span(v.with_block(base as u32, o), base + blocks::span(o), end);
        }
    }
}

proof fn lemma_freeing_keeps_span(v: BuddyView, base: u32)
    ensures
        v.freed(base).nframes == v.nframes,
    decreases ORDERS - v.live[base],
{
    let o = v.live[base] as int;
    let other = blocks::buddy_of(base, o);
    if o < ORDERS - 1 && v.is_free(other, o) {
        let low = if other < base {
            other
        } else {
            base
        };
        lemma_freeing_keeps_span(v.joined(base), low);
    }
}

/// Physical to virtual, through the direct map at `hhdm`.
#[must_use]
pub fn phys_to_virt(pa: u64, hhdm: u64) -> (va: u64)
    requires
        pa + hhdm <= u64::MAX,
    ensures
        va == pa + hhdm,
{
    pa + hhdm
}

/// Hand out `2^order` frames, once there is an allocator.
pub fn alloc_frames(frames: &mut Option<FrameAllocator>, order: u8) -> (r: Option<u64>)
    requires
        *old(frames) matches Some(fa) ==> fa.wf(),
    ensures
        match (*old(frames), *final(frames)) {
            (None, None) => r is None,
            (Some(before), Some(after)) => {
                &&& after.wf()
                &&& after@.base_pfn == before@.base_pfn
                &&& match r {
                    None => {
                        &&& order >= ORDERS || before@.buddy.first_fit(order as int) == ORDERS
                        &&& after@ == before@
                    },
                    Some(pa) => {
                        &&& order < ORDERS
                        &&& before@.buddy.first_fit(order as int) < ORDERS
                        &&& after@.buddy == before@.buddy.allocated(order as int)
                        &&& after@.holds(pa)
                        &&& after@.buddy.live[after@.index(pa)] == order
                        &&& pa == before@.next_block(order as int)
                    },
                }
            },
            _ => false,
        },
{
    match frames {
        None => None,
        Some(fa) => fa.allocate(order),
    }
}

/// Hand out one frame, cleared.
pub fn alloc_zeroed_frame<Z: ZeroFrames>(frames: &mut Option<FrameAllocator>, zero: &mut Z) -> (r:
    Option<u64>)
    requires
        *old(frames) matches Some(fa) ==> fa.wf(),
    ensures
        match (*old(frames), *final(frames)) {
            (None, None) => r is None,
            (Some(before), Some(after)) => {
                &&& after.wf()
                &&& after@.base_pfn == before@.base_pfn
                &&& match r {
                    None => before@.buddy.first_fit(0) == ORDERS && after@ == before@,
                    Some(pa) => {
                        &&& before@.buddy.first_fit(0) < ORDERS
                        &&& after@.buddy == before@.buddy.allocated(0)
                        &&& after@.holds(pa)
                        &&& after@.buddy.live[after@.index(pa)] == 0
                        &&& pa == before@.next_block(0)
                    },
                }
            },
            _ => false,
        },
        final(zero).zeroed() == (match r {
            Some(pa) => old(zero).zeroed().push((pa / 4096, 1u32)),
            None => old(zero).zeroed(),
        }),
{
    match alloc_frames(frames, 0) {
        None => None,
        Some(pa) => {
            zero_frame(zero, pa);
            Some(pa)
        },
    }
}

/// Take back a block, once there is an allocator.
pub fn free_frames(frames: &mut Option<FrameAllocator>, pa: u64)
    requires
        *old(frames) matches Some(fa) ==> fa.wf() && fa@.holds(pa),
    ensures
        match (*old(frames), *final(frames)) {
            (None, None) => true,
            (Some(before), Some(after)) => {
                &&& after.wf()
                &&& after@ == (FramesView {
                    buddy: before@.buddy.freed(before@.index(pa)),
                    ..before@
                })
            },
            _ => false,
        },
{
    match frames {
        None => {},
        Some(fa) => fa.free(pa),
    }
}

/// The number of free frames; none before there is an allocator.
#[must_use]
pub fn free_frame_count(frames: &Option<FrameAllocator>) -> (n: u64)
    requires
        frames matches Some(fa) ==> fa.wf(),
    ensures
        n == (match *frames {
            Some(fa) => fa@.buddy.free_count(),
            None => 0,
        }),
{
    match frames {
        None => 0,
        Some(fa) => fa.free_frames() as u64,
    }
}

/// Clear the frame at physical address `pa`.
pub fn zero_frame<Z: ZeroFrames>(zero: &mut Z, pa: u64)
    ensures
        final(zero).zeroed() == old(zero).zeroed().push((pa / 4096, 1u32)),
{
    zero.zero(pa / PAGE_SIZE, 1);
}

/// Pages in MiB.
pub fn mib(pages: u64) -> (m: u64)
    requires
        pages * 4096 <= u64::MAX,
    ensures
        m == pages * 4096 / 1048576,
{
    pages * PAGE_SIZE / (1024 * 1024)
}

/// The kernel's own address space, from the boundaries of its sections. The image must be aligned
/// to 2 MiB and fit in that.
pub fn kernel_map(
    hhdm_offset: u64,
    kernel_phys: u64,
    image: (u64, u64),
    text: (u64, u64),
    rodata: (u64, u64),
    data: (u64, u64),
) -> (r: Result<KernelMap, MemError>)
    requires
        image.0 <= image.1,
        image.1 + 4096 <= u64::MAX,
    ensures
        ({
            let vend = ((image.1 + 4095) / 4096) * 4096;
            match r {
                Ok(km) => {
                    &&& image.0 % 0x20_0000 == 0
                    &&& vend - image.0 <= 0x20_0000
                    &&& km.hhdm_offset == hhdm_offset
                    &&& km.identity_bytes == IDENTITY_BYTES
                    &&& km.kernel_vbase == image.0
                    &&& km.kernel_vend == vend
                    &&& km.kernel_phys == kernel_phys
                    &&& km.text == text
                    &&& km.rodata == rodata
                    &&& km.data == data
                },
                Err(e) => {
                    &&& e == MemError::BadKernelImage
                    &&& image.0 % 0x20_0000 != 0 || vend - image.0 > 0x20_0000
                },
            }
        }),
{
    let kernel_vend: u64 = ((image.1 + 4095) / PAGE_SIZE) * PAGE_SIZE;
    if image.0 % 0x20_0000 != 0 || kernel_vend - image.0 > 0x20_0000 {
        return Err(MemError::BadKernelImage);
    }
    Ok(
        KernelMap {
            hhdm_offset,
            identity_bytes: IDENTITY_BYTES,
            kernel_vbase: image.0,
            kernel_vend,
            kernel_phys,
            text,
            rodata,
            data,
        },
    )
}

/// Which section of the kernel is not protected as it should be.
#[derive(Clone, Copy, PartialEq, Eq, Structural, Debug)]
pub enum WxViolation {
    /// The code is not read-execute.
    Text,
    /// The constants are not read-only.
    Rodata,
    /// The data is not read-write without execute.
    Data,
}

/// Check the protections, as (writable, executable), of the kernel's sections: code, constants if
/// there are any, and data.
pub fn wx_violation(
    text: Option<(bool, bool)>,
    rodata: Option<Option<(bool, bool)>>,
    data: Option<(bool, bool)>,
) -> (v: Option<WxViolation>)
    ensures
        v == (if text != Some((false, true)) {
            Some(WxViolation::Text)
        } else if rodata is Some && rodata != Some(Some((false, false))) {
            Some(WxViolation::Rodata)
        } else if data != Some((true, false)) {
            Some(WxViolation::Data)
        } else {
            None
        }),
{
    match text {
        Some((false, true)) => {},
        _ => {
            return Some(WxViolation::Text);
        },
    }
    match rodata {
        None => {},
        Some(Some((false, false))) => {},
        _ => {
            return Some(WxViolation::Rodata);
        },
    }
    match data {
        Some((true, false)) => None,
        _ => Some(WxViolation::Data),
    }
}

} // verus!
