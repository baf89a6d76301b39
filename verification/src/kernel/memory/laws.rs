//! What the kernel's frame allocator is given, and what it can hand out once it is set up.

use vstd::prelude::*;

use crate::kernel::boot::MemRegion;
use crate::kernel::memory;
use crate::kernel::memory::{FramesView, InitPlan, MemError};
use crate::mem::blocks;
use crate::mem::blocks::ORDERS;
use crate::mem::frame::Pfn;
use crate::mem::laws;

verus! {

/// Where the first `n` ranges end, counted from the first usable frame.
spec fn released_end(plan: &InitPlan, n: int) -> int {
    if n <= 0 {
        0
    } else {
        plan.ranges@[n - 1].1 - plan.base_pfn
    }
}

/// What is released of a range lies behind the ranges before it, and in the spanned frames.
proof fn lemma_release_bounds(plan: &InitPlan, i: int)
    requires
        plan.wf(),
        0 <= i < plan.ranges@.len(),
    ensures
        released_end(plan, i) <= plan.ranges@[i].0 - plan.base_pfn,
        0 <= released_end(plan, i),
        plan.ranges@[i].0 <= plan.release_start(i) <= plan.ranges@[i].1,
        plan.ranges@[i].1 - plan.base_pfn <= plan.span,
{
    let r = plan.ranges@;
    memory::lemma_range_bounds(r, i);
    assert(r[i].0 < r[i].1);
    if i > 0 {
        memory::lemma_range_bounds(r, i - 1);
        memory::lemma_range_order(r, i - 1, i);
        assert(r[i - 1].0 < r[i - 1].1);
    }
    if r[i].0 == plan.desc_start {
        let h = choose|h: int|
            0 <= h < r.len() && (#[trigger] r[h]).0 == plan.desc_start && r[h].1 - r[h].0
                >= plan.desc_frames;
        memory::lemma_same_start(r, h, i);
    }
}

/// The blocks of the first `n` ranges are sound and free, and end where the ranges do.
proof fn lemma_released(plan: &InitPlan, n: int)
    requires
        plan.wf(),
        0 <= n <= plan.ranges@.len(),
    ensures
        plan.released(n).wf(),
        plan.released(n).nframes == plan.span,
        plan.released(n).live == Map::<u32, u8>::empty(),
        forall|b: u32, o: int| #[trigger]
            plan.released(n).is_free(b, o) ==> b + blocks::span(o) <= released_end(plan, n),
    decreases n,
{
    if n > 0 {
        lemma_released(plan, n - 1);
        lemma_release_bounds(plan, n - 1);
        lemma_unmanaged(plan, n - 1);
        laws::lemma_carved(
            plan.released(n - 1),
            plan.release_start(n - 1) - plan.base_pfn,
            plan.ranges@[n - 1].1 - plan.base_pfn,
        );
    }
}

/// The frames of a range are reserved until it is released.
proof fn lemma_unmanaged(plan: &InitPlan, n: int)
    requires
        plan.released(n).live == Map::<u32, u8>::empty(),
        forall|b: u32, o: int| #[trigger]
            plan.released(n).is_free(b, o) ==> b + blocks::span(o) <= released_end(plan, n),
    ensures
        forall|f: int| released_end(plan, n) <= f ==> !#[trigger] plan.released(n).frame_managed(f),
{
}

/// The first request for `2^o` frames finds a block if one of the usable ranges has that many,
/// aligned, behind the descriptors.
pub proof fn law_usable_run_can_be_handed_out(plan: &InitPlan, i: int, pfn: int, o: int)
    requires
        plan.wf(),
        0 <= i < plan.ranges@.len(),
        0 <= o < ORDERS,
        plan.release_start(i) <= pfn,
        (pfn - plan.base_pfn) % blocks::span(o) == 0,
        pfn + blocks::span(o) <= plan.ranges@[i].1,
    ensures
        plan.released(plan.ranges@.len() as int).first_fit(o) < ORDERS,
{
    lemma_released(plan, i);
    lemma_release_bounds(plan, i);
    let start = plan.release_start(i) - plan.base_pfn;
    let end = plan.ranges@[i].1 - plan.base_pfn;
    let k = laws::lemma_carved_fits(plan.released(i), start, end, pfn - plan.base_pfn, o);
    lemma_lists_stay(plan, i + 1, plan.ranges@.len() as int, k);
    laws::lemma_fit_is_found(plan.released(plan.ranges@.len() as int), o, k);
}

/// A list that has blocks keeps them while further ranges are released.
proof fn lemma_lists_stay(plan: &InitPlan, m: int, n: int, k: int)
    requires
        plan.wf(),
        0 <= m <= n <= plan.ranges@.len(),
        0 <= k < ORDERS,
        plan.released(m).lists[k].len() > 0,
    ensures
        plan.released(n).lists[k].len() > 0,
    decreases n - m,
{
    if m < n {
        lemma_lists_stay(plan, m, n - 1, k);
        lemma_released(plan, n - 1);
        lemma_release_bounds(plan, n - 1);
        laws::lemma_carving_keeps_lists(
            plan.released(n - 1),
            plan.release_start(n - 1) - plan.base_pfn,
            plan.ranges@[n - 1].1 - plan.base_pfn,
            k,
        );
    }
}

/// Where no two usable ranges touch, no two free blocks could be joined once all are released.
pub proof fn law_fresh_allocator_is_coalesced(plan: &InitPlan)
    requires
        plan.wf(),
        forall|i: int, j: int|
            0 <= i < j < plan.ranges@.len() ==> (#[trigger] plan.ranges@[i]).1 < (
            #[trigger] plan.ranges@[j]).0,
    ensures
        plan.released(plan.ranges@.len() as int).wf(),
        plan.released(plan.ranges@.len() as int).coalesced(),
{
    lemma_coalesced(plan, plan.ranges@.len() as int);
}

proof fn lemma_coalesced(plan: &InitPlan, n: int)
    requires
        plan.wf(),
        0 <= n <= plan.ranges@.len(),
        forall|i: int, j: int|
            0 <= i < j < plan.ranges@.len() ==> (#[trigger] plan.ranges@[i]).1 < (
            #[trigger] plan.ranges@[j]).0,
    ensures
        plan.released(n).wf(),
        plan.released(n).coalesced(),
    decreases n,
{
    lemma_released(plan, n);
    if n > 0 {
        lemma_coalesced(plan, n - 1);
        lemma_released(plan, n - 1);
        lemma_release_bounds(plan, n - 1);
        lemma_unmanaged(plan, n - 1);
        let v = plan.released(n - 1);
        let start = plan.release_start(n - 1) - plan.base_pfn;
        let end = plan.ranges@[n - 1].1 - plan.base_pfn;
        assert forall|b: u32, o: int| #[trigger] v.is_free(b, o) implies b + blocks::span(o) < start
            || end < b by {
            if n == 1 {
                assert(v.lists[o].len() == 0);
            } else {
                assert(plan.ranges@[n - 2].1 < plan.ranges@[n - 1].0);
            }
        }
        laws::law_separate_run_keeps_coalesced(v, start, end);
    }
}

/// Region `i` of the memory map is free RAM in whole pages, and frame `f` is one of them.
pub open spec fn is_ram(regions: Seq<MemRegion>, i: int, f: int) -> bool {
    &&& 0 <= i < regions.len()
    &&& regions[i].kind.code == 0
    &&& regions[i].base % 4096 == 0
    &&& regions[i].base as int / 4096 + regions[i].pages <= u64::MAX
    &&& regions[i].base as int / 4096 <= f < regions[i].base as int / 4096 + regions[i].pages
}

/// Frame `f` is in the `k`th of the ranges.
pub open spec fn in_range(ranges: Seq<(Pfn, Pfn)>, k: int, f: int) -> bool {
    0 <= k < ranges.len() && ranges[k].0 <= f < ranges[k].1
}

/// The ranges of a plan are the free RAM of the memory map as far as it is mapped, and nothing
/// else: whatever else is in the map, the kernel's own image above all, is in none of them.
pub proof fn law_plan_takes_free_ram_alone(
    regions: Seq<MemRegion>,
    ranges: Seq<(Pfn, Pfn)>,
    f: int,
)
    requires
        memory::same_ranges(ranges, memory::ranges_of(regions, regions.len() as int)),
    ensures
        (exists|k: int| in_range(ranges, k, f)) == (0 <= f < 0x10_0000 && exists|i: int|
            is_ram(regions, i, f)),
{
    let all = memory::ranges_of(regions, regions.len() as int);
    if exists|k: int| in_range(ranges, k, f) {
        let k = choose|k: int| in_range(ranges, k, f);
        let j = memory::lemma_member(ranges, all, k);
        let i = lemma_range_is_a_region(regions, regions.len() as int, j);
        assert(is_ram(regions, i, f));
    }
    if 0 <= f < 0x10_0000 && exists|i: int| is_ram(regions, i, f) {
        let i = choose|i: int| is_ram(regions, i, f);
        let j = lemma_region_is_a_range(regions, regions.len() as int, i);
        let k = memory::lemma_member(all, ranges, j);
        assert(in_range(ranges, k, f));
    }
}

/// Each range is the mapped part of a region of free RAM.
proof fn lemma_range_is_a_region(regions: Seq<MemRegion>, n: int, j: int) -> (i: int)
    requires
        0 <= n <= regions.len(),
        0 <= j < memory::ranges_of(regions, n).len(),
    ensures
        0 <= i < n,
        forall|f: int|
            memory::ranges_of(regions, n)[j].0 <= f < memory::ranges_of(regions, n)[j].1
                ==> #[trigger] is_ram(regions, i, f) && 0 <= f < 0x10_0000,
    decreases n,
{
    let before = memory::ranges_of(regions, n - 1);
    if j < before.len() {
        lemma_range_is_a_region(regions, n - 1, j)
    } else {
        n - 1
    }
}

/// The mapped part of each region of free RAM is a range.
proof fn lemma_region_is_a_range(regions: Seq<MemRegion>, n: int, i: int) -> (j: int)
    requires
        0 <= i < n <= regions.len(),
        exists|f: int| 0 <= f < 0x10_0000 && is_ram(regions, i, f),
    ensures
        0 <= j < memory::ranges_of(regions, n).len(),
        j < memory::ranges_of(regions, i + 1).len(),
        j >= memory::ranges_of(regions, i).len(),
        forall|f: int|
            #[trigger] is_ram(regions, i, f) && 0 <= f < 0x10_0000 ==> memory::ranges_of(
                regions,
                n,
            )[j].0 <= f < memory::ranges_of(regions, n)[j].1,
    decreases n,
{
    if i == n - 1 {
        memory::ranges_of(regions, n - 1).len() as int
    } else {
        lemma_region_is_a_range(regions, n - 1, i)
    }
}

/// A memory map in which two regions of free RAM share a mapped frame is not planned for: no frame
/// is handed to two owners.
pub proof fn law_planned_regions_share_nothing(
    regions: Seq<MemRegion>,
    desc_size: u64,
    i: int,
    j: int,
    f: int,
)
    requires
        memory::plan_error(regions, desc_size) is None,
        0 <= f < 0x10_0000,
        is_ram(regions, i, f),
        is_ram(regions, j, f),
    ensures
        i == j,
{
    let n = regions.len() as int;
    let all = memory::ranges_of(regions, n);
    let a = lemma_region_is_a_range(regions, n, i);
    let b = lemma_region_is_a_range(regions, n, j);
    assert(all[a].0 <= f < all[a].1);
    assert(all[b].0 <= f < all[b].1);
    if i < j {
        memory::lemma_ranges_grow(regions, i + 1, j);
        assert(a < b);
    } else if j < i {
        memory::lemma_ranges_grow(regions, j + 1, i);
        assert(b < a);
    }
}

/// A plan is only refused for a memory map without regions, with more than 512 or no regions of
/// mapped free RAM, with such regions that share a frame, or without room for the descriptors.
pub proof fn law_maps_are_refused_for_cause(regions: Seq<MemRegion>, desc_size: u64)
    ensures
        (memory::plan_error(regions, desc_size) == Some(MemError::EmptyMap)) == (regions.len()
            == 0),
        memory::plan_error(regions, desc_size) == Some(MemError::TooManyRegions)
            ==> memory::ranges_of(regions, regions.len() as int).len() > 512,
        memory::plan_error(regions, desc_size) is None ==> 0 < memory::ranges_of(
            regions,
            regions.len() as int,
        ).len() <= 512,
        regions.len() > 0 ==> (memory::plan_error(regions, desc_size) == Some(
            MemError::NoUsableRam,
        )) == (forall|i: int, f: int| 0 <= f < 0x10_0000 ==> !#[trigger] is_ram(regions, i, f)),
        memory::plan_error(regions, desc_size) == Some(MemError::Overlap) ==> exists|
            i: int,
            j: int,
            f: int,
        |
            i != j && 0 <= f < 0x10_0000 && #[trigger] is_ram(regions, i, f) && #[trigger] is_ram(
                regions,
                j,
                f,
            ),
{
    let n = regions.len() as int;
    let all = memory::ranges_of(regions, n);
    memory::lemma_ranges_proper(regions, n);
    if all.len() > 0 {
        let i = lemma_range_is_a_region(regions, n, 0);
        assert(all[0].0 < all[0].1);
        assert(is_ram(regions, i, all[0].0 as int));
    }
    if exists|i: int, f: int| 0 <= f < 0x10_0000 && #[trigger] is_ram(regions, i, f) {
        let (i, f) = choose|i: int, f: int| 0 <= f < 0x10_0000 && #[trigger] is_ram(regions, i, f);
        let j = lemma_region_is_a_range(regions, n, i);
    }
    if memory::plan_error(regions, desc_size) == Some(MemError::Overlap) {
        let (a, b) = choose|a: int, b: int|
            0 <= a < b < all.len() && !((#[trigger] all[a]).1 <= (#[trigger] all[b]).0 || all[b].1
                <= all[a].0);
        let (i, j) = lemma_two_ranges(regions, n, a, b);
        assert(all[a].0 < all[a].1 && all[b].0 < all[b].1);
        let f = if all[a].0 < all[b].0 {
            all[b].0 as int
        } else {
            all[a].0 as int
        };
        assert(is_ram(regions, i, f));
        assert(is_ram(regions, j, f));
    }
}

/// Two ranges are parts of two regions.
proof fn lemma_two_ranges(regions: Seq<MemRegion>, n: int, a: int, b: int) -> (r: (int, int))
    requires
        0 <= n <= regions.len(),
        0 <= a < b < memory::ranges_of(regions, n).len(),
    ensures
        r.0 != r.1,
        forall|f: int|
            memory::ranges_of(regions, n)[a].0 <= f < memory::ranges_of(regions, n)[a].1
                ==> #[trigger] is_ram(regions, r.0, f) && 0 <= f < 0x10_0000,
        forall|f: int|
            memory::ranges_of(regions, n)[b].0 <= f < memory::ranges_of(regions, n)[b].1
                ==> #[trigger] is_ram(regions, r.1, f) && 0 <= f < 0x10_0000,
    decreases n,
{
    let before = memory::ranges_of(regions, n - 1);
    if b < before.len() {
        lemma_two_ranges(regions, n - 1, a, b)
    } else {
        let i = lemma_range_is_a_region(regions, n - 1, a);
        let j = lemma_range_is_a_region(regions, n, b);
        assert(before.len() == b);
        (i, n - 1)
    }
}

/// The descriptors fill as many frames as they need and no more, at the start of the first range
/// that has room for them, and no frame that holds one is handed out; every other frame of free RAM
/// that is mapped is.
pub proof fn law_descriptors_are_kept_apart(
    plan: &InitPlan,
    regions: Seq<MemRegion>,
    desc_size: u64,
    f: int,
)
    requires
        plan.wf(),
        desc_size > 0,
        memory::same_ranges(plan.ranges@, memory::ranges_of(regions, regions.len() as int)),
        plan.desc_frames == memory::desc_frames_for(plan.span as int, desc_size as int),
        memory::first_room(plan.ranges@, plan.desc_frames as int, 0) is Some,
        plan.desc_start == plan.ranges@[memory::first_room(
            plan.ranges@,
            plan.desc_frames as int,
            0,
        )->0].0,
    ensures
        plan.desc_frames * 4096 >= plan.span * desc_size,
        plan.desc_frames * 4096 < plan.span * desc_size + 4096,
        plan.desc_start <= f < plan.desc_start + plan.desc_frames ==> exists|i: int|
            is_ram(regions, i, f),
        forall|k: int|
            0 <= k < plan.ranges@.len() && (#[trigger] plan.ranges@[k]).1 - plan.ranges@[k].0
                >= plan.desc_frames ==> plan.desc_start <= plan.ranges@[k].0,
        plan.usable(f) == (0 <= f < 0x10_0000 && (exists|i: int| is_ram(regions, i, f)) && !(
        plan.desc_start <= f < plan.desc_start + plan.desc_frames)),
        plan.usable(f) ==> plan.base_pfn <= f < plan.base_pfn + plan.span,
{
    let r = plan.ranges@;
    let frames = plan.desc_frames as int;
    let h = memory::first_room(r, frames, 0)->0;
    lemma_first_room(r, frames, 0);
    law_plan_takes_free_ram_alone(regions, r, f);
    if plan.desc_start <= f < plan.desc_start + plan.desc_frames {
        assert(in_range(r, h, f));
    }
    assert forall|k: int|
        0 <= k < r.len() && (#[trigger] r[k]).1 - r[k].0 >= frames implies plan.desc_start
        <= r[k].0 by {
        assert(h <= k);
        if h < k {
            assert(r[h].0 <= r[k].0);
        }
    }
    if exists|k: int| in_range(r, k, f) {
        let k = choose|k: int| in_range(r, k, f);
        assert(r[k].0 <= f < r[k].1);
        memory::lemma_range_bounds(r, k);
    }
    if plan.usable(f) {
        let k = choose|k: int| 0 <= k < r.len() && (#[trigger] r[k]).0 <= f < r[k].1;
        assert(in_range(r, k, f));
    }
}

proof fn lemma_first_room(r: Seq<(Pfn, Pfn)>, frames: int, i: int)
    requires
        0 <= i,
    ensures
        match memory::first_room(r, frames, i) {
            Some(h) => {
                &&& i <= h < r.len()
                &&& r[h].1 - r[h].0 >= frames
                &&& forall|k: int| i <= k < h ==> (#[trigger] r[k]).1 - r[k].0 < frames
            },
            None => forall|k: int| i <= k < r.len() ==> (#[trigger] r[k]).1 - r[k].0 < frames,
        },
    decreases r.len() - i,
{
    if i < r.len() && r[i].1 - r[i].0 < frames {
        lemma_first_room(r, frames, i + 1);
    }
}

/// The pages of a plan are those of its ranges together.
pub proof fn law_pages_add_up(ranges: Seq<(Pfn, Pfn)>, n: int)
    requires
        0 <= n < ranges.len(),
    ensures
        memory::frames_in(ranges, 0) == 0,
        memory::frames_in(ranges, n + 1) == memory::frames_in(ranges, n) + (ranges[n].1
            - ranges[n].0),
{
}

/// The block that is handed out next is where its frames are: every frame of it is free.
pub proof fn law_next_block_is_free(v: FramesView, order: int, f: int)
    requires
        v.buddy.wf(),
        0 <= order,
        v.buddy.first_fit(order) < ORDERS,
        v.next_block(order) <= f * 4096 < v.next_block(order) + blocks::span(order) * 4096,
    ensures
        v.next_block(order) % 4096 == 0,
        v.free(f),
{
    laws::law_smallest_fit_is_found(v.buddy, order);
    let found = v.buddy.first_fit(order);
    let base = v.buddy.lists[found][0];
    assert(v.buddy.lists[found].contains(base));
    assert(v.buddy.is_free(base, found));
    if order < found {
        vstd::arithmetic::power2::lemma_pow2_strictly_increases(order as nat, found as nat);
    }
    assert(v.next_block(order) == (v.base_pfn + base) * 4096);
    assert(base <= f - v.base_pfn < base + blocks::span(found));
}

/// A block is named by the address of its first frame.
pub proof fn law_blocks_are_named_by_address(v: FramesView, pa: u64)
    requires
        v.holds(pa),
        v.buddy.wf(),
        v.base_pfn >= 0,
    ensures
        (v.base_pfn + v.index(pa)) * 4096 == pa,
        v.live(pa as int / 4096),
{
    let b = v.index(pa);
    let o = v.buddy.live[b] as int;
    assert(v.buddy.is_live(b, o));
    blocks::lemma_span_fits(o);
}


/// A region counts exactly if it has mapped frames of free RAM.
pub proof fn law_regions_with_free_ram_count(regions: Seq<MemRegion>, n: int)
    requires
        0 <= n < regions.len(),
    ensures
        memory::ranges_of(regions, 0).len() == 0,
        memory::ranges_of(regions, n + 1).len() == memory::ranges_of(regions, n).len() + (if exists|
            f: int,
        |
            0 <= f < 0x10_0000 && #[trigger] is_ram(regions, n, f) {
            1int
        } else {
            0
        }),
{
    if memory::range_of(regions[n]) is Some {
        assert(is_ram(regions, n, regions[n].base as int / 4096));
    }
}

/// Memory is refused for want of room exactly if it is otherwise in order and no region of free RAM
/// has room for a descriptor of every frame from the first to the last.
pub proof fn law_descriptors_need_one_region(regions: Seq<MemRegion>, desc_size: u64)
    requires
        memory::ranges_of(regions, regions.len() as int).len() > 0,
    ensures
        ({
            let all = memory::ranges_of(regions, regions.len() as int);
            let lo = memory::first_frame(all);
            let hi = memory::last_frame(all);
            &&& forall|i: int|
                0 <= i < all.len() ==> lo <= (#[trigger] all[i]).0 && all[i].1 <= hi
            &&& exists|i: int| 0 <= i < all.len() && (#[trigger] all[i]).0 == lo
            &&& exists|i: int| 0 <= i < all.len() && (#[trigger] all[i]).1 == hi
            &&& memory::plan_error(regions, desc_size) == Some(MemError::NoRoomForDescriptors)
                ==> forall|i: int|
                0 <= i < all.len() ==> ((#[trigger] all[i]).1 - all[i].0) * 4096 < (hi - lo)
                    * desc_size
            &&& memory::plan_error(regions, desc_size) is None ==> exists|i: int|
                0 <= i < all.len() && ((#[trigger] all[i]).1 - all[i].0) * 4096 >= (hi - lo)
                    * desc_size
        }),
{
    let all = memory::ranges_of(regions, regions.len() as int);
    memory::lemma_bounds(all);
    let bytes = (memory::last_frame(all) - memory::first_frame(all)) * desc_size;
    let need = memory::desc_frames_for(
        memory::last_frame(all) - memory::first_frame(all),
        desc_size as int,
    );
    assert(need == (bytes + 4095) / 4096);
    assert forall|i: int| 0 <= i < all.len() implies (((#[trigger] all[i]).1 - all[i].0) < need) == ((
    all[i].1 - all[i].0) * 4096 < bytes) by {}
    if memory::plan_error(regions, desc_size) is None {
        let i = choose|i: int| 0 <= i < all.len() && (#[trigger] all[i]).1 - all[i].0 >= need;
        assert((all[i].1 - all[i].0) * 4096 >= bytes);
    }
}

/// The ranges of a plan are released one after the other, from the lowest on: each in full but for the
/// frames of the descriptors, which are the first of their range.
pub proof fn law_ranges_are_released_in_order(plan: &InitPlan, n: int)
    requires
        plan.wf(),
        0 <= n < plan.ranges@.len(),
    ensures
        ({
            let from = plan.ranges@[n].0;
            let to = plan.ranges@[n].1;
            let start = if from == plan.desc_start {
                from + plan.desc_frames
            } else {
                from as int
            };
            &&& plan.released(n + 1) == plan.released(n).carved(
                start - plan.base_pfn,
                to - plan.base_pfn,
            )
            &&& n > 0 ==> plan.ranges@[n - 1].1 <= from
            &&& forall|b: u32, o: int| !#[trigger] plan.released(0).is_free(b, o)
        }),
{
    if n > 0 {
        memory::lemma_range_order(plan.ranges@, n - 1, n);
    }
}

} // verus!
