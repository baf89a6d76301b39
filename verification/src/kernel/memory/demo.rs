//! The allocators put to use at boot: two frames, a slab of objects, and an untyped run. What was
//! handed out for that is free again afterwards.

use vstd::prelude::*;

use crate::cap::zero::ZeroFrames;
use crate::kernel::memory::{zero_frame, FrameAllocator, FramesView};
use crate::mem::blocks::ORDERS;
use crate::mem::frame::{phys_to_pfn, Pfn};
use crate::mem::laws;
use crate::mem::retype::Untyped;
use crate::mem::slab;
use crate::mem::slab::SlabCache;

verus! {

/// The size of the objects in the slab.
pub const OBJECT_BYTES: usize = 64;

/// The order of the untyped run: 16 frames.
pub const RUN_ORDER: u8 = 4;

/// What came of two objects in a slab.
#[derive(Clone, Copy, PartialEq, Eq, Structural, Debug)]
pub struct SlabReport {
    /// How many objects the slab has room for.
    pub capacity: usize,
    /// Where the first object is.
    pub first: usize,
    /// Where the second object is.
    pub second: usize,
    /// How many more there is room for.
    pub left: usize,
}

/// What came of a retype in an untyped run.
#[derive(Clone, Copy, PartialEq, Eq, Structural, Debug)]
pub struct RunReport {
    /// The frames of the run.
    pub frames: Pfn,
    /// The first frame that was retyped.
    pub start: Pfn,
    /// The frames that are left.
    pub left: Pfn,
}

/// Everything that is free or handed out in `v` is so in `w`, and nothing else.
pub open spec fn same_blocks(v: FramesView, w: FramesView) -> bool {
    &&& w.base_pfn == v.base_pfn
    &&& w.buddy.live == v.buddy.live
    &&& forall|pfn: int| #[trigger] w.free(pfn) == v.free(pfn)
}

/// `v` after a block of order `order` is handed out.
pub open spec fn handed_out(v: FramesView, order: int) -> FramesView {
    FramesView { buddy: v.buddy.allocated(order), ..v }
}

/// `v` after the block at physical address `pa` is taken back.
pub open spec fn taken_back(v: FramesView, pa: u64) -> FramesView {
    FramesView { buddy: v.buddy.freed(v.index(pa)), ..v }
}

proof fn lemma_same_blocks(v: FramesView, w: FramesView)
    requires
        v.buddy.wf(),
        w.buddy.wf(),
        w.base_pfn == v.base_pfn,
        w.buddy.live == v.buddy.live,
        forall|f: int| #[trigger] w.buddy.frame_managed(f) == v.buddy.frame_managed(f),
    ensures
        same_blocks(v, w),
{
    laws::lemma_same_free(v.buddy, w.buddy);
    assert forall|pfn: int| #[trigger] w.free(pfn) == v.free(pfn) by {
        assert(w.buddy.frame_free(pfn - w.base_pfn) == v.buddy.frame_free(pfn - v.base_pfn));
    }
}

/// Hand out two cleared frames, and take them back. They are not the same. `None` if there were not
/// two; a single one stays handed out.
pub fn two_frames<Z: ZeroFrames>(fa: &mut FrameAllocator, zero: &mut Z) -> (r: Option<(u64, u64)>)
    requires
        old(fa).wf(),
    ensures
        final(fa).wf(),
        match r {
            Some((a, b)) => {
                &&& old(fa)@.buddy.first_fit(0) < ORDERS
                &&& handed_out(old(fa)@, 0).buddy.first_fit(0) < ORDERS
                &&& a == old(fa)@.next_block(0)
                &&& b == handed_out(old(fa)@, 0).next_block(0)
                &&& a != b
                &&& final(fa)@ == taken_back(
                    taken_back(handed_out(handed_out(old(fa)@, 0), 0), a),
                    b,
                )
                &&& same_blocks(old(fa)@, final(fa)@)
                &&& final(zero).zeroed() == old(zero).zeroed().push((a / 4096, 1u32)).push(
                    (b / 4096, 1u32),
                )
            },
            None => if old(fa)@.buddy.first_fit(0) == ORDERS {
                final(fa)@ == old(fa)@ && final(zero).zeroed() == old(zero).zeroed()
            } else {
                &&& handed_out(old(fa)@, 0).buddy.first_fit(0) == ORDERS
                &&& final(fa)@ == handed_out(old(fa)@, 0)
                &&& final(zero).zeroed() == old(zero).zeroed().push(
                    ((old(fa)@.next_block(0) / 4096) as u64, 1u32),
                )
            },
        },
{
    let ghost v0 = fa@;
    proof {
        fa.lemma_sound();
    }
    let a: u64 = match fa.allocate(0) {
        Some(a) => a,
        None => {
            return None;
        },
    };
    zero_frame(zero, a);
    let ghost v1 = fa@;
    proof {
        laws::lemma_allocated(v0.buddy, 0);
        assert(v1 == handed_out(v0, 0));
    }
    let b: u64 = match fa.allocate(0) {
        Some(b) => b,
        None => {
            return None;
        },
    };
    zero_frame(zero, b);
    let ghost v2 = fa@;
    proof {
        laws::lemma_allocated(v1.buddy, 0);
        assert(v1.buddy.live.contains_key(v1.index(a)));
        assert(v2.index(a) != v2.index(b));
        assert(v2.holds(a));
        laws::law_freeing_keeps_the_other_blocks(v2.buddy, v2.index(a));
    }
    fa.free(a);
    let ghost v3 = fa@;
    proof {
        assert(v3.holds(b));
        laws::law_freeing_keeps_the_other_blocks(v3.buddy, v3.index(b));
    }
    fa.free(b);
    proof {
        let v4 = fa@;
        assert(v4.buddy.live =~= v0.buddy.live);
        assert forall|f: int| #[trigger]
            v4.buddy.frame_managed(f) == v0.buddy.frame_managed(f) by {
            assert(v3.buddy.frame_managed(f) == v2.buddy.frame_managed(f));
            assert(v2.buddy.frame_managed(f) == v1.buddy.frame_managed(f));
            assert(v1.buddy.frame_managed(f) == v0.buddy.frame_managed(f));
        }
        lemma_same_blocks(v0, v4);
    }
    Some((a, b))
}

/// Put two objects in a slab over one page. They are not in the same place.
pub fn two_objects(page: &mut [u8]) -> (r: Option<SlabReport>)
    requires
        old(page)@.len() == 4096,
    ensures
        final(page)@.len() == 4096,
        r == Some((SlabReport { capacity: 64, first: 0, second: 64, left: 62 })),
{
    proof {
        reveal_with_fuel(vstd::arithmetic::power2::is_pow2, 4);
        assert(slab::larger(64, slab::link_size_spec()) == 64);
        assert(slab::larger(8, slab::link_size_spec()) == 8);
        assert(slab::rounded_up(64, 8) == 64);
    }
    let mut cache = SlabCache::new(OBJECT_BYTES, 8, 4096);
    assert(cache@.slot_size == 64 && cache@.capacity == 64);
    cache.init(page);
    let first = cache.allocate(page);
    let second = cache.allocate(page);
    match (first, second) {
        (Some(first), Some(second)) => {
            if first == second {
                return None;
            }
            Some(
                SlabReport { capacity: cache.capacity(), first, second, left: cache.free_count() },
            )
        },
        _ => None,
    }
}

/// Retype four frames of an untyped run of sixteen, and take the run back. `None` if there is no run
/// that long.
pub fn one_run(fa: &mut FrameAllocator) -> (r: Option<RunReport>)
    requires
        old(fa).wf(),
    ensures
        final(fa).wf(),
        same_blocks(old(fa)@, final(fa)@),
        final(fa)@ == (if old(fa)@.buddy.first_fit(4) < ORDERS {
            taken_back(handed_out(old(fa)@, 4), old(fa)@.next_block(4) as u64)
        } else {
            old(fa)@
        }),
        r == (if old(fa)@.buddy.first_fit(4) < ORDERS {
            Some(
                RunReport {
                    frames: 16,
                    start: (old(fa)@.next_block(4) / 4096) as u32,
                    left: 12,
                },
            )
        } else {
            None
        }),
{
    let ghost v0 = fa@;
    proof {
        fa.lemma_sound();
    }
    let run: u64 = match fa.allocate(RUN_ORDER) {
        Some(run) => run,
        None => {
            return None;
        },
    };
    let ghost v1 = fa@;
    proof {
        fa.lemma_sound();
        laws::lemma_allocated(v0.buddy, 4);
        laws::law_freeing_keeps_the_other_blocks(v1.buddy, v1.index(run));
        laws::law_blocks_are_aligned(v1.buddy, v1.index(run));
        vstd::arithmetic::power2::lemma2_to64();
    }
    let mut untyped = Untyped::new(phys_to_pfn(run), 16);
    let start: Option<Pfn> = untyped.retype(1, 4);
    let frames: Pfn = untyped.frames();
    let left: Pfn = untyped.remaining();
    fa.free(run);
    proof {
        let v2 = fa@;
        assert(v2.buddy.live =~= v0.buddy.live);
        assert forall|f: int| #[trigger]
            v2.buddy.frame_managed(f) == v0.buddy.frame_managed(f) by {
            assert(v1.buddy.frame_managed(f) == v0.buddy.frame_managed(f));
        }
        lemma_same_blocks(v0, v2);
    }
    match start {
        Some(start) => Some(RunReport { frames, start, left }),
        None => None,
    }
}

} // verus!
