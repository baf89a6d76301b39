//! What holds of the buddy allocator whatever is allocated and freed.

use crate::mem::blocks;
use crate::mem::blocks::{BuddyView, ORDERS};
use vstd::prelude::*;

verus! {

/// Blocks that are handed out at the same time share no frame, and none with a free block.
pub proof fn law_blocks_are_apart(v: BuddyView, b1: u32, b2: u32, b: u32, o: int)
    requires
        v.wf(),
        v.live.contains_key(b1),
        v.live.contains_key(b2),
        b1 != b2,
        v.is_free(b, o),
    ensures
        blocks::apart(b1 as int, v.live[b1] as int, b2 as int, v.live[b2] as int),
        blocks::apart(b as int, o, b1 as int, v.live[b1] as int),
{
    assert(v.is_live(b1, v.live[b1] as int));
    assert(v.is_live(b2, v.live[b2] as int));
}

/// A block is aligned to its size and lies inside the spanned frames.
pub proof fn law_blocks_are_aligned(v: BuddyView, b: u32)
    requires
        v.wf(),
        v.live.contains_key(b),
    ensures
        b as int % blocks::span(v.live[b] as int) == 0,
        b + blocks::span(v.live[b] as int) <= v.nframes,
{
    assert(v.is_live(b, v.live[b] as int));
}

/// Handing out a block leaves no two free blocks that could be joined.
pub proof fn law_allocation_keeps_coalesced(v: BuddyView, order: int)
    requires
        v.wf(),
        v.coalesced(),
        0 <= order,
        v.first_fit(order) < ORDERS,
    ensures
        v.allocated(order).coalesced(),
{
    let found = v.first_fit(order);
    lemma_first_fit_bounds(v, order);
    lemma_halving_keeps_coalesced(v, found, order);
    assert(v.allocated(order) =~= v.halving(found, order));
}

proof fn lemma_first_fit_bounds(v: BuddyView, order: int)
    requires
        0 <= order,
        v.first_fit(order) < ORDERS,
    ensures
        order <= v.first_fit(order),
        v.lists[v.first_fit(order)].len() > 0,
    decreases ORDERS - order,
{
    if order < ORDERS && v.lists[order].len() == 0 {
        lemma_first_fit_bounds(v, order + 1);
    }
}

proof fn lemma_halving_keeps_coalesced(v: BuddyView, found: int, o: int)
    requires
        v.wf(),
        v.coalesced(),
        0 <= o <= found < ORDERS,
        v.lists[found].len() > 0,
    ensures
        v.halving(found, o).wf(),
        v.halving(found, o).is_live(v.lists[found][0], o),
        v.halving(found, o).coalesced(),
    decreases found - o,
{
    let base = v.lists[found][0];
    if o == found {
        v.lemma_halving_starts(found);
        v.lemma_taken(base, found);
        let w = v.taken(base, found);
        assert forall|b: u32, k: int|
            #![trigger w.is_free(b, k)]
            w.is_free(b, k) && k < ORDERS - 1 implies !w.is_free(blocks::buddy_of(b, k), k) by {
            assert(v.is_free(b, k));
        }
    } else {
        lemma_halving_keeps_coalesced(v, found, o + 1);
        v.lemma_halving_goes_on(found, o + 1);
        let u = v.halving(found, o + 1);
        u.lemma_halved(base);
        let w = u.halved(base);
        let upper = (base + blocks::span(o)) as u32;
        assert(blocks::placed(base as int, o + 1, u.nframes));
        blocks::lemma_span(o);
        blocks::lemma_halves(base as int, o);
        blocks::lemma_buddy(base, o);
        assert(!u.is_free(base, o)) by {
            if u.is_free(base, o) {
                assert(u.is_live(base, o + 1));
                blocks::lemma_span(o + 1);
                assert(blocks::apart(base as int, o, base as int, o + 1));
            }
        }
        assert forall|b: u32, k: int|
            #![trigger w.is_free(b, k)]
            w.is_free(b, k) && k < ORDERS - 1 implies !w.is_free(blocks::buddy_of(b, k), k) by {
            let c = blocks::buddy_of(b, k);
            assert(blocks::placed(b as int, k, w.nframes));
            blocks::lemma_buddy(b, k);
            if w.is_free(c, k) {
                if k == o && b == upper {
                    assert(c == base);
                } else if k == o && c == upper {
                    assert(blocks::buddy_of(c, k) == b);
                } else {
                    assert(u.is_free(b, k));
                    assert(u.is_free(c, k));
                }
            }
        }
    }
}

/// Freeing a block leaves no two free blocks that could be joined.
pub proof fn law_freeing_keeps_coalesced(v: BuddyView, base: u32)
    requires
        v.wf(),
        v.coalesced(),
        v.live.contains_key(base),
    ensures
        v.freed(base).coalesced(),
    decreases ORDERS - v.live[base],
{
    let o = v.live[base] as int;
    assert(v.is_live(base, o));
    assert(blocks::placed(base as int, o, v.nframes));
    blocks::lemma_span(o);
    blocks::lemma_buddy(base, o);
    let c = blocks::buddy_of(base, o);
    if o < ORDERS - 1 && v.is_free(c, o) {
        v.lemma_joined(base);
        let w = v.joined(base);
        assert forall|b: u32, k: int|
            #![trigger w.is_free(b, k)]
            w.is_free(b, k) && k < ORDERS - 1 implies !w.is_free(blocks::buddy_of(b, k), k) by {
            assert(v.is_free(b, k));
        }
        let low = if c < base {
            c
        } else {
            base
        };
        law_freeing_keeps_coalesced(w, low);
    } else {
        v.lemma_given(base);
        let w = v.given(base);
        assert forall|b: u32, k: int|
            #![trigger w.is_free(b, k)]
            w.is_free(b, k) && k < ORDERS - 1 implies !w.is_free(blocks::buddy_of(b, k), k) by {
            let d = blocks::buddy_of(b, k);
            assert(blocks::placed(b as int, k, w.nframes));
            blocks::lemma_buddy(b, k);
            if w.is_free(d, k) {
                if k == o && b == base {
                    assert(d == c);
                } else if k == o && d == base {
                    assert(blocks::buddy_of(d, k) == b);
                } else {
                    assert(v.is_free(b, k));
                    assert(v.is_free(d, k));
                }
            }
        }
    }
}

/// Where no two free blocks could be joined, an aligned run of free frames is allocatable as one
/// block: memory does not stay in pieces once its neighbours are free.
pub proof fn law_free_run_can_be_allocated(v: BuddyView, b: int, o: int)
    requires
        v.wf(),
        v.coalesced(),
        blocks::placed(b, o, v.nframes),
        forall|f: int| b <= f < b + blocks::span(o) ==> #[trigger] v.frame_free(f),
    ensures
        v.first_fit(o) < ORDERS,
{
    let (x, k) = lemma_run_is_in_a_block(v, b, o);
    assert(v.lists[k].contains(x));
    lemma_fit_is_found(v, o, k);
}

pub(crate) proof fn lemma_fit_is_found(v: BuddyView, o: int, k: int)
    requires
        0 <= o <= k < ORDERS,
        v.lists[k].len() > 0,
    ensures
        v.first_fit(o) <= k,
    decreases k - o,
{
    if o < k && v.lists[o].len() == 0 {
        lemma_fit_is_found(v, o + 1, k);
    }
}

proof fn lemma_run_is_in_a_block(v: BuddyView, b: int, o: int) -> (r: (u32, int))
    requires
        v.wf(),
        v.coalesced(),
        blocks::placed(b, o, v.nframes),
        forall|f: int| b <= f < b + blocks::span(o) ==> #[trigger] v.frame_free(f),
    ensures
        v.is_free(r.0, r.1),
        o <= r.1,
        r.0 <= b,
        b + blocks::span(o) <= r.0 + blocks::span(r.1),
    decreases o,
{
    blocks::lemma_span(o);
    if o == 0 {
        vstd::arithmetic::power2::lemma2_to64();
        assert(v.frame_free(b));
        let (x, k) = choose|x: u32, k: int| #[trigger]
            v.is_free(x, k) && x <= b < x + blocks::span(k);
        (x, k)
    } else {
        let s = blocks::span(o - 1);
        blocks::lemma_span(o - 1);
        blocks::lemma_halves(b, o - 1);
        let (x1, k1) = lemma_run_is_in_a_block(v, b, o - 1);
        let (x2, k2) = lemma_run_is_in_a_block(v, b + s, o - 1);
        assert(blocks::placed(x1 as int, k1, v.nframes));
        assert(blocks::placed(x2 as int, k2, v.nframes));
        blocks::lemma_span(k1);
        blocks::lemma_span(k2);
        if k1 >= o {
            blocks::lemma_blocks_nest(b, o, x1 as int, k1);
            (x1, k1)
        } else if k2 >= o {
            blocks::lemma_blocks_nest(b, o, x2 as int, k2);
            (x2, k2)
        } else {
            blocks::lemma_buddy(x1, o - 1);
            assert(v.is_free(x1, o - 1));
            assert(blocks::buddy_of(x1, o - 1) == x2);
            (x1, k1)
        }
    }
}

/// A run of frames released into an allocator without free blocks leaves no two free blocks that
/// could be joined.
pub proof fn law_one_run_is_coalesced(v: BuddyView, start: int, end: int)
    requires
        v.wf(),
        forall|b: u32, o: int| !#[trigger] v.is_free(b, o),
        0 <= start <= end <= v.nframes,
        forall|f: int| start <= f < end ==> !#[trigger] v.frame_managed(f),
    ensures
        v.carved(start, end).coalesced(),
{
    law_separate_run_keeps_coalesced(v, start, end);
}

/// A run of frames that no free block touches, once it is released, leaves no two free blocks that
/// could be joined.
pub proof fn law_separate_run_keeps_coalesced(v: BuddyView, start: int, end: int)
    requires
        v.wf(),
        v.coalesced(),
        forall|b: u32, o: int| #[trigger]
            v.is_free(b, o) ==> b + blocks::span(o) < start || end < b,
        0 <= start <= end <= v.nframes,
        forall|f: int| start <= f < end ==> !#[trigger] v.frame_managed(f),
    ensures
        v.carved(start, end).coalesced(),
{
    lemma_carved(v, start, end);
    let w = v.carved(start, end);
    assert forall|b: u32, o: int|
        #![trigger w.is_free(b, o)]
        w.is_free(b, o) && o < ORDERS - 1 implies !w.is_free(blocks::buddy_of(b, o), o) by {
        let c = blocks::buddy_of(b, o);
        assert(blocks::placed(b as int, o, w.nframes));
        blocks::lemma_buddy(b, o);
        blocks::lemma_span(o);
        if w.is_free(c, o) {
            assert(v.is_free(b, o) || (start <= b && maximal(b, o, end)));
            assert(v.is_free(c, o) || (start <= c && maximal(c, o, end)));
        }
    }
}

/// A run of frames that is released has a block for a request of as many frames as an aligned run
/// in it has.
pub proof fn law_released_run_can_be_allocated(v: BuddyView, start: int, end: int, b: int, o: int)
    requires
        v.wf(),
        0 <= start <= b,
        0 <= o < ORDERS,
        b % blocks::span(o) == 0,
        b + blocks::span(o) <= end,
    ensures
        v.carved(start, end).first_fit(o) < ORDERS,
{
    let k = lemma_carved_fits(v, start, end, b, o);
    lemma_fit_is_found(v.carved(start, end), o, k);
}

/// Releasing frames takes no block out of a list.
pub(crate) proof fn lemma_carving_keeps_lists(v: BuddyView, base: int, end: int, k: int)
    requires
        v.lists.len() == ORDERS,
        0 <= k < ORDERS,
        0 <= base,
    ensures
        v.carved(base, end).lists.len() == ORDERS,
        v.carved(base, end).lists[k].len() >= v.lists[k].len(),
    decreases
        if base < end {
            end - base
        } else {
            0
        },
{
    if base < end {
        let o = blocks::largest_order(base, end, ORDERS - 1);
        lemma_largest_order_fits(base, end, ORDERS - 1);
        blocks::lemma_span(o);
        lemma_carving_keeps_lists(
            v.with_block(base as u32, o),
            base + blocks::span(o),
            end,
            k,
        );
    }
}

/// A run that is released has a block for each aligned run in it.
pub(crate) proof fn lemma_carved_fits(v: BuddyView, base: int, end: int, b: int, o: int) -> (k: int)
    requires
        v.lists.len() == ORDERS,
        0 <= base <= b,
        0 <= o < ORDERS,
        b % blocks::span(o) == 0,
        b + blocks::span(o) <= end,
    ensures
        o <= k < ORDERS,
        v.carved(base, end).lists[k].len() > 0,
    decreases end - base,
{
    blocks::lemma_span(o);
    let k = blocks::largest_order(base, end, ORDERS - 1);
    lemma_largest_order_fits(base, end, ORDERS - 1);
    blocks::lemma_span(k);
    let w = v.with_block(base as u32, k);
    if k >= o {
        lemma_carving_keeps_lists(w, base + blocks::span(k), end, k);
        k
    } else {
        if base == b {
            lemma_largest_order_is_largest(base, end, ORDERS - 1, o);
        }
        blocks::lemma_blocks_nest(base, k, b, o);
        lemma_carved_fits(w, base + blocks::span(k), end, b, o)
    }
}

proof fn lemma_largest_order_is_largest(base: int, end: int, n: int, o: int)
    requires
        0 <= o <= n,
        base % blocks::span(o) == 0,
        base + blocks::span(o) <= end,
    ensures
        o <= blocks::largest_order(base, end, n),
    decreases n,
{
    if !(base % blocks::span(n) == 0 && base + blocks::span(n) <= end) {
        lemma_largest_order_is_largest(base, end, n - 1, o);
    }
}

/// A block that ends by `end` and is no lower half of a block that does.
pub(crate) open spec fn maximal(b: u32, o: int, end: int) -> bool {
    &&& b + blocks::span(o) <= end
    &&& o < ORDERS - 1 ==> b as int % blocks::span(o + 1) != 0 || b + blocks::span(o + 1) > end
}

proof fn lemma_largest_order_fits(base: int, end: int, n: int)
    requires
        0 <= n,
        0 <= base < end,
    ensures
        0 <= blocks::largest_order(base, end, n) <= n,
        base % blocks::span(blocks::largest_order(base, end, n)) == 0,
        base + blocks::span(blocks::largest_order(base, end, n)) <= end,
        blocks::largest_order(base, end, n) < n ==> !(base % blocks::span(
            blocks::largest_order(base, end, n) + 1,
        ) == 0 && base + blocks::span(blocks::largest_order(base, end, n) + 1) <= end),
    decreases n,
{
    vstd::arithmetic::power2::lemma2_to64();
    if !(base % blocks::span(n) == 0 && base + blocks::span(n) <= end) {
        if n > 0 {
            lemma_largest_order_fits(base, end, n - 1);
        }
    }
}

/// Which blocks are free once a run is released.
pub(crate) proof fn lemma_carved(v: BuddyView, base: int, end: int)
    requires
        v.wf(),
        0 <= base <= end <= v.nframes,
        forall|f: int| base <= f < end ==> !#[trigger] v.frame_managed(f),
    ensures
        v.carved(base, end).wf(),
        v.carved(base, end).nframes == v.nframes,
        v.carved(base, end).live == v.live,
        forall|b: u32, o: int| #[trigger]
            v.carved(base, end).is_free(b, o) ==> v.is_free(b, o) || (base <= b && maximal(
                b,
                o,
                end,
            )),
    decreases end - base,
{
    if base < end {
        let o = blocks::largest_order(base, end, ORDERS - 1);
        lemma_largest_order_fits(base, end, ORDERS - 1);
        blocks::lemma_span(o);
        v.lemma_with_block(base as u32, o);
        let w = v.with_block(base as u32, o);
        assert forall|f: int| base + blocks::span(o) <= f < end implies !#[trigger] w.frame_managed(
            f,
        ) by {
            assert(!v.frame_managed(f));
            assert(w.frame_free(f) == v.frame_free(f));
            assert(w.frame_live(f) == v.frame_live(f));
        }
        lemma_carved(w, base + blocks::span(o), end);
    }
}

/// Freeing a block takes that block from those handed out, and no other; the allocator keeps the
/// frames that it has.
pub proof fn law_freeing_keeps_the_other_blocks(v: BuddyView, base: u32)
    requires
        v.wf(),
        v.live.contains_key(base),
    ensures
        v.freed(base).wf(),
        v.freed(base).live == v.live.remove(base),
        forall|f: int| #[trigger] v.freed(base).frame_managed(f) == v.frame_managed(f),
    decreases ORDERS - v.live[base],
{
    let o = v.live[base] as int;
    assert(v.is_live(base, o));
    let c = blocks::buddy_of(base, o);
    if o < ORDERS - 1 && v.is_free(c, o) {
        v.lemma_joined(base);
        let w = v.joined(base);
        let low = if c < base {
            c
        } else {
            base
        };
        assert(w.is_live(low, o + 1));
        law_freeing_keeps_the_other_blocks(w, low);
        assert(!v.live.contains_key(c) || c == base) by {
            if v.live.contains_key(c) {
                assert(v.is_live(c, v.live[c] as int));
                blocks::lemma_span(o);
                blocks::lemma_span(v.live[c] as int);
            }
        }
        assert(v.freed(base).live =~= v.live.remove(base));
        assert forall|f: int| #[trigger] v.freed(base).frame_managed(f) == v.frame_managed(f) by {
            assert(w.freed(low).frame_managed(f) == w.frame_managed(f));
        }
    } else {
        v.lemma_given(base);
    }
}

proof fn lemma_halving_keeps_frames(v: BuddyView, found: int, o: int)
    requires
        v.wf(),
        0 <= o <= found < ORDERS,
        v.lists[found].len() > 0,
    ensures
        v.halving(found, o).wf(),
        v.halving(found, o).is_live(v.lists[found][0], o),
        !v.live.contains_key(v.lists[found][0]),
        forall|f: int| #[trigger] v.halving(found, o).frame_managed(f) == v.frame_managed(f),
    decreases found - o,
{
    let base = v.lists[found][0];
    if o == found {
        v.lemma_halving_starts(found);
        v.lemma_taken(base, found);
        if v.live.contains_key(base) {
            assert(v.is_live(base, v.live[base] as int));
            blocks::lemma_span(found);
            blocks::lemma_span(v.live[base] as int);
        }
        let w = v.taken(base, found);
        assert forall|f: int| #[trigger] w.frame_managed(f) == v.frame_managed(f) by {
            assert(v.frame_free(f) == (w.frame_free(f) || base <= f < base + blocks::span(found)));
        }
    } else {
        lemma_halving_keeps_frames(v, found, o + 1);
        v.lemma_halving_goes_on(found, o + 1);
        let u = v.halving(found, o + 1);
        u.lemma_halved(base);
        assert forall|f: int| #[trigger] u.halved(base).frame_managed(f) == v.frame_managed(f) by {
            assert(u.frame_managed(f) == v.frame_managed(f));
        }
    }
}

/// As long as the allocator has the same frames and the same blocks are handed out, the same frames
/// are free.
pub(crate) proof fn lemma_same_free(v: BuddyView, w: BuddyView)
    requires
        v.wf(),
        w.wf(),
        w.live == v.live,
        forall|f: int| #[trigger] w.frame_managed(f) == v.frame_managed(f),
    ensures
        forall|f: int| #[trigger] w.frame_free(f) == v.frame_free(f),
{
    assert forall|f: int| #[trigger] w.frame_free(f) == v.frame_free(f) by {
        v.lemma_free_or_live(f);
        w.lemma_free_or_live(f);
        assert(w.frame_managed(f) == v.frame_managed(f));
        if v.frame_live(f) {
            let (b, o) = choose|b: u32, o: int| #[trigger]
                v.is_live(b, o) && b <= f < b + blocks::span(o);
            assert(w.is_live(b, o));
        }
        if w.frame_live(f) {
            let (b, o) = choose|b: u32, o: int| #[trigger]
                w.is_live(b, o) && b <= f < b + blocks::span(o);
            assert(v.is_live(b, o));
        }
    }
}

/// What handing out a block does to the others.
pub(crate) proof fn lemma_allocated(v: BuddyView, order: int)
    requires
        v.wf(),
        0 <= order,
        v.first_fit(order) < ORDERS,
    ensures
        v.allocated(order).wf(),
        !v.live.contains_key(v.lists[v.first_fit(order)][0]),
        v.allocated(order).is_live(v.lists[v.first_fit(order)][0], order),
        forall|f: int| #[trigger] v.allocated(order).frame_managed(f) == v.frame_managed(f),
{
    lemma_first_fit_bounds(v, order);
    lemma_halving_keeps_frames(v, v.first_fit(order), order);
    assert(v.allocated(order) =~= v.halving(v.first_fit(order), order));
}

/// Freeing a block that was just handed out undoes that: the same blocks are handed out, and the
/// same frames are free, as before.
pub proof fn law_freeing_undoes_allocation(v: BuddyView, order: int)
    requires
        v.wf(),
        0 <= order,
        v.first_fit(order) < ORDERS,
    ensures
        ({
            let base = v.lists[v.first_fit(order)][0];
            let after = v.allocated(order).freed(base);
            &&& after.live == v.live
            &&& forall|f: int| #[trigger] after.frame_free(f) == v.frame_free(f)
        }),
{
    let base = v.lists[v.first_fit(order)][0];
    lemma_allocated(v, order);
    let w = v.allocated(order);
    law_freeing_keeps_the_other_blocks(w, base);
    let after = w.freed(base);
    assert(after.live =~= v.live);
    assert forall|f: int| #[trigger] after.frame_managed(f) == v.frame_managed(f) by {
        assert(w.frame_managed(f) == v.frame_managed(f));
    }
    lemma_same_free(v, after);
}

/// A request is met from the smallest blocks that are large enough: between its order and the order
/// that is found, no block is free.
pub proof fn law_smallest_fit_is_found(v: BuddyView, order: int)
    requires
        0 <= order <= ORDERS,
    ensures
        order <= v.first_fit(order) <= ORDERS,
        v.first_fit(order) < ORDERS ==> v.lists[v.first_fit(order)].len() > 0,
        forall|k: int| order <= k < v.first_fit(order) ==> (#[trigger] v.lists[k]).len() == 0,
    decreases ORDERS - order,
{
    if order < ORDERS && v.lists[order].len() == 0 {
        law_smallest_fit_is_found(v, order + 1);
    }
}

/// What handing out a block does: the first block of the order that is found goes out with the order
/// that was asked for, and for each order in between the upper half that is left over comes first in
/// its list. No other block moves.
pub proof fn law_left_over_halves_stay_free(v: BuddyView, order: int, k: int)
    requires
        v.wf(),
        0 <= order <= k < ORDERS,
        v.first_fit(order) < ORDERS,
    ensures
        ({
            let after = v.allocated(order);
            let found = v.first_fit(order);
            let base = v.lists[found][0];
            &&& after.live.contains_key(base)
            &&& after.live[base] == order
            &&& forall|b: u32|
                b != base ==> (#[trigger] after.live.contains_key(b) == v.live.contains_key(b))
                    && after.live[b] == v.live[b]
            &&& after.nframes == v.nframes
            &&& k < found ==> {
                &&& after.lists[k].len() == 1
                &&& after.lists[k][0] == base + blocks::span(k)
            }
            &&& k == found ==> {
                &&& after.lists[k].len() == v.lists[k].len() - 1
                &&& forall|i: int|
                    0 <= i < v.lists[k].len() - 1 ==> #[trigger] after.lists[k][i] == v.lists[k][i
                        + 1]
            }
            &&& k > found ==> after.lists[k] == v.lists[k]
        }),
{
    law_smallest_fit_is_found(v, order);
    let found = v.first_fit(order);
    let base = v.lists[found][0];
    assert(v.lists[found].contains(base));
    assert(v.is_free(base, found));
    if k < found {
        blocks::lemma_span_fits(k);
        vstd::arithmetic::power2::lemma_pow2_strictly_increases(k as nat, found as nat);
    }
}

/// Buddies are the two halves of one block: next to each other, of one size, and the lower one where
/// the larger block can start. Each is the other's buddy.
pub proof fn law_buddies_are_halves(base: u32, o: int)
    requires
        0 <= o,
        base as int % blocks::span(o) == 0,
        base + blocks::span(o) <= u32::MAX,
        blocks::buddy_of(base, o) + blocks::span(o) <= u32::MAX,
    ensures
        ({
            let other = blocks::buddy_of(base, o);
            let low = if other < base {
                other
            } else {
                base
            };
            &&& other == base + blocks::span(o) || base == other + blocks::span(o)
            &&& low as int % blocks::span(o + 1) == 0
            &&& other as int % blocks::span(o) == 0
            &&& blocks::buddy_of(other, o) == base
        }),
{
    blocks::lemma_span(o);
    blocks::lemma_buddy(base, o);
    blocks::lemma_buddy(blocks::buddy_of(base, o), o);
}

/// A run is released in the largest blocks: no larger one can start where a block does and end
/// within the run.
pub proof fn law_largest_blocks_are_carved(base: int, end: int, o: int, k: int)
    requires
        o < ORDERS,
    ensures
        ({
            let best = blocks::largest_order(base, end, o);
            &&& -1 <= best || o < -1
            &&& best >= 0 ==> best <= o && base % blocks::span(best) == 0 && base + blocks::span(best)
                <= end
            &&& best < k <= o && k >= 0 ==> !(base % blocks::span(k) == 0 && base + blocks::span(k)
                <= end)
        }),
    decreases o + 1,
{
    if o >= 0 && !(base % blocks::span(o) == 0 && base + blocks::span(o) <= end) {
        law_largest_blocks_are_carved(base, end, o - 1, k);
    }
}

/// A block that cannot be joined is the first of its order to be handed out again; the blocks before
/// it wait behind it.
pub proof fn law_last_freed_is_first_reused(v: BuddyView, base: u32)
    requires
        v.wf(),
        v.live.contains_key(base),
        v.live[base] == ORDERS - 1 || !v.is_free(
            blocks::buddy_of(base, v.live[base] as int),
            v.live[base] as int,
        ),
    ensures
        ({
            let o = v.live[base] as int;
            let after = v.freed(base);
            &&& after.lists[o].len() == v.lists[o].len() + 1
            &&& after.lists[o][0] == base
            &&& forall|i: int|
                0 <= i < v.lists[o].len() ==> #[trigger] after.lists[o][i + 1] == v.lists[o][i]
            &&& !after.live.contains_key(base)
            &&& after.first_fit(o) == o
        }),
{
    let o = v.live[base] as int;
    assert(v.is_live(base, o));
}

} // verus!
