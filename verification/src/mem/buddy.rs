//! A binary buddy allocator over a frame-descriptor array that the caller provides.
//!
//! Frames are numbered from 0. The descriptors hold the links of the free lists, one list per
//! block order. All frames start out reserved; [`Buddy::add_frames`] releases runs of usable
//! frames as aligned power-of-two blocks, and a freed block joins its buddy where it can.

use crate::mem::blocks;
use crate::mem::blocks::{BuddyView, ORDERS};
use crate::mem::frame::{Pfn, NIL};
use vstd::prelude::*;

verus! {

/// The largest block order: `2^MAX_ORDER` frames.
pub const MAX_ORDER: u8 = 18;

/// The descriptor of one frame. For the first frame of a free block it holds the block's order
/// and its links in the free list; for that of a block handed out, the order.
#[derive(Clone, Copy, Debug, PartialEq, Eq, Structural)]
pub struct FrameDesc {
    next: Pfn,
    prev: Pfn,
    order: u8,
    free: bool,
}

impl FrameDesc {
    /// The descriptor of a reserved frame.
    pub closed spec fn reserved_spec() -> FrameDesc {
        FrameDesc { next: NIL, prev: NIL, order: 0, free: false }
    }

    /// The descriptor of a reserved frame.
    pub fn reserved() -> (d: FrameDesc)
        ensures
            d == FrameDesc::reserved_spec(),
    {
        FrameDesc { next: NIL, prev: NIL, order: 0, free: false }
    }
}

impl Default for FrameDesc {
    fn default() -> (d: FrameDesc)
        ensures
            d == FrameDesc::reserved_spec(),
    {
        FrameDesc::reserved()
    }
}

/// The `i`th entry of a list, or "no frame".
spec fn nth(s: Seq<u32>, i: int) -> u32 {
    if 0 <= i < s.len() {
        s[i]
    } else {
        NIL
    }
}

/// Entry `i` of the list of order `o` has its links, order and mark in its descriptor.
spec fn entry_ok(desc: Seq<FrameDesc>, lists: Seq<Seq<u32>>, o: int, i: int) -> bool {
    &&& lists[o][i] < desc.len()
    &&& desc[lists[o][i] as int] == (FrameDesc {
        next: nth(lists[o], i + 1),
        prev: nth(lists[o], i - 1),
        order: o as u8,
        free: true,
    })
}

/// A descriptor that is marked free belongs to an entry of the list of its order.
spec fn mark_ok(desc: Seq<FrameDesc>, lists: Seq<Seq<u32>>, f: int) -> bool {
    desc[f].free ==> desc[f].order < ORDERS && lists[desc[f].order as int].contains(f as u32)
}

/// The descriptors and list heads hold exactly these lists.
spec fn linked(desc: Seq<FrameDesc>, heads: Seq<u32>, lists: Seq<Seq<u32>>) -> bool {
    &&& lists.len() == ORDERS
    &&& heads.len() == ORDERS
    &&& desc.len() <= u32::MAX
    &&& forall|o: int| 0 <= o < ORDERS ==> #[trigger] heads[o] == nth(lists[o], 0)
    &&& forall|o: int| 0 <= o < ORDERS ==> (#[trigger] lists[o]).no_duplicates()
    &&& forall|o: int, i: int|
        0 <= o < ORDERS && 0 <= i < lists[o].len() ==> #[trigger] entry_ok(desc, lists, o, i)
    &&& forall|f: int| 0 <= f < desc.len() ==> #[trigger] mark_ok(desc, lists, f)
}

/// A block that is in the list of an order has that order and the mark.
proof fn lemma_listed(desc: Seq<FrameDesc>, heads: Seq<u32>, lists: Seq<Seq<u32>>, o: int, b: u32)
    requires
        linked(desc, heads, lists),
        0 <= o < ORDERS,
        lists[o].contains(b),
    ensures
        b < desc.len(),
        desc[b as int].free,
        desc[b as int].order == o,
{
    let i = choose|i: int| 0 <= i < lists[o].len() && lists[o][i] == b;
    assert(entry_ok(desc, lists, o, i));
}

/// Only the first frame of a free block is marked.
proof fn lemma_unmarked(desc: Seq<FrameDesc>, heads: Seq<u32>, v: BuddyView, b: u32)
    requires
        v.wf(),
        linked(desc, heads, v.lists),
        b < desc.len(),
        v.live.contains_key(b) || !v.frame_free(b as int),
    ensures
        !desc[b as int].free,
{
    assert(mark_ok(desc, v.lists, b as int));
    if desc[b as int].free {
        let o = desc[b as int].order as int;
        assert(v.is_free(b, o));
        blocks::lemma_span(o);
        assert(v.frame_free(b as int));
        if v.live.contains_key(b) {
            let k = v.live[b] as int;
            assert(v.is_live(b, k));
            blocks::lemma_span(k);
            v.lemma_free_or_live(b as int);
            assert(v.frame_live(b as int));
        }
    }
}

/// What an unmarked descriptor holds besides the mark is no part of the links.
proof fn lemma_order_is_no_link(
    d0: Seq<FrameDesc>,
    d1: Seq<FrameDesc>,
    heads: Seq<u32>,
    lists: Seq<Seq<u32>>,
    base: u32,
)
    requires
        linked(d0, heads, lists),
        base < d0.len(),
        !d0[base as int].free,
        d1.len() == d0.len(),
        !d1[base as int].free,
        forall|f: int| 0 <= f < d0.len() && f != base ==> #[trigger] d1[f] == d0[f],
    ensures
        linked(d1, heads, lists),
{
    assert forall|o: int, i: int| 0 <= o < ORDERS && 0 <= i < lists[o].len() implies
        #[trigger] entry_ok(d1, lists, o, i) by {
        assert(entry_ok(d0, lists, o, i));
    }
    assert forall|f: int| 0 <= f < d1.len() implies #[trigger] mark_ok(d1, lists, f) by {
        assert(mark_ok(d0, lists, f));
    }
}

/// The links after `base` is put in front of the list of order `o`.
proof fn lemma_insert_links(
    d0: Seq<FrameDesc>,
    h0: Seq<u32>,
    l0: Seq<Seq<u32>>,
    d1: Seq<FrameDesc>,
    base: u32,
    o: int,
)
    requires
        linked(d0, h0, l0),
        0 <= o < ORDERS,
        base < d0.len(),
        !d0[base as int].free,
        d1 == ({
            let head = h0[o];
            let d = d0.update(
                base as int,
                FrameDesc { next: head, prev: NIL, order: o as u8, free: true },
            );
            if head != NIL {
                d.update(head as int, FrameDesc { prev: base, ..d[head as int] })
            } else {
                d
            }
        }),
    ensures
        linked(d1, h0.update(o, base), l0.update(o, blocks::front(l0[o], base))),
        forall|f: int|
            0 <= f < d0.len() && f != base && !d0[f].free ==> #[trigger] d1[f] == d0[f],
{
    let l1 = l0.update(o, blocks::front(l0[o], base));
    let head = h0[o];
    assert forall|k: int, i: int| 0 <= k < ORDERS && 0 <= i < l0[k].len() implies l0[k][i]
        != base by {
        assert(entry_ok(d0, l0, k, i));
    }
    blocks::lemma_front(l0[o], base);
    if l0[o].len() > 0 {
        assert(entry_ok(d0, l0, o, 0));
        assert(head == l0[o][0]);
    }
    assert forall|k: int, i: int| 0 <= k < ORDERS && 0 <= i < l1[k].len() implies
        #[trigger] entry_ok(d1, l1, k, i) by {
        if k == o {
            if i > 0 {
                assert(l1[k][i] == l0[k][i - 1]);
                assert(entry_ok(d0, l0, k, i - 1));
                assert(nth(l1[k], i + 1) == nth(l0[k], i));
                if i > 1 {
                    assert(l0[k][i - 1] != l0[k][0]);
                    assert(nth(l1[k], i - 1) == nth(l0[k], i - 2));
                }
            } else {
                assert(nth(l1[k], 1) == nth(l0[k], 0));
            }
        } else {
            assert(entry_ok(d0, l0, k, i));
        }
    }
    assert forall|f: int| 0 <= f < d1.len() implies #[trigger] mark_ok(d1, l1, f) by {
        assert(mark_ok(d0, l0, f));
        if f == base {
            assert(l1[o][0] == base);
        }
    }
}

/// The links after `base` is taken out of the list of order `o`.
proof fn lemma_unlink_links(
    d0: Seq<FrameDesc>,
    h0: Seq<u32>,
    l0: Seq<Seq<u32>>,
    d1: Seq<FrameDesc>,
    h1: Seq<u32>,
    base: u32,
    o: int,
)
    requires
        linked(d0, h0, l0),
        0 <= o < ORDERS,
        l0[o].contains(base),
        ({
            let next = d0[base as int].next;
            let prev = d0[base as int].prev;
            let da = if prev != NIL {
                d0.update(prev as int, FrameDesc { next, ..d0[prev as int] })
            } else {
                d0
            };
            let db = if next != NIL {
                da.update(next as int, FrameDesc { prev, ..da[next as int] })
            } else {
                da
            };
            &&& d1 == db.update(base as int, FrameDesc { free: false, ..db[base as int] })
            &&& h1 == (if prev != NIL {
                h0
            } else {
                h0.update(o, next)
            })
        }),
    ensures
        linked(d1, h1, l0.update(o, blocks::without(l0[o], base))),
        !d1[base as int].free,
        forall|f: int| 0 <= f < d0.len() && !d0[f].free ==> #[trigger] d1[f] == d0[f],
{
    let s = l0[o];
    let n = s.index_of(base);
    let l1 = l0.update(o, blocks::without(s, base));
    let next = d0[base as int].next;
    let prev = d0[base as int].prev;
    assert(s[n] == base);
    assert(entry_ok(d0, l0, o, n));
    if n > 0 {
        assert(entry_ok(d0, l0, o, n - 1));
    }
    if n + 1 < s.len() {
        assert(entry_ok(d0, l0, o, n + 1));
    }
    blocks::lemma_without(s, base);
    assert forall|k: int, i: int| 0 <= k < ORDERS && 0 <= i < l1[k].len() implies
        #[trigger] entry_ok(d1, l1, k, i) by {
        if k == o {
            let j = if i < n {
                i
            } else {
                i + 1
            };
            assert(l1[k][i] == s[j]);
            assert(entry_ok(d0, l0, o, j));
            assert(s[j] != s[n]);
            if n > 0 && j != n - 1 {
                assert(s[j] != s[n - 1]);
            }
            if n + 1 < s.len() && j != n + 1 {
                assert(s[j] != s[n + 1]);
            }
            assert(nth(l1[k], i + 1) == (if i + 1 < n {
                nth(s, i + 1)
            } else {
                nth(s, i + 2)
            }));
            assert(nth(l1[k], i - 1) == (if i - 1 < n {
                nth(s, i - 1)
            } else {
                nth(s, i)
            }));
        } else {
            assert(entry_ok(d0, l0, k, i));
        }
    }
    assert forall|f: int| 0 <= f < d1.len() implies #[trigger] mark_ok(d1, l1, f) by {
        assert(mark_ok(d0, l0, f));
    }
    assert forall|k: int| 0 <= k < ORDERS implies #[trigger] h1[k] == nth(l1[k], 0) by {
        assert(h0[k] == nth(l0[k], 0));
    }
}

/// The allocator. It borrows the descriptors for as long as it lives.
pub struct Buddy<'a> {
    desc: &'a mut [FrameDesc],
    free: [Pfn; ORDERS],
    nframes: Pfn,
    free_frames: Pfn,
    lists: Ghost<Seq<Seq<u32>>>,
    live: Ghost<Map<u32, u8>>,
}

impl<'a> View for Buddy<'a> {
    type V = BuddyView;

    closed spec fn view(&self) -> BuddyView {
        BuddyView { nframes: self.nframes as nat, lists: self.lists@, live: self.live@ }
    }
}

impl<'a> Buddy<'a> {
    /// The links hold the lists of the model.
    spec fn links_ok(&self) -> bool {
        &&& linked(self.desc@, self.free@, self.lists@)
        &&& self.desc@.len() == self.nframes
    }

    /// Every block handed out, but for `except`, has its order in its descriptor.
    spec fn orders_ok(&self, except: Option<u32>) -> bool {
        forall|b: u32|
            #[trigger] self.live@.contains_key(b) && Some(b) != except ==> b < self.desc@.len()
                && self.desc@[b as int].order == self.live@[b]
    }

    /// The descriptors and counters say what the model says.
    pub closed spec fn consistent(&self) -> bool {
        &&& self.links_ok()
        &&& self.orders_ok(None)
        &&& self.free_frames == self@.free_count()
    }

    /// The blocks are sound, and the descriptors and counters agree with them.
    pub open spec fn wf(&self) -> bool {
        &&& self@.wf()
        &&& self.consistent()
    }

    /// An allocator over `desc`, one descriptor per frame, with every frame reserved.
    pub fn new(desc: &'a mut [FrameDesc]) -> (buddy: Self)
        requires
            old(desc)@.len() <= u32::MAX,
        ensures
            buddy.wf(),
            buddy@ == (BuddyView {
                nframes: old(desc)@.len(),
                lists: Seq::new(ORDERS as nat, |o: int| Seq::<u32>::empty()),
                live: Map::empty(),
            }),
            buddy@.free_count() == 0,
    {
        let n: usize = desc.len();
        let mut i: usize = 0;
        while i < n
            invariant
                i <= n,
                desc@.len() == n,
                forall|k: int| 0 <= k < i ==> #[trigger] desc@[k] == FrameDesc::reserved_spec(),
            decreases n - i,
        {
            desc[i] = FrameDesc::reserved();
            i = i + 1;
        }
        let ghost lists = Seq::new(ORDERS as nat, |o: int| Seq::<u32>::empty());
        let buddy = Buddy {
            desc,
            free: [NIL; ORDERS],
            nframes: n as Pfn,
            free_frames: 0,
            lists: Ghost(lists),
            live: Ghost(Map::empty()),
        };
        proof {
            assert forall|f: int| !#[trigger] buddy@.frame_free(f) by {}
            assert(buddy@.free_set() =~= Set::empty());
            assert forall|f: int| 0 <= f < buddy.desc@.len() implies #[trigger] mark_ok(
                buddy.desc@,
                lists,
                f,
            ) by {
                assert(buddy.desc@[f] == FrameDesc::reserved_spec());
            }
        }
        buddy
    }

    /// The number of free frames.
    #[must_use]
    pub fn free_frames(&self) -> (n: Pfn)
        requires
            self.wf(),
        ensures
            n == self@.free_count(),
    {
        self.free_frames
    }

    /// The number of frames that the allocator spans.
    #[must_use]
    pub fn total_frames(&self) -> (n: Pfn)
        ensures
            n == self@.nframes,
    {
        self.nframes
    }

    /// Release the `count` frames from `start` on, which must be reserved, as the largest aligned
    /// blocks there are.
    pub fn add_frames(&mut self, start: Pfn, count: Pfn)
        requires
            old(self).wf(),
            start + count <= old(self)@.nframes,
            forall|f: int|
                start <= f < start + count ==> !#[trigger] old(self)@.frame_managed(f),
        ensures
            final(self).wf(),
            final(self)@ == old(self)@.carved(start as int, start + count),
            final(self)@.free_count() == old(self)@.free_count() + count,
            forall|f: int| #[trigger]
                final(self)@.frame_free(f) == (old(self)@.frame_free(f) || start <= f < start
                    + count),
            forall|f: int| #[trigger] final(self)@.frame_live(f) == old(self)@.frame_live(f),
    {
        if count == 0 {
            return;
        }
        let end: Pfn = start + count;
        let mut base: Pfn = start;
        let ghost before = self@;
        while base < end
            invariant
                start <= base <= end,
                end <= self@.nframes,
                self.wf(),
                self@.nframes == before.nframes,
                self@.carved(base as int, end as int) == before.carved(start as int, end as int),
                self@.free_count() == before.free_count() + (base - start),
                forall|f: int| base <= f < end ==> !#[trigger] self@.frame_managed(f),
                forall|f: int| #[trigger]
                    self@.frame_free(f) == (before.frame_free(f) || start <= f < base),
                forall|f: int| #[trigger] self@.frame_live(f) == before.frame_live(f),
            decreases end - base,
        {
            let align_order: u32 = if base == 0 {
                MAX_ORDER as u32
            } else {
                base.trailing_zeros()
            };
            proof {
                vstd::std_specs::bits::axiom_u32_leading_zeros((end - base) as u32);
                vstd::std_specs::bits::axiom_u32_trailing_zeros(base);
            }
            let size_order: u32 = 31 - (end - base).leading_zeros();
            let mut o: u32 = MAX_ORDER as u32;
            if align_order < o {
                o = align_order;
            }
            if size_order < o {
                o = size_order;
            }
            let order: u8 = o as u8;
            proof {
                assert forall|k: int| 0 <= k < ORDERS implies (base as int % #[trigger] blocks::span(
                    k,
                ) == 0 && base + blocks::span(k) <= end) == (k <= order) by {
                    blocks::lemma_span(k);
                    blocks::lemma_room((end - base) as u32, k);
                    if base != 0 {
                        blocks::lemma_alignment(base, k);
                    }
                }
                blocks::lemma_span_fits(order as int);
                blocks::lemma_largest_order(base as int, end as int, order as int, ORDERS - 1);
            }
            let ghost mid = self@;
            proof {
                assert forall|f: int|
                    base <= f < base + blocks::span(
                        order as int,
                    ) implies !#[trigger] mid.frame_managed(f) by {}
                mid.lemma_with_block(base, order as int);
                mid.with_block(base, order as int).lemma_free_set_is_finite();
                assert(!mid.frame_managed(base as int));
                lemma_unmarked(self.desc@, self.free@, mid, base);
                assert forall|b: u32| #[trigger]
                    mid.live.contains_key(b) implies b < self.desc@.len() && b != base
                    && !self.desc@[b as int].free by {
                    assert(mid.is_live(b, mid.live[b] as int));
                    blocks::lemma_span(mid.live[b] as int);
                    if b == base {
                        assert(mid.frame_live(b as int));
                    }
                    lemma_unmarked(self.desc@, self.free@, mid, b);
                }
            }
            self.free_frames = self.free_frames + (1u32 << order);
            self.insert(base, order);
            assert(self@ =~= mid.with_block(base, order as int));
            base = base + (1u32 << order);
            assert forall|f: int| base <= f < end implies !#[trigger] self@.frame_managed(f) by {
                assert(!mid.frame_managed(f));
                assert(self@.frame_free(f) == mid.frame_free(f));
                assert(self@.frame_live(f) == mid.frame_live(f));
            }
        }
    }

    /// Hand out a block of `2^order` frames; its first frame, or `None`, with nothing changed, if
    /// no block that large is left.
    pub fn allocate(&mut self, order: u8) -> (r: Option<Pfn>)
        requires
            old(self).wf(),
        ensures
            final(self).wf(),
            match r {
                None => {
                    &&& order > MAX_ORDER || old(self)@.first_fit(order as int) == ORDERS
                    &&& final(self)@ == old(self)@
                },
                Some(base) => {
                    &&& order <= MAX_ORDER
                    &&& old(self)@.first_fit(order as int) < ORDERS
                    &&& base == old(self)@.lists[old(self)@.first_fit(order as int)][0]
                    &&& final(self)@ == old(self)@.allocated(order as int)
                    // The frames were free, and are handed out now.
                    &&& final(self)@.is_live(base, order as int)
                    &&& forall|f: int|
                        base <= f < base + blocks::span(order as int) ==> #[trigger] old(
                            self,
                        )@.frame_free(f)
                    &&& final(self)@.free_count() == old(self)@.free_count() - blocks::span(
                        order as int,
                    )
                    &&& forall|f: int| #[trigger]
                        final(self)@.frame_managed(f) == old(self)@.frame_managed(f)
                },
            },
    {
        if order > MAX_ORDER {
            return None;
        }
        let ghost before = self@;
        let mut o: u8 = order;
        while o <= MAX_ORDER && self.free[o as usize] == NIL
            invariant
                order <= o <= MAX_ORDER + 1,
                order <= MAX_ORDER,
                self.wf(),
                self@ == before,
                forall|k: int| order <= k < o ==> (#[trigger] before.lists[k]).len() == 0,
            decreases MAX_ORDER + 1 - o,
        {
            proof {
                assert(self.free@[o as int] == nth(before.lists[o as int], 0));
                if before.lists[o as int].len() > 0 {
                    assert(entry_ok(self.desc@, before.lists, o as int, 0));
                }
            }
            o = o + 1;
        }
        if o > MAX_ORDER {
            proof {
                before.lemma_first_fit(order as int, o as int);
            }
            return None;
        }
        let base: Pfn = self.free[o as usize];
        let ghost found = o as int;
        proof {
            assert(self.free@[o as int] == nth(before.lists[o as int], 0));
            before.lemma_first_fit(order as int, o as int);
            before.lemma_halving_starts(found);
            before.lemma_taken(base, found);
            before.lemma_free_set_is_finite();
            assert forall|b: u32| #[trigger] before.live.contains_key(b) implies b
                < self.desc@.len() && b != base && !self.desc@[b as int].free by {
                assert(before.is_live(b, before.live[b] as int));
                blocks::lemma_span(before.live[b] as int);
                blocks::lemma_span(found);
                if b == base {
                    assert(blocks::apart(b as int, found, b as int, before.live[b] as int));
                }
                lemma_unmarked(self.desc@, self.free@, before, b);
            }
        }
        self.unlink(base, o);
        self.live = Ghost(self.live@.insert(base, o));
        assert(self@ =~= before.taken(base, found));
        // Halve it down to the requested order; the upper halves are free again.
        while o > order
            invariant
                order <= o <= found < ORDERS,
                before.wf(),
                before.lists[found].len() > 0,
                base == before.lists[found][0],
                self@ == before.halving(found, o as int),
                self@.wf(),
                self@.is_live(base, o as int),
                self.links_ok(),
                self.orders_ok(Some(base)),
                self.free_frames == before.free_count(),
                self@.free_count() == before.free_count() - blocks::span(o as int),
                forall|f: int| #[trigger] self@.frame_managed(f) == before.frame_managed(f),
                forall|f: int|
                    base <= f < base + blocks::span(found) ==> #[trigger] before.frame_free(f),
                blocks::span(o as int) <= blocks::span(found),
            decreases o,
        {
            let ghost mid = self@;
            o = o - 1;
            proof {
                before.lemma_halving_goes_on(found, o + 1);
                mid.lemma_halved(base);
                blocks::lemma_span(o as int);
                blocks::lemma_span_fits(o as int);
                assert(blocks::placed(base as int, o + 1, mid.nframes));
                let upper = (base + blocks::span(o as int)) as u32;
                assert(mid.frame_live(upper as int)) by {
                    assert(mid.is_live(base, o + 1));
                }
                mid.lemma_free_or_live(upper as int);
                lemma_unmarked(self.desc@, self.free@, mid, upper);
                assert forall|b: u32| #[trigger] mid.live.contains_key(b) implies b
                    < self.desc@.len() && b != upper && !self.desc@[b as int].free by {
                    assert(mid.is_live(b, mid.live[b] as int));
                    assert(mid.is_live(base, o + 1));
                    blocks::lemma_span(mid.live[b] as int);
                    lemma_unmarked(self.desc@, self.free@, mid, b);
                }
            }
            let upper: Pfn = base + (1u32 << o);
            self.insert(upper, o);
            self.live = Ghost(self.live@.insert(base, o));
            assert(self@ =~= mid.halved(base));
        }
        proof {
            blocks::lemma_span_fits(order as int);
            assert(blocks::placed(base as int, order as int, self@.nframes));
            self@.lemma_free_set_is_finite();
            lemma_unmarked(self.desc@, self.free@, self@, base);
        }
        let ghost done = *self;
        self.desc[base as usize].order = order;
        self.desc[base as usize].free = false;
        self.free_frames = self.free_frames - (1u32 << order);
        proof {
            assert(self@ =~= before.allocated(order as int));
            lemma_order_is_no_link(done.desc@, self.desc@, self.free@, self.lists@, base);
        }
        Some(base)
    }

    /// Take back the block at `base`, which must be handed out. It joins with its buddy as long as
    /// that is free.
    pub fn free(&mut self, base: Pfn)
        requires
            old(self).wf(),
            old(self)@.live.contains_key(base),
        ensures
            final(self).wf(),
            final(self)@ == old(self)@.freed(base),
            final(self)@.free_count() == old(self)@.free_count() + blocks::span(
                old(self)@.live[base] as int,
            ),
            forall|f: int| #[trigger]
                final(self)@.frame_managed(f) == old(self)@.frame_managed(f),
    {
        let ghost before = self@;
        proof {
            assert(before.is_live(base, before.live[base] as int));
            before.lemma_given(base);
            before.given(base).lemma_free_set_is_finite();
            blocks::lemma_span_fits(before.live[base] as int);
        }
        let order: u8 = self.desc[base as usize].order;
        self.free_frames = self.free_frames + (1u32 << order);
        self.coalesce(base, order);
    }

    /// Join the block at `base` with its buddy as long as that is free, and put what comes of it
    /// in its free list.
    fn coalesce(&mut self, base: Pfn, order: u8)
        requires
            old(self)@.wf(),
            old(self).links_ok(),
            old(self).orders_ok(Some(base)),
            old(self)@.is_live(base, order as int),
            old(self).free_frames == old(self)@.free_count() + blocks::span(order as int),
        ensures
            final(self).wf(),
            final(self)@ == old(self)@.freed(base),
            final(self)@.free_count() == old(self)@.free_count() + blocks::span(order as int),
            forall|f: int| #[trigger]
                final(self)@.frame_managed(f) == old(self)@.frame_managed(f),
    {
        let mut base: Pfn = base;
        let mut order: u8 = order;
        let ghost before = self@;
        let ghost base0 = base;
        let ghost total = self.free_frames;
        let mut done = false;
        while order < MAX_ORDER && !done
            invariant
                order <= MAX_ORDER,
                self@.wf(),
                self.links_ok(),
                self.orders_ok(Some(base)),
                self.free_frames == total,
                self@.is_live(base, order as int),
                self@.free_count() + blocks::span(order as int) == total,
                self@.freed(base) == before.freed(base0),
                forall|f: int| #[trigger] self@.frame_managed(f) == before.frame_managed(f),
                done ==> !self@.is_free(blocks::buddy_of(base, order as int), order as int),
            decreases MAX_ORDER - order,
                (if done {
                    0int
                } else {
                    1int
                }),
        {
            let ghost mid = self@;
            proof {
                assert(blocks::placed(base as int, order as int, mid.nframes));
                blocks::lemma_buddy_is_xor(base, order);
                blocks::lemma_buddy(base, order as int);
                blocks::lemma_span(order as int);
            }
            let buddy: Pfn = base ^ (1u32 << order);
            if buddy >= self.nframes {
                proof {
                    if mid.is_free(buddy, order as int) {
                        assert(blocks::placed(buddy as int, order as int, mid.nframes));
                    }
                }
                done = true;
            } else if !self.desc[buddy as usize].free || self.desc[buddy as usize].order != order {
                proof {
                    if mid.is_free(buddy, order as int) {
                        lemma_listed(self.desc@, self.free@, mid.lists, order as int, buddy);
                    }
                }
                done = true;
            } else {
                proof {
                    assert(mark_ok(self.desc@, mid.lists, buddy as int));
                    assert(mid.is_free(buddy, order as int));
                    mid.lemma_joined(base);
                    assert forall|b: u32| #[trigger] mid.live.contains_key(b) implies b
                        < self.desc@.len() && b != buddy && !self.desc@[b as int].free by {
                        assert(mid.is_live(b, mid.live[b] as int));
                        blocks::lemma_span(mid.live[b] as int);
                        if b == buddy {
                            assert(blocks::apart(
                                b as int,
                                order as int,
                                b as int,
                                mid.live[b] as int,
                            ));
                        }
                        lemma_unmarked(self.desc@, self.free@, mid, b);
                    }
                }
                self.unlink(buddy, order);
                let low: Pfn = if buddy < base {
                    buddy
                } else {
                    base
                };
                self.live = Ghost(self.live@.remove(base).insert(low, (order + 1) as u8));
                assert(self@ =~= mid.joined(base));
                base = low;
                order = order + 1;
            }
        }
        let ghost last = self@;
        proof {
            last.lemma_given(base);
            blocks::lemma_span(order as int);
            assert(blocks::placed(base as int, order as int, last.nframes));
            lemma_unmarked(self.desc@, self.free@, last, base);
            assert forall|b: u32| #[trigger] last.live.contains_key(b) implies b
                < self.desc@.len() && !self.desc@[b as int].free by {
                assert(last.is_live(b, last.live[b] as int));
                blocks::lemma_span(last.live[b] as int);
                lemma_unmarked(self.desc@, self.free@, last, b);
            }
        }
        self.insert(base, order);
        self.live = Ghost(self.live@.remove(base));
        assert(self@ =~= last.given(base));
    }

    /// Put a block in front of its free list.
    fn insert(&mut self, base: Pfn, order: u8)
        requires
            old(self).links_ok(),
            base < old(self).desc@.len(),
            !old(self).desc@[base as int].free,
            order < ORDERS,
        ensures
            final(self).links_ok(),
            final(self).lists@ == old(self).lists@.update(
                order as int,
                blocks::front(old(self).lists@[order as int], base),
            ),
            final(self).live@ == old(self).live@,
            final(self).nframes == old(self).nframes,
            final(self).free_frames == old(self).free_frames,
            forall|f: int|
                0 <= f < old(self).desc@.len() && f != base && !old(self).desc@[f].free
                    ==> #[trigger] final(self).desc@[f] == old(self).desc@[f],
    {
        let ghost before = *self;
        let head: Pfn = self.free[order as usize];
        proof {
            assert(head == nth(self.lists@[order as int], 0));
            if head != NIL {
                assert(entry_ok(self.desc@, self.lists@, order as int, 0));
            }
        }
        self.desc[base as usize] = FrameDesc { next: head, prev: NIL, order, free: true };
        if head != NIL {
            self.desc[head as usize].prev = base;
        }
        self.free[order as usize] = base;
        self.lists = Ghost(
            self.lists@.update(order as int, blocks::front(self.lists@[order as int], base)),
        );
        proof {
            lemma_insert_links(
                before.desc@,
                before.free@,
                before.lists@,
                self.desc@,
                base,
                order as int,
            );
        }
    }

    /// Take a block out of its free list.
    fn unlink(&mut self, base: Pfn, order: u8)
        requires
            old(self).links_ok(),
            order < ORDERS,
            old(self).lists@[order as int].contains(base),
        ensures
            final(self).links_ok(),
            final(self).lists@ == old(self).lists@.update(
                order as int,
                blocks::without(old(self).lists@[order as int], base),
            ),
            final(self).live@ == old(self).live@,
            final(self).nframes == old(self).nframes,
            final(self).free_frames == old(self).free_frames,
            base < final(self).desc@.len(),
            !final(self).desc@[base as int].free,
            forall|f: int|
                0 <= f < old(self).desc@.len() && !old(self).desc@[f].free
                    ==> #[trigger] final(self).desc@[f] == old(self).desc@[f],
    {
        let ghost before = *self;
        let ghost n = self.lists@[order as int].index_of(base);
        proof {
            assert(entry_ok(self.desc@, self.lists@, order as int, n));
            if n > 0 {
                assert(entry_ok(self.desc@, self.lists@, order as int, n - 1));
            }
            if n + 1 < self.lists@[order as int].len() {
                assert(entry_ok(self.desc@, self.lists@, order as int, n + 1));
            }
        }
        let next: Pfn = self.desc[base as usize].next;
        let prev: Pfn = self.desc[base as usize].prev;
        if prev != NIL {
            self.desc[prev as usize].next = next;
        } else {
            self.free[order as usize] = next;
        }
        if next != NIL {
            self.desc[next as usize].prev = prev;
        }
        self.desc[base as usize].free = false;
        self.lists = Ghost(
            self.lists@.update(order as int, blocks::without(self.lists@[order as int], base)),
        );
        proof {
            lemma_unlink_links(
                before.desc@,
                before.free@,
                before.lists@,
                self.desc@,
                self.free@,
                base,
                order as int,
            );
        }
    }
}

} // verus!
