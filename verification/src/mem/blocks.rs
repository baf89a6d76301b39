//! The model of the buddy allocator: aligned blocks of `2^order` frames, free or handed out.

use vstd::arithmetic::power2::pow2;
use vstd::prelude::*;

verus! {

/// The number of orders: a block has at most `2^(ORDERS - 1)` frames.
pub const ORDERS: usize = 19;

/// The state of a buddy allocator.
#[verifier::ext_equal]
pub struct BuddyView {
    /// The number of frames that the allocator spans.
    pub nframes: nat,
    /// For each order the bases of the free blocks, next to be handed out first.
    pub lists: Seq<Seq<u32>>,
    /// The blocks handed out: base to order.
    pub live: Map<u32, u8>,
}

/// The number of frames in a block.
pub open spec fn span(order: int) -> int {
    pow2(order as nat) as int
}

/// A block of this order can start here.
pub open spec fn placed(base: int, order: int, nframes: nat) -> bool {
    &&& 0 <= order < ORDERS
    &&& 0 <= base
    &&& base + span(order) <= nframes
    &&& base % span(order) == 0
}

/// The blocks share no frame.
pub open spec fn apart(b1: int, o1: int, b2: int, o2: int) -> bool {
    b1 + span(o1) <= b2 || b2 + span(o2) <= b1
}

impl BuddyView {
    /// The block is free.
    pub open spec fn is_free(self, base: u32, order: int) -> bool {
        0 <= order < self.lists.len() && self.lists[order].contains(base)
    }

    /// The block is handed out.
    pub open spec fn is_live(self, base: u32, order: int) -> bool {
        self.live.contains_key(base) && self.live[base] == order
    }

    /// Every block lies where its order allows, and no two blocks share a frame.
    pub open spec fn wf(self) -> bool {
        &&& self.lists.len() == ORDERS
        &&& self.nframes <= u32::MAX
        &&& forall|o: int| 0 <= o < ORDERS ==> (#[trigger] self.lists[o]).no_duplicates()
        &&& forall|b: u32, o: int| #[trigger]
            self.is_free(b, o) ==> placed(b as int, o, self.nframes)
        &&& forall|b: u32, o: int| #[trigger]
            self.is_live(b, o) ==> placed(b as int, o, self.nframes)
        &&& forall|b1: u32, o1: int, b2: u32, o2: int|
            #![trigger self.is_free(b1, o1), self.is_free(b2, o2)]
            self.is_free(b1, o1) && self.is_free(b2, o2) && (b1 != b2 || o1 != o2) ==> apart(
                b1 as int,
                o1,
                b2 as int,
                o2,
            )
        &&& forall|b1: u32, o1: int, b2: u32, o2: int|
            #![trigger self.is_free(b1, o1), self.is_live(b2, o2)]
            self.is_free(b1, o1) && self.is_live(b2, o2) ==> apart(b1 as int, o1, b2 as int, o2)
        &&& forall|b1: u32, o1: int, b2: u32, o2: int|
            #![trigger self.is_live(b1, o1), self.is_live(b2, o2)]
            self.is_live(b1, o1) && self.is_live(b2, o2) && b1 != b2 ==> apart(
                b1 as int,
                o1,
                b2 as int,
                o2,
            )
    }

    /// Frame `f` is in a free block.
    pub open spec fn frame_free(self, f: int) -> bool {
        exists|b: u32, o: int| #[trigger] self.is_free(b, o) && b <= f < b + span(o)
    }

    /// Frame `f` is in a block that is handed out.
    pub open spec fn frame_live(self, f: int) -> bool {
        exists|b: u32, o: int| #[trigger] self.is_live(b, o) && b <= f < b + span(o)
    }

    /// Frame `f` was given to the allocator at some time; the others are reserved.
    pub open spec fn frame_managed(self, f: int) -> bool {
        self.frame_free(f) || self.frame_live(f)
    }

    /// The free frames.
    pub open spec fn free_set(self) -> Set<int> {
        Set::new(|f: int| self.frame_free(f))
    }

    /// The number of free frames.
    pub open spec fn free_count(self) -> nat {
        self.free_set().len()
    }

    /// Block `base` of order `order` moved from the free list to those handed out.
    pub open spec fn taken(self, base: u32, order: int) -> BuddyView {
        BuddyView {
            lists: self.lists.update(order, without(self.lists[order], base)),
            live: self.live.insert(base, order as u8),
            ..self
        }
    }

    /// Block `base` handed out with one order less, and its upper half free.
    pub open spec fn halved(self, base: u32) -> BuddyView {
        let o = self.live[base] - 1;
        BuddyView {
            lists: self.lists.update(o, front(self.lists[o], (base + span(o)) as u32)),
            live: self.live.insert(base, o as u8),
            ..self
        }
    }

    /// Block `base` moved from those handed out to the free list.
    pub open spec fn given(self, base: u32) -> BuddyView {
        let o = self.live[base] as int;
        BuddyView {
            lists: self.lists.update(o, front(self.lists[o], base)),
            live: self.live.remove(base),
            ..self
        }
    }

    /// Block `base`, handed out, joined with its free buddy.
    pub open spec fn joined(self, base: u32) -> BuddyView {
        let o = self.live[base] as int;
        let other = buddy_of(base, o);
        BuddyView {
            lists: self.lists.update(o, without(self.lists[o], other)),
            live: self.live.remove(base).insert(
                if other < base {
                    other
                } else {
                    base
                },
                (o + 1) as u8,
            ),
            ..self
        }
    }

    /// A new free block.
    pub open spec fn with_block(self, base: u32, order: int) -> BuddyView {
        BuddyView {
            lists: self.lists.update(order, front(self.lists[order], base)),
            ..self
        }
    }

    /// The smallest order from `order` on that has a free block, or `ORDERS`.
    pub open spec fn first_fit(self, order: int) -> int
        decreases ORDERS - order,
    {
        if order >= ORDERS || self.lists[order].len() > 0 {
            order
        } else {
            self.first_fit(order + 1)
        }
    }

    /// After a block of `order` is handed out: the first free block of the smallest order that
    /// fits, halved until it has the right size, the upper halves going to the free lists.
    pub open spec fn allocated(self, order: int) -> BuddyView {
        let o = self.first_fit(order);
        let base = self.lists[o][0];
        BuddyView {
            lists: Seq::new(
                self.lists.len(),
                |k: int|
                    if k == o {
                        self.lists[k].drop_first()
                    } else if order <= k < o {
                        front(self.lists[k], (base + span(k)) as u32)
                    } else {
                        self.lists[k]
                    },
            ),
            live: self.live.insert(base, order as u8),
            ..self
        }
    }

    /// After block `base`, handed out, is freed: it joins with its buddy as long as that is free,
    /// and what comes of it goes to the front of its free list.
    pub open spec fn freed(self, base: u32) -> BuddyView
        decreases ORDERS - self.live[base],
    {
        let o = self.live[base] as int;
        let other = buddy_of(base, o);
        if o < ORDERS - 1 && self.is_free(other, o) {
            self.joined(base).freed(
                if other < base {
                    other
                } else {
                    base
                },
            )
        } else {
            self.given(base)
        }
    }

    /// After the frames from `base` to `end` are released: each time the largest block that can
    /// start at `base` and ends by `end`.
    pub open spec fn carved(self, base: int, end: int) -> BuddyView
        decreases
            if base < end {
                end - base
            } else {
                0
            },
    {
        if base >= end {
            self
        } else {
            let o = largest_order(base, end, ORDERS - 1);
            if o < 0 {
                self
            } else {
                proof {
                    vstd::arithmetic::power2::lemma_pow2_pos(o as nat);
                }
                self.with_block(base as u32, o).carved(base + span(o), end)
            }
        }
    }

    /// No two free blocks could be joined.
    pub open spec fn coalesced(self) -> bool {
        forall|b: u32, o: int|
            #![trigger self.is_free(b, o)]
            self.is_free(b, o) && o < ORDERS - 1 ==> !self.is_free(buddy_of(b, o), o)
    }
}

/// The largest order up to `o` of a block that can start at `base` and ends by `end`.
pub open spec fn largest_order(base: int, end: int, o: int) -> int
    decreases o + 1,
{
    if o < 0 {
        -1
    } else if base % span(o) == 0 && base + span(o) <= end {
        o
    } else {
        largest_order(base, end, o - 1)
    }
}

/// The other half of the block of the next order.
pub open spec fn buddy_of(base: u32, order: int) -> u32 {
    if base as int % span(order + 1) == 0 {
        (base + span(order)) as u32
    } else {
        (base - span(order)) as u32
    }
}

/// `b` put in front.
pub open spec fn front(s: Seq<u32>, b: u32) -> Seq<u32> {
    seq![b] + s
}

/// `b` taken out.
pub open spec fn without(s: Seq<u32>, b: u32) -> Seq<u32> {
    s.remove(s.index_of(b))
}

/// Spans are positive, and double from order to order.
pub proof fn lemma_span(o: int)
    requires
        0 <= o,
    ensures
        span(o) > 0,
        span(o + 1) == 2 * span(o),
{
    vstd::arithmetic::power2::lemma_pow2_pos(o as nat);
    vstd::arithmetic::power2::lemma_pow2_unfold((o + 1) as nat);
}

/// The span of an order that blocks have fits in a frame number.
pub proof fn lemma_span_fits(o: int)
    requires
        0 <= o < ORDERS,
    ensures
        0 < span(o) <= 0x40000,
        span(o) == 1u32 << (o as u32),
{
    vstd::arithmetic::power2::lemma2_to64();
    vstd::bits::lemma_u32_shl_is_mul(1, o as u32);
}

/// A block's halves are blocks.
pub proof fn lemma_halves(base: int, o: int)
    requires
        0 <= o,
        base % span(o + 1) == 0,
    ensures
        base % span(o) == 0,
        (base + span(o)) % span(o) == 0,
{
    lemma_span(o);
    let s = span(o);
    assert(base % s == 0 && (base + s) % s == 0) by (nonlinear_arith)
        requires
            base % (2 * s) == 0,
            s > 0,
    {
        let q = base / (2 * s);
        assert(base == (2 * s) * q);
        assert((s * (2 * q)) % s == 0);
        assert(base == s * (2 * q));
        assert((s * (2 * q + 1)) % s == 0);
        assert(base + s == s * (2 * q + 1));
    }
}

/// A block and its buddy are the halves of one block.
pub proof fn lemma_buddy(base: u32, o: int)
    requires
        0 <= o,
        base as int % span(o) == 0,
        base + span(o) <= u32::MAX,
    ensures
        base as int % span(o + 1) == 0 ==> {
            &&& buddy_of(base, o) == base + span(o)
            &&& buddy_of(base, o) as int % span(o + 1) != 0
        },
        base as int % span(o + 1) != 0 ==> {
            &&& buddy_of(base, o) == base - span(o)
            &&& buddy_of(base, o) as int % span(o + 1) == 0
        },
        buddy_of(base, o) as int % span(o) == 0,
        buddy_of(base, o) != base,
        buddy_of(buddy_of(base, o), o) == base,
{
    lemma_span(o);
    let s = span(o);
    let b = base as int;
    let q = b / s;
    assert(b == s * q && q >= 0) by (nonlinear_arith)
        requires
            b % s == 0,
            s > 0,
            b >= 0,
            q == b / s,
    ;
    let h = q / 2;
    if q % 2 == 0 {
        assert(b % (2 * s) == 0 && (b + s) % (2 * s) == s && (b + s) % s == 0) by (nonlinear_arith)
            requires
                b == s * q,
                q == 2 * h,
                s > 0,
        {
            assert(b == (2 * s) * h);
            vstd::arithmetic::div_mod::lemma_fundamental_div_mod_converse(b, 2 * s, h, 0);
            vstd::arithmetic::div_mod::lemma_fundamental_div_mod_converse(b + s, 2 * s, h, s);
            assert(b + s == s * (q + 1));
            vstd::arithmetic::div_mod::lemma_fundamental_div_mod_converse(b + s, s, q + 1, 0);
        }
    } else {
        assert(b % (2 * s) == s && (b - s) % (2 * s) == 0 && (b - s) % s == 0 && b - s >= 0)
            by (nonlinear_arith)
            requires
                b == s * q,
                q == 2 * h + 1,
                h >= 0,
                s > 0,
        {
            assert(b == (2 * s) * h + s);
            vstd::arithmetic::div_mod::lemma_fundamental_div_mod_converse(b, 2 * s, h, s);
            vstd::arithmetic::div_mod::lemma_fundamental_div_mod_converse(b - s, 2 * s, h, 0);
            assert(b - s == s * (q - 1));
            vstd::arithmetic::div_mod::lemma_fundamental_div_mod_converse(b - s, s, q - 1, 0);
        }
    }
}

/// The buddy's number differs in one bit.
pub proof fn lemma_buddy_is_xor(base: u32, o: u8)
    requires
        o < ORDERS - 1,
        base as int % span(o as int) == 0,
        base + span(o as int) <= u32::MAX,
    ensures
        base ^ (1u32 << o) == buddy_of(base, o as int),
{
    let s = 1u32 << o;
    lemma_span_fits(o as int);
    lemma_span(o as int);
    lemma_buddy(base, o as int);
    vstd::bits::lemma_u32_shr_is_div(base, o as u32);
    assert(base & s == 0 ==> base ^ s == base + s) by (bit_vector)
        requires
            s == 1u32 << o,
            o < 18,
    ;
    assert(base & s != 0 ==> base ^ s == base - s) by (bit_vector)
        requires
            s == 1u32 << o,
            o < 18,
    ;
    let o32 = o as u32;
    assert((base & s == 0) == ((base >> o32) % 2 == 0)) by (bit_vector)
        requires
            s == 1u32 << o32,
            o32 < 18,
    ;
    let b = base as int;
    let sp = span(o as int);
    let q = b / sp;
    assert((b % (2 * sp) == 0) == (q % 2 == 0)) by (nonlinear_arith)
        requires
            b % sp == 0,
            sp > 0,
            q == b / sp,
    {
        assert(b == sp * q);
        let h = q / 2;
        if q % 2 == 0 {
            assert(b == (2 * sp) * h);
            vstd::arithmetic::div_mod::lemma_fundamental_div_mod_converse(b, 2 * sp, h, 0);
        } else {
            assert(b == (2 * sp) * h + sp);
            vstd::arithmetic::div_mod::lemma_fundamental_div_mod_converse(b, 2 * sp, h, sp);
        }
    }
}

/// Of two blocks the smaller one lies in the larger one or apart from it.
pub proof fn lemma_blocks_nest(b1: int, o1: int, b2: int, o2: int)
    requires
        0 <= o1 <= o2,
        0 <= b1,
        0 <= b2,
        b1 % span(o1) == 0,
        b2 % span(o2) == 0,
    ensures
        apart(b1, o1, b2, o2) || (b2 <= b1 && b1 + span(o1) <= b2 + span(o2)),
{
    let s = span(o1);
    let t = span(o2);
    lemma_span(o1);
    lemma_span(o2);
    let m = span(o2 - o1);
    lemma_span(o2 - o1);
    vstd::arithmetic::power2::lemma_pow2_adds(o1 as nat, (o2 - o1) as nat);
    assert(t == s * m);
    assert(b1 + s <= b2 || b2 + t <= b1 || (b2 <= b1 && b1 + s <= b2 + t)) by (nonlinear_arith)
        requires
            b1 % s == 0,
            b2 % t == 0,
            t == s * m,
            s > 0,
            m > 0,
            t > 0,
    {
        let q1 = b1 / s;
        let q2 = b2 / t;
        assert(b1 == s * q1);
        assert(b2 == s * (m * q2));
        let r = m * q2;
        assert(b2 + t == s * (r + m));
        if q1 < r {
            assert(s * (q1 + 1) <= s * r);
        } else if q1 < r + m {
            assert(s * r <= s * q1);
            assert(s * (q1 + 1) <= s * (r + m));
        } else {
            assert(s * (r + m) <= s * q1);
        }
    }
}

/// What is in a list once `b` is taken out.
pub proof fn lemma_without(s: Seq<u32>, b: u32)
    requires
        s.no_duplicates(),
        s.contains(b),
    ensures
        without(s, b).no_duplicates(),
        without(s, b).len() == s.len() - 1,
        forall|x: u32| #[trigger] without(s, b).contains(x) == (s.contains(x) && x != b),
{
    let k = s.index_of(b);
    let t = without(s, b);
    assert forall|x: u32| #[trigger] t.contains(x) == (s.contains(x) && x != b) by {
        if t.contains(x) {
            let j = choose|j: int| 0 <= j < t.len() && t[j] == x;
            assert(s[if j < k {
                j
            } else {
                j + 1
            }] == x);
        }
        if s.contains(x) && x != b {
            let j = choose|j: int| 0 <= j < s.len() && s[j] == x;
            assert(t[if j < k {
                j
            } else {
                j - 1
            }] == x);
        }
    }
}

/// What is in a list once `b` is put in front.
pub proof fn lemma_front(s: Seq<u32>, b: u32)
    requires
        s.no_duplicates(),
        !s.contains(b),
    ensures
        front(s, b).no_duplicates(),
        forall|x: u32| #[trigger] front(s, b).contains(x) == (s.contains(x) || x == b),
{
    let t = front(s, b);
    assert(t[0] == b);
    assert forall|x: u32| #[trigger] t.contains(x) == (s.contains(x) || x == b) by {
        if t.contains(x) {
            let j = choose|j: int| 0 <= j < t.len() && t[j] == x;
            if j > 0 {
                assert(s[j - 1] == x);
            }
        }
        if s.contains(x) {
            let j = choose|j: int| 0 <= j < s.len() && s[j] == x;
            assert(t[j + 1] == x);
        }
    }
}

impl BuddyView {
    /// There are finitely many free frames, all of them spanned.
    pub proof fn lemma_free_set_is_finite(self)
        requires
            self.wf(),
        ensures
            self.free_set().finite(),
            self.free_count() <= self.nframes,
    {
        let all = vstd::set_lib::set_int_range(0, self.nframes as int);
        vstd::set_lib::lemma_int_range(0, self.nframes as int);
        assert(self.free_set().subset_of(all)) by {
            assert forall|f: int| self.frame_free(f) implies 0 <= f < self.nframes by {
                let (b, o) = choose|b: u32, o: int| #[trigger]
                    self.is_free(b, o) && b <= f < b + span(o);
                assert(placed(b as int, o, self.nframes));
            }
        }
        vstd::set_lib::lemma_len_subset(self.free_set(), all);
    }

    /// If `other` has the frames of one more free block, it has as many more free frames.
    proof fn lemma_count_of_one_more(self, other: BuddyView, b: int, o: int)
        requires
            self.wf(),
            other.wf(),
            0 <= o,
            forall|f: int| #[trigger]
                other.frame_free(f) == (self.frame_free(f) || b <= f < b + span(o)),
            forall|f: int| b <= f < b + span(o) ==> !#[trigger] self.frame_free(f),
        ensures
            other.free_count() == self.free_count() + span(o),
    {
        let block = vstd::set_lib::set_int_range(b, b + span(o));
        lemma_span(o);
        vstd::set_lib::lemma_int_range(b, b + span(o));
        self.lemma_free_set_is_finite();
        assert(other.free_set() =~= self.free_set() + block);
        assert(self.free_set().disjoint(block));
        vstd::set_lib::lemma_set_disjoint_lens(self.free_set(), block);
    }

    /// No frame is both free and handed out.
    pub proof fn lemma_free_or_live(self, f: int)
        requires
            self.wf(),
        ensures
            !(self.frame_free(f) && self.frame_live(f)),
    {
        if self.frame_free(f) && self.frame_live(f) {
            let (x, k) = choose|x: u32, k: int| #[trigger]
                self.is_free(x, k) && x <= f < x + span(k);
            let (y, j) = choose|y: u32, j: int| #[trigger]
                self.is_live(y, j) && y <= f < y + span(j);
            assert(apart(x as int, k, y as int, j));
        }
    }

    /// Handing out a free block.
    pub proof fn lemma_taken(self, b: u32, o: int)
        requires
            self.wf(),
            self.is_free(b, o),
        ensures
            self.taken(b, o).wf(),
            self.taken(b, o).is_live(b, o),
            forall|x: u32, k: int| #[trigger]
                self.taken(b, o).is_free(x, k) == (self.is_free(x, k) && !(x == b && k == o)),
            forall|x: u32, k: int| #[trigger]
                self.taken(b, o).is_live(x, k) == (self.is_live(x, k) || (x == b && k == o)),
            forall|f: int| #[trigger]
                self.frame_free(f) == (self.taken(b, o).frame_free(f) || b <= f < b + span(o)),
            forall|f: int| b <= f < b + span(o) ==> !#[trigger] self.taken(b, o).frame_free(f),
            forall|f: int| #[trigger]
                self.taken(b, o).frame_live(f) == (self.frame_live(f) || b <= f < b + span(o)),
            self.taken(b, o).free_count() == self.free_count() - span(o),
    {
        let v = self.taken(b, o);
        assert(placed(b as int, o, self.nframes));
        lemma_span(o);
        lemma_without(self.lists[o], b);
        assert forall|k: int| !#[trigger] self.is_live(b, k) by {
            if self.is_live(b, k) {
                assert(apart(b as int, o, b as int, k));
                lemma_span(k);
            }
        }
        assert(!self.live.contains_key(b)) by {
            if self.live.contains_key(b) {
                assert(self.is_live(b, self.live[b] as int));
            }
        }
        assert forall|x: u32, k: int| #[trigger]
            v.is_free(x, k) == (self.is_free(x, k) && !(x == b && k == o)) by {}
        assert forall|x: u32, k: int| #[trigger]
            v.is_live(x, k) == (self.is_live(x, k) || (x == b && k == o)) by {}
        assert(v.wf());
        assert forall|f: int| #[trigger]
            self.frame_free(f) == (v.frame_free(f) || b <= f < b + span(o)) by {
            if self.frame_free(f) {
                let (x, k) = choose|x: u32, k: int| #[trigger]
                    self.is_free(x, k) && x <= f < x + span(k);
                if !(x == b && k == o) {
                    assert(v.is_free(x, k));
                }
            }
            if v.frame_free(f) {
                let (x, k) = choose|x: u32, k: int| #[trigger]
                    v.is_free(x, k) && x <= f < x + span(k);
                assert(self.is_free(x, k));
            }
        }
        assert forall|f: int| b <= f < b + span(o) implies !#[trigger] v.frame_free(f) by {
            if v.frame_free(f) {
                let (x, k) = choose|x: u32, k: int| #[trigger]
                    v.is_free(x, k) && x <= f < x + span(k);
                assert(self.is_free(x, k));
                assert(apart(x as int, k, b as int, o));
            }
        }
        assert forall|f: int| #[trigger]
            v.frame_live(f) == (self.frame_live(f) || b <= f < b + span(o)) by {
            if v.frame_live(f) {
                let (x, k) = choose|x: u32, k: int| #[trigger]
                    v.is_live(x, k) && x <= f < x + span(k);
                if !(x == b && k == o) {
                    assert(self.is_live(x, k));
                }
            }
            if self.frame_live(f) {
                let (x, k) = choose|x: u32, k: int| #[trigger]
                    self.is_live(x, k) && x <= f < x + span(k);
                assert(v.is_live(x, k));
            }
            assert(v.is_live(b, o));
        }
        v.lemma_count_of_one_more(self, b as int, o);
    }

    /// A new free block out of frames that no block holds.
    pub proof fn lemma_with_block(self, b: u32, o: int)
        requires
            self.wf(),
            placed(b as int, o, self.nframes),
            forall|f: int| b <= f < b + span(o) ==> !#[trigger] self.frame_managed(f),
        ensures
            self.with_block(b, o).wf(),
            forall|x: u32, k: int| #[trigger]
                self.with_block(b, o).is_free(x, k) == (self.is_free(x, k) || (x == b && k == o)),
            forall|x: u32, k: int| #[trigger]
                self.with_block(b, o).is_live(x, k) == self.is_live(x, k),
            forall|f: int| #[trigger]
                self.with_block(b, o).frame_free(f) == (self.frame_free(f) || b <= f < b + span(
                    o,
                )),
            forall|f: int| #[trigger]
                self.with_block(b, o).frame_live(f) == self.frame_live(f),
            self.with_block(b, o).free_count() == self.free_count() + span(o),
    {
        let v = self.with_block(b, o);
        lemma_span(o);
        assert forall|x: u32, k: int| #[trigger] self.is_free(x, k) implies apart(
            x as int,
            k,
            b as int,
            o,
        ) by {
            assert(placed(x as int, k, self.nframes));
            lemma_span(k);
            if !apart(x as int, k, b as int, o) {
                let f = if x < b {
                    b as int
                } else {
                    x as int
                };
                assert(self.frame_free(f));
                assert(self.frame_managed(f));
            }
        }
        assert forall|x: u32, k: int| #[trigger] self.is_live(x, k) implies apart(
            x as int,
            k,
            b as int,
            o,
        ) by {
            assert(placed(x as int, k, self.nframes));
            lemma_span(k);
            if !apart(x as int, k, b as int, o) {
                let f = if x < b {
                    b as int
                } else {
                    x as int
                };
                assert(self.frame_live(f));
                assert(self.frame_managed(f));
            }
        }
        assert(!self.is_free(b, o));
        lemma_front(self.lists[o], b);
        assert forall|x: u32, k: int| #[trigger]
            v.is_free(x, k) == (self.is_free(x, k) || (x == b && k == o)) by {}
        assert forall|x: u32, k: int| #[trigger] v.is_live(x, k) == self.is_live(x, k) by {}
        assert(v.wf());
        assert forall|f: int| #[trigger]
            v.frame_free(f) == (self.frame_free(f) || b <= f < b + span(o)) by {
            if v.frame_free(f) {
                let (x, k) = choose|x: u32, k: int| #[trigger]
                    v.is_free(x, k) && x <= f < x + span(k);
                if !(x == b && k == o) {
                    assert(self.is_free(x, k));
                }
            }
            if self.frame_free(f) {
                let (x, k) = choose|x: u32, k: int| #[trigger]
                    self.is_free(x, k) && x <= f < x + span(k);
                assert(v.is_free(x, k));
            }
            assert(v.is_free(b, o));
        }
        assert forall|f: int| #[trigger] v.frame_live(f) == self.frame_live(f) by {
            if v.frame_live(f) {
                let (x, k) = choose|x: u32, k: int| #[trigger]
                    v.is_live(x, k) && x <= f < x + span(k);
                assert(self.is_live(x, k));
            }
            if self.frame_live(f) {
                let (x, k) = choose|x: u32, k: int| #[trigger]
                    self.is_live(x, k) && x <= f < x + span(k);
                assert(v.is_live(x, k));
            }
        }
        assert forall|f: int| b <= f < b + span(o) implies !#[trigger] self.frame_free(f) by {
            assert(!self.frame_managed(f));
        }
        self.lemma_count_of_one_more(v, b as int, o);
    }

    /// Block `base`, handed out, forgotten.
    pub open spec fn dropped(self, base: u32) -> BuddyView {
        BuddyView { live: self.live.remove(base), ..self }
    }

    /// A new block that is handed out.
    pub open spec fn with_live(self, base: u32, order: int) -> BuddyView {
        BuddyView { live: self.live.insert(base, order as u8), ..self }
    }

    /// The frames of a forgotten block are in no block.
    proof fn lemma_dropped(self, b: u32, o: int)
        requires
            self.wf(),
            self.is_live(b, o),
        ensures
            self.dropped(b).wf(),
            forall|x: u32, k: int| #[trigger]
                self.dropped(b).is_live(x, k) == (self.is_live(x, k) && x != b),
            forall|f: int| #[trigger] self.dropped(b).frame_free(f) == self.frame_free(f),
            forall|f: int| #[trigger]
                self.frame_live(f) == (self.dropped(b).frame_live(f) || b <= f < b + span(o)),
            forall|f: int| b <= f < b + span(o) ==> !#[trigger] self.dropped(b).frame_managed(f),
            self.dropped(b).free_count() == self.free_count(),
    {
        let v = self.dropped(b);
        assert(placed(b as int, o, self.nframes));
        assert forall|x: u32, k: int| #[trigger]
            v.is_live(x, k) == (self.is_live(x, k) && x != b) by {}
        assert forall|x: u32, k: int| #[trigger] v.is_free(x, k) == self.is_free(x, k) by {}
        assert(v.wf());
        assert forall|f: int| #[trigger] v.frame_free(f) == self.frame_free(f) by {
            if self.frame_free(f) {
                let (x, k) = choose|x: u32, k: int| #[trigger]
                    self.is_free(x, k) && x <= f < x + span(k);
                assert(v.is_free(x, k));
            }
            if v.frame_free(f) {
                let (x, k) = choose|x: u32, k: int| #[trigger]
                    v.is_free(x, k) && x <= f < x + span(k);
                assert(self.is_free(x, k));
            }
        }
        assert(v.free_set() =~= self.free_set());
        assert forall|f: int| #[trigger]
            self.frame_live(f) == (v.frame_live(f) || b <= f < b + span(o)) by {
            if self.frame_live(f) {
                let (x, k) = choose|x: u32, k: int| #[trigger]
                    self.is_live(x, k) && x <= f < x + span(k);
                if x != b {
                    assert(v.is_live(x, k));
                }
            }
            if v.frame_live(f) {
                let (x, k) = choose|x: u32, k: int| #[trigger]
                    v.is_live(x, k) && x <= f < x + span(k);
                assert(self.is_live(x, k));
            }
        }
        assert forall|f: int| b <= f < b + span(o) implies !#[trigger] v.frame_managed(f) by {
            if v.frame_free(f) {
                let (x, k) = choose|x: u32, k: int| #[trigger]
                    v.is_free(x, k) && x <= f < x + span(k);
                assert(self.is_free(x, k));
                assert(apart(x as int, k, b as int, o));
            }
            if v.frame_live(f) {
                let (x, k) = choose|x: u32, k: int| #[trigger]
                    v.is_live(x, k) && x <= f < x + span(k);
                assert(self.is_live(x, k));
                assert(apart(x as int, k, b as int, o));
            }
        }
    }

    /// A new block, handed out, made of frames that no block holds.
    proof fn lemma_with_live(self, b: u32, o: int)
        requires
            self.wf(),
            placed(b as int, o, self.nframes),
            forall|f: int| b <= f < b + span(o) ==> !#[trigger] self.frame_managed(f),
        ensures
            self.with_live(b, o).wf(),
            forall|x: u32, k: int| #[trigger]
                self.with_live(b, o).is_live(x, k) == (self.is_live(x, k) || (x == b && k == o)),
            forall|f: int| #[trigger] self.with_live(b, o).frame_free(f) == self.frame_free(f),
            forall|f: int| #[trigger]
                self.with_live(b, o).frame_live(f) == (self.frame_live(f) || b <= f < b + span(
                    o,
                )),
            self.with_live(b, o).free_count() == self.free_count(),
    {
        let v = self.with_live(b, o);
        // As a free block, then handed out, it is the same.
        self.lemma_with_block(b, o);
        let w = self.with_block(b, o);
        assert(w.is_free(b, o));
        w.lemma_taken(b, o);
        let list = self.lists[o];
        assert(!self.is_free(b, o)) by {
            lemma_span(o);
            if self.is_free(b, o) {
                assert(self.frame_free(b as int));
                assert(self.frame_managed(b as int));
            }
        }
        assert(front(list, b).index_of(b) == 0) by {
            assert(front(list, b)[0] == b);
            lemma_front(list, b);
        }
        assert(without(front(list, b), b) =~= list);
        assert(w.taken(b, o) =~= v) by {
            assert(w.taken(b, o).lists =~= self.lists);
        }
        assert forall|f: int| #[trigger] v.frame_free(f) == self.frame_free(f) by {
            assert(w.frame_free(f) == (self.frame_free(f) || b <= f < b + span(o)));
            assert(w.frame_free(f) == (v.frame_free(f) || b <= f < b + span(o)));
            if b <= f < b + span(o) {
                assert(!self.frame_managed(f));
            }
        }
        assert forall|f: int| #[trigger]
            v.frame_live(f) == (self.frame_live(f) || b <= f < b + span(o)) by {
            assert(w.frame_live(f) == self.frame_live(f));
        }
    }

    /// Giving a block back.
    pub proof fn lemma_given(self, b: u32)
        requires
            self.wf(),
            self.live.contains_key(b),
        ensures
            self.given(b).wf(),
            self.given(b).is_free(b, self.live[b] as int),
            forall|x: u32, k: int| #[trigger]
                self.given(b).is_free(x, k) == (self.is_free(x, k) || (x == b && k
                    == self.live[b])),
            forall|f: int| #[trigger]
                self.given(b).frame_managed(f) == self.frame_managed(f),
            self.given(b).free_count() == self.free_count() + span(self.live[b] as int),
    {
        let o = self.live[b] as int;
        assert(self.is_live(b, o));
        let d = self.dropped(b);
        self.lemma_dropped(b, o);
        d.lemma_with_block(b, o);
        let v = self.given(b);
        assert(v =~= d.with_block(b, o));
        assert forall|x: u32, k: int| #[trigger]
            v.is_free(x, k) == (self.is_free(x, k) || (x == b && k == o)) by {
            assert(d.is_free(x, k) == self.is_free(x, k));
        }
        assert forall|f: int| #[trigger] v.frame_managed(f) == self.frame_managed(f) by {
            assert(v.frame_free(f) == (d.frame_free(f) || b <= f < b + span(o)));
            assert(v.frame_live(f) == d.frame_live(f));
            assert(d.frame_free(f) == self.frame_free(f));
            assert(self.frame_live(f) == (d.frame_live(f) || b <= f < b + span(o)));
        }
    }

    /// Halving a block that is handed out.
    pub proof fn lemma_halved(self, b: u32)
        requires
            self.wf(),
            self.live.contains_key(b),
            self.live[b] > 0,
        ensures
            self.halved(b).wf(),
            self.halved(b).is_live(b, self.live[b] - 1),
            b + span(self.live[b] - 1) <= u32::MAX,
            forall|x: u32, k: int| #[trigger]
                self.halved(b).is_free(x, k) == (self.is_free(x, k) || (x == b + span(
                    self.live[b] - 1,
                ) && k == self.live[b] - 1)),
            forall|x: u32, k: int| #[trigger]
                self.halved(b).is_live(x, k) == ((self.is_live(x, k) && x != b) || (x == b && k
                    == self.live[b] - 1)),
            forall|f: int| #[trigger]
                self.halved(b).frame_managed(f) == self.frame_managed(f),
            self.halved(b).free_count() == self.free_count() + span(self.live[b] - 1),
    {
        let o = self.live[b] as int;
        let k = o - 1;
        let s = span(k);
        let u = (b + s) as u32;
        assert(self.is_live(b, o));
        assert(placed(b as int, o, self.nframes));
        lemma_span(k);
        lemma_halves(b as int, k);
        let d = self.dropped(b);
        self.lemma_dropped(b, o);
        assert forall|f: int| b <= f < b + s implies !#[trigger] d.frame_managed(f) by {}
        d.lemma_with_live(b, k);
        let e = d.with_live(b, k);
        assert forall|f: int| u <= f < u + s implies !#[trigger] e.frame_managed(f) by {
            assert(!d.frame_managed(f));
            assert(e.frame_free(f) == d.frame_free(f));
            assert(e.frame_live(f) == (d.frame_live(f) || b <= f < b + s));
        }
        e.lemma_with_block(u, k);
        let v = self.halved(b);
        assert(v =~= e.with_block(u, k)) by {
            assert(self.live.remove(b).insert(b, k as u8) =~= self.live.insert(b, k as u8));
        }
        assert(v.free_count() == e.free_count() + s);
        assert(e.free_count() == d.free_count());
        assert forall|x: u32, j: int| #[trigger]
            v.is_free(x, j) == (self.is_free(x, j) || (x == b + s && j == k)) by {
            assert(e.is_free(x, j) == self.is_free(x, j));
        }
        assert forall|x: u32, j: int| #[trigger]
            v.is_live(x, j) == ((self.is_live(x, j) && x != b) || (x == b && j == k)) by {
            assert(e.is_live(x, j) == (d.is_live(x, j) || (x == b && j == k)));
            assert(d.is_live(x, j) == (self.is_live(x, j) && x != b));
        }
        assert forall|f: int| #[trigger] v.frame_managed(f) == self.frame_managed(f) by {
            assert(v.frame_free(f) == (e.frame_free(f) || u <= f < u + s));
            assert(v.frame_live(f) == e.frame_live(f));
            assert(e.frame_free(f) == d.frame_free(f));
            assert(e.frame_live(f) == (d.frame_live(f) || b <= f < b + s));
            assert(d.frame_free(f) == self.frame_free(f));
            assert(self.frame_live(f) == (d.frame_live(f) || b <= f < b + span(o)));
        }
    }

    /// Joining a block that is handed out with its free buddy.
    pub proof fn lemma_joined(self, b: u32)
        requires
            self.wf(),
            self.live.contains_key(b),
            self.live[b] < ORDERS - 1,
            self.is_free(buddy_of(b, self.live[b] as int), self.live[b] as int),
        ensures
            self.joined(b).wf(),
            self.joined(b).is_live(
                if buddy_of(b, self.live[b] as int) < b {
                    buddy_of(b, self.live[b] as int)
                } else {
                    b
                },
                self.live[b] + 1,
            ),
            forall|x: u32, k: int| #[trigger]
                self.joined(b).is_free(x, k) == (self.is_free(x, k) && !(x == buddy_of(
                    b,
                    self.live[b] as int,
                ) && k == self.live[b])),
            forall|f: int| #[trigger]
                self.joined(b).frame_managed(f) == self.frame_managed(f),
            self.joined(b).free_count() == self.free_count() - span(self.live[b] as int),
    {
        let o = self.live[b] as int;
        let c = buddy_of(b, o);
        let low = if c < b {
            c
        } else {
            b
        };
        let s = span(o);
        assert(self.is_live(b, o));
        assert(placed(b as int, o, self.nframes));
        assert(placed(c as int, o, self.nframes));
        lemma_span(o);
        lemma_buddy(b, o);
        let t = self.taken(c, o);
        self.lemma_taken(c, o);
        assert(t.is_live(b, o));
        let d = t.dropped(c);
        t.lemma_dropped(c, o);
        assert(d.is_live(b, o));
        let e = d.dropped(b);
        d.lemma_dropped(b, o);
        assert forall|f: int| low <= f < low + span(o + 1) implies !#[trigger] e.frame_managed(
            f,
        ) by {
            if c <= f < c + s {
                assert(!d.frame_managed(f));
                assert(e.frame_free(f) == d.frame_free(f));
                assert(d.frame_live(f) == (e.frame_live(f) || b <= f < b + s));
            }
        }
        e.lemma_with_live(low, o + 1);
        let v = self.joined(b);
        assert(e.with_live(low, o + 1) =~= v) by {
            assert(!self.live.contains_key(c)) by {
                if self.live.contains_key(c) {
                    assert(self.is_live(c, self.live[c] as int));
                    lemma_span(self.live[c] as int);
                    assert(apart(c as int, o, c as int, self.live[c] as int));
                }
            }
            assert(self.live.insert(c, o as u8).remove(c).remove(b) =~= self.live.remove(b));
        }
        assert forall|x: u32, k: int| #[trigger]
            v.is_free(x, k) == (self.is_free(x, k) && !(x == c && k == o)) by {
            assert(t.is_free(x, k) == v.is_free(x, k));
        }
        assert forall|f: int| #[trigger] v.frame_managed(f) == self.frame_managed(f) by {
            assert(v.frame_free(f) == e.frame_free(f));
            assert(v.frame_live(f) == (e.frame_live(f) || low <= f < low + span(o + 1)));
            assert(e.frame_free(f) == d.frame_free(f));
            assert(d.frame_live(f) == (e.frame_live(f) || b <= f < b + s));
            assert(d.frame_free(f) == t.frame_free(f));
            assert(t.frame_live(f) == (d.frame_live(f) || c <= f < c + s));
            assert(self.frame_free(f) == (t.frame_free(f) || c <= f < c + s));
            assert(t.frame_live(f) == (self.frame_live(f) || c <= f < c + s));
        }
    }

    /// Halfway through handing out a block: the first block of order `found` is halved down to
    /// order `o`.
    pub open spec fn halving(self, found: int, o: int) -> BuddyView {
        let base = self.lists[found][0];
        BuddyView {
            lists: Seq::new(
                self.lists.len(),
                |k: int|
                    if k == found {
                        self.lists[k].drop_first()
                    } else if o <= k < found {
                        front(self.lists[k], (base + span(k)) as u32)
                    } else {
                        self.lists[k]
                    },
            ),
            live: self.live.insert(base, o as u8),
            ..self
        }
    }

    /// Halving starts with the block itself.
    pub proof fn lemma_halving_starts(self, found: int)
        requires
            self.wf(),
            0 <= found < ORDERS,
            self.lists[found].len() > 0,
        ensures
            self.is_free(self.lists[found][0], found),
            self.halving(found, found) == self.taken(self.lists[found][0], found),
    {
        let s = self.lists[found];
        assert(s.index_of(s[0]) == 0);
        assert(without(s, s[0]) =~= s.drop_first());
        assert(self.halving(found, found).lists =~= self.taken(s[0], found).lists);
    }

    /// And goes on by halving.
    pub proof fn lemma_halving_goes_on(self, found: int, o: int)
        requires
            self.wf(),
            0 < o <= found < ORDERS,
            self.lists[found].len() > 0,
        ensures
            self.halving(found, o - 1) == self.halving(found, o).halved(self.lists[found][0]),
    {
        let base = self.lists[found][0];
        let a = self.halving(found, o - 1);
        let b = self.halving(found, o).halved(base);
        assert(a.lists =~= b.lists);
        assert(a.live =~= b.live);
    }

    /// The first fit is the first order with a free block.
    pub proof fn lemma_first_fit(self, order: int, o: int)
        requires
            self.lists.len() == ORDERS,
            0 <= order <= o <= ORDERS,
            forall|k: int| order <= k < o ==> (#[trigger] self.lists[k]).len() == 0,
            o < ORDERS ==> self.lists[o].len() > 0,
        ensures
            self.first_fit(order) == o,
        decreases o - order,
    {
        if order < o {
            assert(self.lists[order].len() == 0);
            self.lemma_first_fit(order + 1, o);
        }
    }
}

/// How `largest_order` is found.
pub proof fn lemma_largest_order(base: int, end: int, o: int, n: int)
    requires
        0 <= o <= n,
        base % span(o) == 0,
        base + span(o) <= end,
        forall|k: int|
            o < k <= n ==> !(base % #[trigger] span(k) == 0 && base + span(k) <= end),
    ensures
        largest_order(base, end, n) == o,
    decreases n,
{
    if o < n {
        assert(!(base % span(n) == 0 && base + span(n) <= end));
        lemma_largest_order(base, end, o, n - 1);
    }
}

/// Trailing zeros give the largest order of a block that can start here.
pub proof fn lemma_alignment(base: u32, k: int)
    requires
        base != 0,
        0 <= k < ORDERS,
    ensures
        (base as int % span(k) == 0) == (k <= vstd::std_specs::bits::u32_trailing_zeros(base)),
{
    let z = vstd::std_specs::bits::u32_trailing_zeros(base);
    vstd::std_specs::bits::axiom_u32_trailing_zeros(base);
    lemma_span_fits(k);
    vstd::bits::lemma_u32_low_bits_mask_is_mod(base, k as nat);
    let k32 = k as u32;
    let m = (span(k) - 1) as u32;
    let c = (32 - z) as u32;
    let s = 1u32 << k32;
    assert(vstd::bits::low_bits_mask(k as nat) == m);
    assert(k32 <= z ==> base & m == 0) by (bit_vector)
        requires
            base != 0,
            z < 32,
            k32 < 19,
            c + z == 32,
            base << c == 0,
            s == 1u32 << k32,
            m + 1 == s,
    ;
    assert(k32 > z ==> base & m != 0) by (bit_vector)
        requires
            z < 32,
            k32 < 19,
            (base >> z) & 1 == 1,
            s == 1u32 << k32,
            m + 1 == s,
    ;
}

/// Leading zeros give the largest order of a block that has room.
pub proof fn lemma_room(n: u32, k: int)
    requires
        n != 0,
        0 <= k < ORDERS,
    ensures
        (span(k) <= n) == (k <= 31 - vstd::std_specs::bits::u32_leading_zeros(n)),
{
    let z = vstd::std_specs::bits::u32_leading_zeros(n);
    vstd::std_specs::bits::axiom_u32_leading_zeros(n);
    lemma_span_fits(k);
    let k32 = k as u32;
    let s = 1u32 << k32;
    let c = (31 - z) as u32;
    let d = (32 - z) as u32;
    assert(k32 <= 31 - z ==> s <= n) by (bit_vector)
        requires
            z < 32,
            k32 < 19,
            c + z == 31,
            (n >> c) & 1 != 0,
            s == 1u32 << k32,
    ;
    assert(k32 > 31 - z ==> s > n) by (bit_vector)
        requires
            z < 32,
            k32 < 19,
            d + z == 32,
            n >> d == 0,
            s == 1u32 << k32,
    ;
}

} // verus!
