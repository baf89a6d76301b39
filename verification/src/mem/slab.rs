//! A cache of fixed-size object slots over a byte region that the caller provides.
//!
//! The free slots form a list that runs through the slots themselves: the first bytes of a free
//! slot hold the offset of the next one. The cache holds only the head and the counts, so the
//! region is passed in with each call. Slots are named by their byte offset.

use crate::bytes;
use vstd::prelude::*;

verus! {

/// The link of the last free slot.
pub const NIL_OFF: usize = usize::MAX;

/// A cache of fixed-size, fixed-alignment object slots.
pub struct SlabCache {
    slot_size: usize,
    capacity: usize,
    free_head: usize,
    free_count: usize,
    free: Ghost<Seq<usize>>,
}

/// The state of a [`SlabCache`].
#[verifier::ext_equal]
pub struct SlabView {
    pub slot_size: int,
    pub capacity: int,
    /// The offsets of the free slots, next to be handed out first.
    pub free: Seq<usize>,
}

/// The size of a link.
pub open spec fn link_size_spec() -> int {
    if usize::MAX == 0xffff_ffff {
        4
    } else {
        8
    }
}

/// `x` rounded up to a multiple of `a`.
pub open spec fn rounded_up(x: int, a: int) -> int {
    ((x + a - 1) / a) * a
}

/// The larger of two numbers.
pub open spec fn larger(a: int, b: int) -> int {
    if a < b {
        b
    } else {
        a
    }
}

/// The `i`th free slot, or the end of the list.
spec fn nth(s: Seq<usize>, i: int) -> usize {
    if 0 <= i < s.len() {
        s[i]
    } else {
        NIL_OFF
    }
}

/// Free slot `i` holds the offset of the next one.
spec fn slot_links(mem: Seq<u8>, free: Seq<usize>, i: int) -> bool {
    bytes::le_at(mem, free[i] as int, link_size_spec()) == nth(free, i + 1)
}

impl SlabView {
    /// `off` is the offset of a slot.
    pub open spec fn is_slot(self, off: int) -> bool {
        off % self.slot_size == 0 && 0 <= off / self.slot_size < self.capacity
    }

    /// The free slots are slots, each listed once.
    pub open spec fn wf(self) -> bool {
        &&& self.slot_size >= link_size_spec()
        &&& self.capacity >= 0
        &&& self.free.no_duplicates()
        &&& forall|i: int|
            0 <= i < self.free.len() ==> self.is_slot(#[trigger] self.free[i] as int)
    }

    /// The cache made for such objects over such a region, before it is initialised.
    pub open spec fn made_for(obj_size: int, align: int, region_len: int) -> SlabView {
        let slot = rounded_up(
            larger(obj_size, link_size_spec()),
            larger(align, link_size_spec()),
        );
        SlabView { slot_size: slot, capacity: region_len / slot, free: Seq::empty() }
    }

    /// The slot to be handed out next, or the end of the list.
    pub open spec fn next_free(self) -> usize {
        if self.free.len() > 0 {
            self.free[0]
        } else {
            NIL_OFF
        }
    }

    /// Every slot free, in the order of their offsets.
    pub open spec fn all_free(self) -> SlabView {
        SlabView {
            free: Seq::new(self.capacity as nat, |i: int| (i * self.slot_size) as usize),
            ..self
        }
    }

    /// Byte `k` lies in the link of a free slot.
    pub open spec fn in_free_link(self, k: int) -> bool {
        exists|i: int|
            0 <= i < self.free.len() && (#[trigger] self.free[i]) <= k < self.free[i]
                + link_size_spec()
    }
}

impl View for SlabCache {
    type V = SlabView;

    closed spec fn view(&self) -> SlabView {
        SlabView {
            slot_size: self.slot_size as int,
            capacity: self.capacity as int,
            free: self.free@,
        }
    }
}

proof fn lemma_link_radix()
    ensures
        bytes::radix(link_size_spec() as nat) == usize::MAX + 1,
{
    bytes::lemma_radix_values();
}

fn link_size() -> (n: usize)
    ensures
        n == link_size_spec(),
{
    broadcast use vstd::layout::layout_of_primitives;

    core::mem::size_of::<usize>()
}

/// Two slots share no byte, and each lies inside the region.
pub proof fn law_slots_are_apart(v: SlabView, a: int, b: int)
    requires
        v.slot_size > 0,
        v.is_slot(a),
        v.is_slot(b),
    ensures
        0 <= a,
        a + v.slot_size <= v.capacity * v.slot_size,
        a != b ==> a + v.slot_size <= b || b + v.slot_size <= a,
{
    let s = v.slot_size;
    let i = a / s;
    let j = b / s;
    assert(0 <= a && a + s <= v.capacity * s && (a != b ==> a + s <= b || b + s <= a))
        by (nonlinear_arith)
        requires
            s > 0,
            a % s == 0,
            b % s == 0,
            i == a / s,
            j == b / s,
            0 <= i < v.capacity,
            0 <= j,
    {
        assert(a == s * i);
        assert(b == s * j);
        assert(s * i + s == s * (i + 1));
        assert(s * (i + 1) <= s * v.capacity);
        if i < j {
            assert(s * (i + 1) <= s * j);
        } else if j < i {
            assert(s * (j + 1) <= s * i);
        }
    }
}

/// All slots free is a sound state.
proof fn lemma_all_free_is_wf(v: SlabView, len: int)
    requires
        v.wf(),
        v.capacity * v.slot_size <= len <= usize::MAX,
    ensures
        v.all_free().wf(),
{
    let s = v.slot_size;
    let w = v.all_free();
    assert forall|i: int| 0 <= i < w.free.len() implies w.is_slot(#[trigger] w.free[i] as int)
        && w.free[i] == i * s by {
        assert(0 <= i * s <= v.capacity * s && (i * s) % s == 0 && (i * s) / s == i)
            by (nonlinear_arith)
            requires
                0 <= i < v.capacity,
                s > 0,
        {
            vstd::arithmetic::div_mod::lemma_fundamental_div_mod_converse(i * s, s, i, 0);
        }
    }
    assert forall|i: int, j: int| 0 <= i < j < w.free.len() implies w.free[i] != w.free[j] by {
        assert(i * s < j * s) by (nonlinear_arith)
            requires
                i < j,
                s > 0,
        ;
        assert(w.free[i] == i * s);
        assert(w.free[j] == j * s);
    }
}

/// While a slot is not free, fewer are free than there are.
proof fn lemma_free_is_bounded(v: SlabView, off: usize)
    requires
        v.wf(),
        v.is_slot(off as int),
        !v.free.contains(off),
    ensures
        v.free.len() < v.capacity,
{
    let all = v.free.push(off);
    let numbers = Seq::new(all.len(), |i: int| all[i] as int / v.slot_size);
    assert forall|i: int| 0 <= i < all.len() implies v.is_slot(#[trigger] all[i] as int) by {
        if i < v.free.len() {
            assert(v.is_slot(v.free[i] as int));
        }
    }
    assert forall|i: int, j: int| 0 <= i < j < numbers.len() implies numbers[i] != numbers[j] by {
        let a = all[i] as int;
        let b = all[j] as int;
        let s = v.slot_size;
        assert(v.is_slot(all[i] as int) && v.is_slot(all[j] as int));
        assert(all[i] != all[j]) by {
            assert(all[i] == v.free[i]);
            if j < v.free.len() {
                assert(all[j] == v.free[j]);
            }
        }
        assert(a / s == b / s ==> a == b) by (nonlinear_arith)
            requires
                s > 0,
                a % s == 0,
                b % s == 0,
        ;
    }
    assert(numbers.no_duplicates());
    let range = vstd::set_lib::set_int_range(0, v.capacity);
    vstd::set_lib::lemma_int_range(0, v.capacity);
    numbers.unique_seq_to_set();
    assert forall|i: int| 0 <= i < numbers.len() implies 0 <= #[trigger] numbers[i]
        < v.capacity by {
        assert(v.is_slot(all[i] as int));
    }
    assert(numbers.to_set().subset_of(range));
    vstd::set_lib::lemma_len_subset(numbers.to_set(), range);
}

impl SlabCache {
    /// The region `mem` holds the list of free slots.
    pub closed spec fn links_in(&self, mem: Seq<u8>) -> bool {
        &&& self.free_head == nth(self.free@, 0)
        &&& forall|i: int|
            0 <= i < self.free@.len() ==> #[trigger] slot_links(mem, self.free@, i)
    }

    /// The number of free slots is known.
    pub closed spec fn counted(&self) -> bool {
        self.free_count == self.free@.len()
    }

    /// The cache works on the region `mem`.
    pub open spec fn wf(&self, mem: Seq<u8>) -> bool {
        &&& self@.wf()
        &&& self.counted()
        &&& self@.capacity * self@.slot_size <= mem.len()
        &&& self.links_in(mem)
    }

    /// A cache for objects of `obj_size` bytes, aligned to the power of two `align`, over a region
    /// of `region_len` bytes. A slot is large enough for the link, and a multiple of the
    /// alignment. No slot is free until the cache is initialised, whatever the region holds.
    #[must_use]
    pub fn new(obj_size: usize, align: usize, region_len: usize) -> (cache: Self)
        requires
            vstd::arithmetic::power2::is_pow2(align as int),
            larger(obj_size as int, link_size_spec()) + larger(align as int, link_size_spec()) - 1
                <= usize::MAX,
        ensures
            cache@ == SlabView::made_for(obj_size as int, align as int, region_len as int),
            cache@.wf(),
            cache.counted(),
            cache@.capacity * cache@.slot_size <= region_len,
            forall|mem: Seq<u8>|
                cache@.capacity * cache@.slot_size <= mem.len() ==> #[trigger] cache.wf(mem),
    {
        let w: usize = link_size();
        let a: usize = if align < w {
            w
        } else {
            align
        };
        let x: usize = if obj_size < w {
            w
        } else {
            obj_size
        };
        let slot_size: usize = round_up(x, a);
        let capacity: usize = region_len / slot_size;
        proof {
            assert(region_len as int / slot_size as int >= 0 && (region_len as int
                / slot_size as int) * slot_size as int <= region_len) by (nonlinear_arith)
                requires
                    slot_size > 0,
            ;
        }
        SlabCache {
            slot_size,
            capacity,
            free_head: NIL_OFF,
            free_count: 0,
            free: Ghost(Seq::empty()),
        }
    }

    /// The size of one slot.
    #[must_use]
    pub fn slot_size(&self) -> (n: usize)
        ensures
            n == self@.slot_size,
    {
        self.slot_size
    }

    /// The number of slots in the region.
    #[must_use]
    pub fn capacity(&self) -> (n: usize)
        ensures
            n == self@.capacity,
    {
        self.capacity
    }

    /// The number of free slots.
    #[must_use]
    pub fn free_count(&self) -> (n: usize)
        requires
            self.counted(),
        ensures
            n == self@.free.len(),
    {
        self.free_count
    }

    /// Make every slot of the region free. Only the links are written.
    pub fn init(&mut self, mem: &mut [u8])
        requires
            old(self)@.wf(),
            old(self)@.capacity * old(self)@.slot_size <= old(mem)@.len(),
        ensures
            final(self)@ == old(self)@.all_free(),
            final(self).wf(final(mem)@),
            final(mem)@.len() == old(mem)@.len(),
            forall|k: int|
                0 <= k < final(mem)@.len() && !final(self)@.in_free_link(k)
                    ==> #[trigger] final(mem)@[k] == old(mem)@[k],
    {
        let len: usize = mem.len();
        let w: usize = link_size();
        self.free_head = NIL_OFF;
        self.free_count = 0;
        self.free = Ghost(Seq::empty());
        let ghost slot = self.slot_size as int;
        let ghost all = self@.all_free().free;
        // From the last slot to the first, so that the list runs from the first to the last.
        let mut i: usize = self.capacity;
        proof {
            assert(all.skip(i as int) =~= Seq::empty());
        }
        while i > 0
            invariant
                i <= self.capacity,
                len == mem@.len(),
                mem@.len() == old(mem)@.len(),
                w == link_size_spec(),
                slot == self.slot_size,
                self.slot_size == old(self).slot_size,
                self.capacity == old(self).capacity,
                slot >= w,
                self.capacity * slot <= len,
                all == self@.all_free().free,
                all.len() == self.capacity,
                self.free@ == all.skip(i as int),
                self.free_head == nth(self.free@, 0),
                self.free_count == self.capacity - i,
                forall|k: int|
                    0 <= k < self.free@.len() ==> #[trigger] slot_links(mem@, self.free@, k),
                forall|k: int|
                    0 <= k < mem@.len() && !self@.in_free_link(k) ==> #[trigger] mem@[k] == old(
                        mem,
                    )@[k],
            decreases i,
        {
            i = i - 1;
            let ghost mem0 = mem@;
            let ghost free0 = self.free@;
            let ghost v0 = self@;
            proof {
                assert(0 <= i * slot && i * slot + slot <= self.capacity * slot)
                    by (nonlinear_arith)
                    requires
                        0 <= i < self.capacity,
                        slot >= 0,
                ;
            }
            let off: usize = i * self.slot_size;
            bytes::put_le(mem, off, self.free_head as u64, w);
            self.free_head = off;
            self.free_count = self.free_count + 1;
            self.free = Ghost(all.skip(i as int));
            proof {
                let head = nth(free0, 0);
                lemma_link_radix();
                bytes::law_le_patch_reads_back(mem0, off as int, head as nat, w as nat);
                bytes::lemma_le_bytes_len(head as nat, w as nat);
                assert(all[i as int] == off);
                assert(self.free@[0] == off);
                assert(free0 =~= self.free@.drop_first());
                assert forall|k: int| 0 <= k < self.free@.len() implies #[trigger] slot_links(
                    mem@,
                    self.free@,
                    k,
                ) by {
                    if k == 0 {
                        assert(nth(self.free@, 1) == nth(free0, 0));
                    } else {
                        assert(slot_links(mem0, free0, k - 1));
                        assert(nth(self.free@, k + 1) == nth(free0, k));
                        assert(self.free@[k] == all[i + k]);
                        assert((i + k) * slot == i * slot + k * slot && k * slot >= slot && (i + k)
                            * slot + slot <= self.capacity * slot) by (nonlinear_arith)
                            requires
                                k >= 1,
                                slot >= 0,
                                i + k < self.capacity,
                        ;
                        assert(off + w <= self.free@[k]);
                        assert(bytes::le_at(mem@, self.free@[k] as int, w as int)
                            == bytes::le_at(mem0, self.free@[k] as int, w as int));
                    }
                }
                assert forall|k: int| 0 <= k < mem@.len() && !self@.in_free_link(k) implies
                    #[trigger] mem@[k] == old(mem)@[k] by {
                    assert(!(off <= k < off + w)) by {
                        assert(self@.free[0] == off);
                    }
                    assert(mem@[k] == mem0[k]);
                    if v0.in_free_link(k) {
                        let j = choose|j: int|
                            0 <= j < v0.free.len() && (#[trigger] v0.free[j]) <= k < v0.free[j]
                                + link_size_spec();
                        assert(self@.free[j + 1] == v0.free[j]);
                    }
                }
            }
        }
        proof {
            assert(all.skip(0) =~= all);
            lemma_all_free_is_wf(old(self)@, len as int);
        }
    }

    /// Hand out a free slot: its offset, or `None` when there is none.
    pub fn allocate(&mut self, mem: &[u8]) -> (r: Option<usize>)
        requires
            old(self).wf(mem@),
        ensures
            final(self).wf(mem@),
            old(self)@.free.len() == 0 ==> r is None && final(self)@ == old(self)@,
            old(self)@.free.len() > 0 ==> {
                &&& r == Some(old(self)@.free[0])
                &&& final(self)@ == (SlabView {
                    free: old(self)@.free.drop_first(),
                    ..old(self)@
                })
            },
    {
        let _len: usize = mem.len();
        if self.free_head == NIL_OFF {
            proof {
                if self.free@.len() > 0 {
                    self.lemma_slot_is_inside(mem@, self.free@[0] as int);
                }
            }
            return None;
        }
        let off: usize = self.free_head;
        let w: usize = link_size();
        let ghost free0 = self.free@;
        proof {
            self.lemma_slot_is_inside(mem@, off as int);
            assert(slot_links(mem@, free0, 0));
            lemma_link_radix();
        }
        self.free_head = bytes::get_le(mem, off, w) as usize;
        self.free_count = self.free_count - 1;
        self.free = Ghost(free0.drop_first());
        proof {
            assert(nth(self.free@, 0) == nth(free0, 1));
            assert forall|k: int| 0 <= k < self.free@.len() implies #[trigger] slot_links(
                mem@,
                self.free@,
                k,
            ) by {
                assert(slot_links(mem@, free0, k + 1));
                assert(nth(self.free@, k + 1) == nth(free0, k + 2));
            }
            assert forall|i: int| 0 <= i < self@.free.len() implies self@.is_slot(
                #[trigger] self@.free[i] as int,
            ) by {
                assert(old(self)@.is_slot(free0[i + 1] as int));
            }
        }
        Some(off)
    }

    /// Take back the slot at `off`, which must not be free. Only its link is written.
    pub fn free(&mut self, mem: &mut [u8], off: usize)
        requires
            old(self).wf(old(mem)@),
            old(self)@.is_slot(off as int),
            !old(self)@.free.contains(off),
        ensures
            final(self).wf(final(mem)@),
            final(self)@ == (SlabView { free: seq![off] + old(self)@.free, ..old(self)@ }),
            final(mem)@ == bytes::patched(
                old(mem)@,
                off as int,
                bytes::le_bytes(old(self)@.next_free() as nat, link_size_spec() as nat),
            ),
    {
        let len: usize = mem.len();
        let w: usize = link_size();
        let ghost mem0 = mem@;
        let ghost free0 = self.free@;
        let ghost v0 = self@;
        proof {
            self.lemma_slot_is_inside(mem0, off as int);
            lemma_free_is_bounded(v0, off);
            lemma_link_radix();
            bytes::law_le_patch_reads_back(mem0, off as int, self.free_head as nat, w as nat);
        }
        bytes::put_le(mem, off, self.free_head as u64, w);
        self.free_head = off;
        self.free_count = self.free_count + 1;
        self.free = Ghost(seq![off] + free0);
        proof {
            let free1 = self.free@;
            assert forall|k: int| 0 <= k < free1.len() implies #[trigger] slot_links(
                mem@,
                free1,
                k,
            ) by {
                if k == 0 {
                    assert(nth(free1, 1) == nth(free0, 0));
                } else {
                    assert(free1[k] == free0[k - 1]);
                    assert(slot_links(mem0, free0, k - 1));
                    assert(nth(free1, k + 1) == nth(free0, k));
                    assert(v0.is_slot(free0[k - 1] as int));
                    law_slots_are_apart(v0, free0[k - 1] as int, off as int);
                    law_slots_are_apart(v0, off as int, free0[k - 1] as int);
                    assert(bytes::le_at(mem@, free1[k] as int, w as int) == bytes::le_at(
                        mem0,
                        free1[k] as int,
                        w as int,
                    ));
                }
            }
            assert forall|i: int| 0 <= i < free1.len() implies self@.is_slot(
                #[trigger] free1[i] as int,
            ) by {
                if i > 0 {
                    assert(v0.is_slot(free0[i - 1] as int));
                }
            }
            assert(free1.no_duplicates());
        }
    }

    /// A slot lies inside the region, and short of the end-of-list mark.
    proof fn lemma_slot_is_inside(&self, mem: Seq<u8>, off: int)
        requires
            self@.wf(),
            self@.capacity * self@.slot_size <= mem.len(),
            mem.len() <= usize::MAX,
            self@.is_slot(off),
        ensures
            0 <= off,
            off + link_size_spec() <= mem.len(),
            off < NIL_OFF,
    {
        law_slots_are_apart(self@, off, off);
    }
}

fn round_up(x: usize, a: usize) -> (r: usize)
    requires
        0 < a,
        x + a - 1 <= usize::MAX,
    ensures
        r == rounded_up(x as int, a as int),
        x <= r < x + a,
{
    let y: usize = x + (a - 1);
    proof {
        let q = y as int / a as int;
        assert(q * a == y - y as int % a as int && 0 <= y as int % (a as int) < a)
            by (nonlinear_arith)
            requires
                a > 0,
                q == y as int / a as int,
        ;
    }
    y - y % a
}

/// The bytes of a slot that is handed out are the user's: whatever they write there, the cache
/// still works.
pub proof fn law_objects_are_the_users(cache: SlabCache, before: Seq<u8>, after: Seq<u8>)
    requires
        cache.wf(before),
        before.len() == after.len(),
        before.len() <= usize::MAX,
        forall|k: int|
            0 <= k < before.len() && cache@.in_free_link(k) ==> #[trigger] after[k] == before[k],
    ensures
        cache.wf(after),
{
    let free = cache@.free;
    let w = link_size_spec();
    assert forall|i: int| 0 <= i < free.len() implies #[trigger] slot_links(after, free, i) by {
        assert(slot_links(before, free, i));
        let off = free[i] as int;
        assert(cache@.is_slot(off));
        law_slots_are_apart(cache@, off, off);
        assert forall|k: int| off <= k < off + w implies after[k] == before[k] by {
            assert(cache@.in_free_link(k));
        }
        assert(after.subrange(off, off + w) =~= before.subrange(off, off + w));
    }
}

/// A slot that is handed out lies apart from every free slot.
pub proof fn law_handed_out_is_not_free(v: SlabView, k: int)
    requires
        v.wf(),
        v.free.len() > 0,
        0 < k < v.free.len(),
    ensures
        v.free[0] + v.slot_size <= v.free[k] || v.free[k] + v.slot_size <= v.free[0],
{
    assert(v.is_slot(v.free[0] as int));
    assert(v.is_slot(v.free[k] as int));
    law_slots_are_apart(v, v.free[0] as int, v.free[k] as int);
}

/// Rounding up gives the next multiple.
pub proof fn law_rounding_up_is_tight(x: int, a: int)
    requires
        0 <= x,
        0 < a,
    ensures
        rounded_up(x, a) % a == 0,
        x <= rounded_up(x, a) < x + a,
{
    let q = (x + a - 1) / a;
    vstd::arithmetic::div_mod::lemma_fundamental_div_mod(x + a - 1, a);
    assert(q * a == a * q) by (nonlinear_arith);
    vstd::arithmetic::div_mod::lemma_mod_multiples_basic(q, a);
}

/// A slot holds an object and a link, starts where both may, and is no larger than it takes; there
/// are as many slots as the region has room for, and none of them is free before the cache is
/// initialised.
pub proof fn law_slots_fit_objects_and_region(obj_size: int, align: int, region_len: int)
    requires
        0 <= obj_size,
        0 < align,
        0 <= region_len,
    ensures
        ({
            let v = SlabView::made_for(obj_size, align, region_len);
            let word = if usize::MAX == 0xffff_ffff {
                4int
            } else {
                8
            };
            &&& v.slot_size >= obj_size
            &&& v.slot_size >= word
            &&& align >= word ==> v.slot_size % align == 0
            &&& align < word ==> v.slot_size % word == 0
            &&& obj_size >= word && align >= word ==> v.slot_size < obj_size + align
            &&& obj_size >= word && align < word ==> v.slot_size < obj_size + word
            &&& v.capacity * v.slot_size <= region_len
            &&& region_len < (v.capacity + 1) * v.slot_size
            &&& v.free.len() == 0
        }),
{
    let size = larger(obj_size, link_size_spec());
    let a = larger(align, link_size_spec());
    law_rounding_up_is_tight(size, a);
    let slot = rounded_up(size, a);
    vstd::arithmetic::div_mod::lemma_fundamental_div_mod(region_len, slot);
    let q = region_len / slot;
    assert(slot * q == q * slot && (q + 1) * slot == q * slot + slot) by (nonlinear_arith);
}

/// An initialised cache has every slot free, each at its multiple of the slot size, and hands out
/// the lowest first.
pub proof fn law_every_slot_starts_free(v: SlabView, i: int)
    requires
        0 <= i < v.capacity,
        0 < v.slot_size,
        v.capacity * v.slot_size <= usize::MAX,
    ensures
        v.all_free().free.len() == v.capacity,
        v.all_free().free[i] == i * v.slot_size,
        v.all_free().slot_size == v.slot_size,
        v.all_free().capacity == v.capacity,
        v.all_free().next_free() == 0,
        v.is_slot(i * v.slot_size),
{
    assert(0 <= i * v.slot_size <= v.capacity * v.slot_size) by (nonlinear_arith)
        requires
            0 <= i < v.capacity,
            0 < v.slot_size,
    ;
    assert(0 * v.slot_size == 0) by (nonlinear_arith);
    vstd::arithmetic::div_mod::lemma_mod_multiples_basic(i, v.slot_size);
    vstd::arithmetic::div_mod::lemma_div_multiples_vanish(i, v.slot_size);
    assert(v.slot_size * i == i * v.slot_size) by (nonlinear_arith);
}

} // verus!
