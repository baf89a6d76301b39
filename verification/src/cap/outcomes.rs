//! What each operation on a CSpace comes to, field by field: when it is let through, what the slots
//! hold then, and what stays as it was.

use crate::cap::cap::{CapType, RawCap};
use crate::cap::cspace::{CapError, Cptr, GrantMode};
use crate::cap::mdb;
use crate::cap::mdb::NIL;
use crate::cap::model;
use crate::cap::model::CSpaceView;
use crate::cap::rights::Rights;
use crate::cap::sched::Budget;
use vstd::prelude::*;

verus! {

/// Every slot but `d` holds in `w` what it holds in `v`, and so does everything beside the slots.
pub open spec fn same_but(v: CSpaceView, w: CSpaceView, d: int) -> bool {
    &&& w.slots.len() == v.slots.len()
    &&& forall|i: int| 0 <= i < v.slots.len() && i != d ==> #[trigger] w.slots[i] == v.slots[i]
    &&& w.next_obj == v.next_obj
    &&& w.zeroed == v.zeroed
}

/// Slot `c` is empty: nothing of what was there is left.
pub open spec fn cleared(v: CSpaceView, c: int) -> bool {
    &&& v.slots[c].cap.cap_type == CapType::Null
    &&& v.slots[c].cap.rights.bits == 0
    &&& v.slots[c].cap.objref == 0
    &&& v.slots[c].cap.size == 0
    &&& v.slots[c].cap.watermark == 0
    &&& v.slots[c].cap.aux == 0
    &&& v.slots[c].cap.badge == 0
    &&& v.slots[c].parent == NIL
}

/// A slot number resolves exactly if there is such a slot and it holds a capability.
pub proof fn law_resolving_finds_what_is_there(v: CSpaceView, c: Cptr)
    ensures
        (v.resolve_error(c) == Some(CapError::OutOfBounds)) == (c >= v.slots.len()),
        (v.resolve_error(c) == Some(CapError::EmptySlot)) == (c < v.slots.len()
            && v.slots[c as int].cap.cap_type == CapType::Null),
        (v.resolve_error(c) is None) == (c < v.slots.len() && v.slots[c as int].cap.cap_type
            != CapType::Null),
        v.cap(c as int) == v.slots[c as int].cap,
        mdb::live(v.slots, c as int) == (c < v.slots.len() && v.slots[c as int].cap.cap_type
            != CapType::Null),
{
}

/// A slot can be filled exactly if there is such a slot and it is empty.
pub proof fn law_only_empty_slots_are_filled(v: CSpaceView, d: Cptr)
    ensures
        (v.place_error(d) == Some(CapError::OutOfBounds)) == (d >= v.slots.len()),
        (v.place_error(d) == Some(CapError::SlotOccupied)) == (d < v.slots.len()
            && v.slots[d as int].cap.cap_type != CapType::Null),
        (v.place_error(d) is None) == (d < v.slots.len() && v.slots[d as int].cap.cap_type
            == CapType::Null),
        v.vacant(d as int) == (v.place_error(d) is None),
{
}

/// Filling a slot puts the record there as it is given, and emptying it leaves nothing of it; no
/// other slot changes.
pub proof fn law_a_slot_is_filled_alone(v: CSpaceView, d: int, cap: RawCap, parent: usize)
    requires
        0 <= d < v.slots.len(),
    ensures
        v.placed(d, cap, parent).slots[d].cap == cap,
        v.placed(d, cap, parent).slots[d].parent == parent,
        same_but(v, v.placed(d, cap, parent), d),
        cleared(v.vacated(d), d),
        same_but(v, v.vacated(d), d),
{
}

/// COPY needs a source that is there, is no `Untyped`, `Sched` or `Reply` and carries DERIVE, and an
/// empty slot to go to. What is wrong first is what is answered.
pub proof fn law_copy_is_refused_for_cause(v: CSpaceView, src: Cptr, dest: Cptr)
    ensures
        ({
            let s = v.slots[src as int].cap;
            let bound = s.cap_type == CapType::Untyped || s.cap_type == CapType::Sched
                || s.cap_type == CapType::Reply || s.rights.bits & 0x200 != 0x200;
            v.copy_error(src, dest) == (if src >= v.slots.len() {
                Some(CapError::OutOfBounds)
            } else if s.cap_type == CapType::Null {
                Some(CapError::EmptySlot)
            } else if bound {
                Some(CapError::InsufficientRights)
            } else if dest >= v.slots.len() {
                Some(CapError::OutOfBounds)
            } else if v.slots[dest as int].cap.cap_type != CapType::Null {
                Some(CapError::SlotOccupied)
            } else {
                None
            })
        }),
{
}

/// A copy is its source over again: type, rights, object, size, watermark, window and badge are the
/// same. It stands beside its source in the tree, or below it where that is a root. The source and
/// every other slot are as before, and no memory is cleared.
pub proof fn law_copy_duplicates_exactly(v: CSpaceView, src: Cptr, dest: Cptr)
    requires
        v.copy_error(src, dest) is None,
    ensures
        ({
            let after = v.copied(src, dest);
            let from = v.slots[src as int].cap;
            let to = after.slots[dest as int].cap;
            &&& src < v.slots.len() && dest < v.slots.len() && src != dest
            &&& to.cap_type == from.cap_type
            &&& to.rights.bits == from.rights.bits
            &&& to.objref == from.objref
            &&& to.size == from.size
            &&& to.watermark == from.watermark
            &&& to.aux == from.aux
            &&& to.badge == from.badge
            &&& after.slots[src as int] == v.slots[src as int]
            &&& after.slots[dest as int].parent == (if v.slots[src as int].parent == NIL {
                src
            } else {
                v.slots[src as int].parent
            })
            &&& same_but(v, after, dest as int)
        }),
{
}

/// MINT needs a source that is there, is no `Untyped`, `Sched` or `Reply`, carries DERIVE and every
/// right that is asked for, and an empty slot to go to. What is wrong first is what is answered.
pub proof fn law_mint_is_refused_for_cause(v: CSpaceView, src: Cptr, dest: Cptr, rights: Rights)
    ensures
        ({
            let s = v.slots[src as int].cap;
            let bound = s.cap_type == CapType::Untyped || s.cap_type == CapType::Sched
                || s.cap_type == CapType::Reply || s.rights.bits & 0x200 != 0x200 || s.rights.bits
                & rights.bits != rights.bits;
            v.mint_error(src, dest, rights) == (if src >= v.slots.len() {
                Some(CapError::OutOfBounds)
            } else if s.cap_type == CapType::Null {
                Some(CapError::EmptySlot)
            } else if bound {
                Some(CapError::InsufficientRights)
            } else if dest >= v.slots.len() {
                Some(CapError::OutOfBounds)
            } else if v.slots[dest as int].cap.cap_type != CapType::Null {
                Some(CapError::SlotOccupied)
            } else {
                None
            })
        }),
{
}

/// A minted capability has the rights and the badge that were asked for and is otherwise its source
/// over again, below which it stands in the tree. The source and every other slot are as before, and
/// no memory is cleared.
pub proof fn law_mint_changes_rights_and_badge_alone(
    v: CSpaceView,
    src: Cptr,
    dest: Cptr,
    rights: Rights,
    badge: u64,
)
    requires
        v.mint_error(src, dest, rights) is None,
    ensures
        ({
            let after = v.minted(src, dest, rights, badge);
            let from = v.slots[src as int].cap;
            let to = after.slots[dest as int].cap;
            &&& src < v.slots.len() && dest < v.slots.len() && src != dest
            &&& to.rights.bits == rights.bits
            &&& to.badge == badge
            &&& to.cap_type == from.cap_type
            &&& to.objref == from.objref
            &&& to.size == from.size
            &&& to.watermark == from.watermark
            &&& to.aux == from.aux
            &&& from.rights.bits & to.rights.bits == to.rights.bits
            &&& after.slots[src as int] == v.slots[src as int]
            &&& after.slots[dest as int].parent == src
            &&& same_but(v, after, dest as int)
        }),
{
}

/// MOVE needs a source that is there and, unless it is moved to where it is, an empty slot to go to.
pub proof fn law_move_is_refused_for_cause(v: CSpaceView, src: Cptr, dest: Cptr)
    ensures
        v.move_error(src, dest) == (if src >= v.slots.len() {
            Some(CapError::OutOfBounds)
        } else if v.slots[src as int].cap.cap_type == CapType::Null {
            Some(CapError::EmptySlot)
        } else if src == dest {
            None
        } else if dest >= v.slots.len() {
            Some(CapError::OutOfBounds)
        } else if v.slots[dest as int].cap.cap_type != CapType::Null {
            Some(CapError::SlotOccupied)
        } else {
            None
        }),
{
}

/// MOVE takes the whole record, and its parent, to the new slot and leaves the old one empty. The
/// children follow; every other slot is as before, and no memory is cleared.
pub proof fn law_move_carries_everything(v: CSpaceView, src: Cptr, dest: Cptr)
    requires
        v.move_error(src, dest) is None,
    ensures
        ({
            let after = v.moved(src, dest);
            &&& after.slots.len() == v.slots.len()
            &&& after.next_obj == v.next_obj
            &&& after.zeroed == v.zeroed
            &&& after.slots[dest as int].cap == v.slots[src as int].cap
            &&& after.slots[dest as int].parent == v.slots[src as int].parent
            &&& src != dest ==> cleared(after, src as int)
            &&& forall|i: int|
                0 <= i < v.slots.len() && i != src && i != dest ==> {
                    &&& (#[trigger] after.slots[i]).cap == v.slots[i].cap
                    &&& after.slots[i].parent == (if v.slots[i].parent == src {
                        dest
                    } else {
                        v.slots[i].parent
                    })
                }
        }),
{
}

/// RETYPE needs an `Untyped` that is there and carries RETYPE, a type that is made of memory, as many
/// frames as are left, and empty slots to go to. What is wrong first is what is answered.
pub proof fn law_retype_is_refused_for_cause(
    v: CSpaceView,
    ut: Cptr,
    t: CapType,
    frames: u32,
    count: u32,
    dest: Cptr,
)
    ensures
        ({
            let u = v.slots[ut as int].cap;
            let made_of_memory = t == CapType::Frame || t == CapType::CNode || t
                == CapType::Endpoint || t == CapType::Notification || t == CapType::Task || t
                == CapType::AddrSpace || t == CapType::VSpace || t == CapType::FNode || t
                == CapType::Device;
            v.retype_error(ut, t, frames, count, dest) == (if ut >= v.slots.len() {
                Some(CapError::OutOfBounds)
            } else if u.cap_type == CapType::Null {
                Some(CapError::EmptySlot)
            } else if u.cap_type != CapType::Untyped {
                Some(CapError::WrongType)
            } else if u.rights.bits & 0x20 != 0x20 {
                Some(CapError::InsufficientRights)
            } else if !made_of_memory {
                Some(CapError::WrongType)
            } else if frames == 0 || count == 0 || u.watermark + frames * count > u.size {
                Some(CapError::OutOfBudget)
            } else if dest + count > v.slots.len() {
                Some(CapError::OutOfBounds)
            } else if exists|i: int|
                dest <= i < dest + count && (#[trigger] v.slots[i]).cap.cap_type != CapType::Null {
                Some(CapError::SlotOccupied)
            } else {
                None
            })
        }),
{
    if dest + count <= v.slots.len() {
        if exists|i: int|
            dest <= i < dest + count && (#[trigger] v.slots[i]).cap.cap_type != CapType::Null {
            let i = choose|i: int|
                dest <= i < dest + count && (#[trigger] v.slots[i]).cap.cap_type != CapType::Null;
            assert(mdb::live(v.slots, i));
        }
        if exists|i: int| dest <= i < dest + count && #[trigger] mdb::live(v.slots, i) {
            let i = choose|i: int|
                dest <= i < dest + count && #[trigger] mdb::live(v.slots, i);
            assert(v.slots[i].cap.cap_type != CapType::Null);
        }
    }
}

/// RETYPE makes one object after the other out of the frames behind the watermark: object `k` has
/// the type, the number of frames and the rights of a new one, is a child of the `Untyped`, and was
/// cleared, as the `k`th and once. The `Untyped` is charged for all of them and otherwise as before,
/// and so is every other slot.
pub proof fn law_retype_makes_what_was_asked_for(
    v: CSpaceView,
    ut: Cptr,
    t: CapType,
    frames: u32,
    count: u32,
    dest: Cptr,
)
    requires
        v.wf(),
        v.retype_error(ut, t, frames, count, dest) is None,
        v.retyped_frame(ut, frames, count - 1) <= u64::MAX,
    ensures
        ({
            let after = v.retyped(ut, t, frames, count, dest);
            let u = v.slots[ut as int].cap;
            let charged = after.slots[ut as int].cap;
            let start = u.objref + u.watermark;
            &&& after.slots.len() == v.slots.len()
            &&& after.next_obj == v.next_obj
            &&& charged == (RawCap { watermark: charged.watermark, ..u })
            &&& charged.watermark == u.watermark + frames * count
            &&& after.slots[ut as int].parent == v.slots[ut as int].parent
            &&& forall|k: int|
                0 <= k < count ==> {
                    let made = (#[trigger] after.slots[dest + k]).cap;
                    &&& made.cap_type == t
                    &&& made.rights == model::default_rights_spec(t)
                    &&& made.objref == start + k * frames
                    &&& made.size == frames
                    &&& made.watermark == 0
                    &&& made.aux == 0
                    &&& made.badge == 0
                    &&& after.slots[dest + k].parent == ut
                }
            &&& after.zeroed.len() == v.zeroed.len() + count
            &&& forall|j: int| 0 <= j < v.zeroed.len() ==> #[trigger] after.zeroed[j] == v.zeroed[j]
            &&& forall|k: int|
                0 <= k < count ==> {
                    &&& (#[trigger] after.zeroed[v.zeroed.len() + k]).0 == start + k * frames
                    &&& after.zeroed[v.zeroed.len() + k].1 == frames
                }
            &&& forall|i: int|
                0 <= i < v.slots.len() && i != ut && !(dest <= i < dest + count)
                    ==> #[trigger] after.slots[i] == v.slots[i]
        }),
{
    let after = v.retyped(ut, t, frames, count, dest);
    let u = v.slots[ut as int].cap;
    assert(u.watermark + frames * count <= u.size);
    assert(0 <= frames * count) by (nonlinear_arith)
        requires
            0 <= frames,
            0 <= count,
    ;
    assert(mdb::live(v.slots, ut as int));
    assert(!(dest <= ut < dest + count));
    assert forall|k: int| 0 <= k < count implies {
        let made = (#[trigger] after.slots[dest + k]).cap;
        &&& made.cap_type == t
        &&& made.rights == model::default_rights_spec(t)
        &&& made.objref == u.objref + u.watermark + k * frames
        &&& made.size == frames
        &&& made.watermark == 0
        &&& made.aux == 0
        &&& made.badge == 0
        &&& after.slots[dest + k].parent == ut
    } by {
        lemma_offset(k, count as int, frames as int);
        assert(v.retyped_frame(ut, frames, k) <= u64::MAX);
    }
    assert forall|k: int| 0 <= k < count implies {
        &&& (#[trigger] after.zeroed[v.zeroed.len() + k]).0 == u.objref + u.watermark + k * frames
        &&& after.zeroed[v.zeroed.len() + k].1 == frames
    } by {
        lemma_offset(k, count as int, frames as int);
        assert(v.retyped_frame(ut, frames, k) <= u64::MAX);
    }
}

proof fn lemma_offset(k: int, count: int, frames: int)
    requires
        0 <= k < count,
        0 <= frames,
    ensures
        0 <= k * frames <= (count - 1) * frames,
{
    assert(0 <= k * frames <= (count - 1) * frames) by (nonlinear_arith)
        requires
            0 <= k < count,
            0 <= frames,
    ;
}

/// The rights that new objects come with. A `Frame` is read, written, mapped, granted and derived
/// from, and is not executed; an `Endpoint` is sent and received on; whatever has no rights of its
/// own can be derived from.
pub proof fn law_new_objects_have_these_rights(t: CapType)
    ensures
        model::default_rights_spec(t).bits == (if t == CapType::Untyped {
            0x20u32
        } else if t == CapType::Frame {
            0x21b
        } else if t == CapType::CNode {
            0x210
        } else if t == CapType::Endpoint {
            0x2d0
        } else if t == CapType::Notification {
            0x380
        } else {
            0x200
        }),
{
    assert(1u32 | 2u32 | 8u32 | 0x10u32 | 0x200u32 == 0x21bu32 && 0x200u32 | 0x10u32 == 0x210u32
        && 0x40u32 | 0x80u32 | 0x10u32 | 0x200u32 == 0x2d0u32 && 0x100u32 | 0x80u32 | 0x200u32
        == 0x380u32) by (bit_vector);
}

/// SPLIT needs a `Sched` that is there and carries DERIVE, an amount that it still has for the
/// period, and an empty slot to go to. What is wrong first is what is answered.
pub proof fn law_split_is_refused_for_cause(v: CSpaceView, src: Cptr, dest: Cptr, amount: u32)
    ensures
        ({
            let s = v.slots[src as int].cap;
            v.split_error(src, dest, amount) == (if src >= v.slots.len() {
                Some(CapError::OutOfBounds)
            } else if s.cap_type == CapType::Null {
                Some(CapError::EmptySlot)
            } else if s.cap_type != CapType::Sched {
                Some(CapError::WrongType)
            } else if s.rights.bits & 0x200 != 0x200 {
                Some(CapError::InsufficientRights)
            } else if amount == 0 || s.watermark + amount > s.size {
                Some(CapError::OutOfBudget)
            } else if dest >= v.slots.len() {
                Some(CapError::OutOfBounds)
            } else if v.slots[dest as int].cap.cap_type != CapType::Null {
                Some(CapError::SlotOccupied)
            } else {
                None
            })
        }),
{
}

/// SPLIT makes a child `Sched` with the rights and the period of its source, an identity that was
/// not given out before, and `amount` units of which none is used. The source has that much less and
/// is otherwise as before, and so is every other slot.
pub proof fn law_split_moves_time_to_a_child(v: CSpaceView, src: Cptr, dest: Cptr, amount: u32)
    requires
        v.split_error(src, dest, amount) is None,
        v.next_obj < u64::MAX,
    ensures
        ({
            let after = v.splitted(src, dest, amount);
            let from = v.slots[src as int].cap;
            let left = after.slots[src as int].cap;
            let child = after.slots[dest as int].cap;
            &&& child.cap_type == CapType::Sched
            &&& child.rights.bits == from.rights.bits
            &&& child.objref == v.next_obj
            &&& child.size == amount
            &&& child.watermark == 0
            &&& child.aux == from.aux
            &&& child.badge == 0
            &&& after.slots[dest as int].parent == src
            &&& left.size + amount == from.size
            &&& left == (RawCap { size: left.size, ..from })
            &&& after.slots[src as int].parent == v.slots[src as int].parent
            &&& after.next_obj == v.next_obj + 1
            &&& after.zeroed == v.zeroed
            &&& after.slots.len() == v.slots.len()
            &&& forall|i: int|
                0 <= i < v.slots.len() && i != src && i != dest ==> #[trigger] after.slots[i]
                    == v.slots[i]
        }),
{
}

/// DELEGATE needs two `Sched`s that are there, DERIVE on the first, an amount that it still has for
/// the period, and room for it in the second. What is wrong first is what is answered. To itself a slot
/// delegates whatever it is asked to, as that changes nothing.
pub proof fn law_delegate_is_refused_for_cause(v: CSpaceView, src: Cptr, dest: Cptr, amount: u32)
    ensures
        ({
            let s = v.slots[src as int].cap;
            let d = v.slots[dest as int].cap;
            v.delegate_error(src, dest, amount) == (if src == dest {
                None
            } else if src >= v.slots.len() {
                Some(CapError::OutOfBounds)
            } else if s.cap_type == CapType::Null {
                Some(CapError::EmptySlot)
            } else if dest >= v.slots.len() {
                Some(CapError::OutOfBounds)
            } else if d.cap_type == CapType::Null {
                Some(CapError::EmptySlot)
            } else if s.cap_type != CapType::Sched || d.cap_type != CapType::Sched {
                Some(CapError::WrongType)
            } else if s.rights.bits & 0x200 != 0x200 {
                Some(CapError::InsufficientRights)
            } else if amount == 0 || s.watermark + amount > s.size || d.size + amount > u32::MAX {
                Some(CapError::OutOfBudget)
            } else {
                None
            })
        }),
{
}

/// DELEGATE takes the amount from the one and gives it to the other, and changes nothing else;
/// delegating to oneself changes nothing at all.
pub proof fn law_delegate_moves_time(v: CSpaceView, src: Cptr, dest: Cptr, amount: u32)
    requires
        v.delegate_error(src, dest, amount) is None,
    ensures
        ({
            let after = v.delegated(src, dest, amount);
            &&& after.slots.len() == v.slots.len()
            &&& after.next_obj == v.next_obj
            &&& after.zeroed == v.zeroed
            &&& forall|i: int|
                0 <= i < v.slots.len() ==> {
                    let before = v.slots[i];
                    let now = #[trigger] after.slots[i];
                    &&& now.parent == before.parent
                    &&& now.cap == (RawCap { size: now.cap.size, ..before.cap })
                    &&& now.cap.size == before.cap.size + (if src == dest {
                        0
                    } else if i == src {
                        -(amount as int)
                    } else if i == dest {
                        amount as int
                    } else {
                        0
                    })
                }
        }),
{
}

/// The time that a record has left for its period is its size less its watermark, and no less than
/// none; as much as that, and no less than one unit, can be taken out of it.
pub proof fn law_budgets_give_what_is_left(cap: RawCap, amount: u32)
    ensures
        Budget::of(cap).capacity == cap.size,
        Budget::of(cap).consumed == cap.watermark,
        Budget::of(cap).period == cap.aux,
        cap.watermark <= cap.size ==> Budget::of(cap).available() == cap.size - cap.watermark,
        cap.watermark > cap.size ==> Budget::of(cap).available() == 0,
        Budget::of(cap).can_give(amount) == (amount > 0 && cap.watermark + amount <= cap.size),
{
}

/// A `Reply` names its caller, carries the badge of the call, and has no right and no memory. It is
/// good for a reply where it lies, and no other capability is.
pub proof fn law_replies_name_their_caller(v: CSpaceView, dest: Cptr, caller: u64, badge: u64)
    requires
        v.place_error(dest) is None,
    ensures
        ({
            let after = v.placed(dest as int, CSpaceView::reply_cap(caller, badge), NIL);
            let made = after.slots[dest as int];
            &&& made.cap.cap_type == CapType::Reply
            &&& made.cap.objref == caller
            &&& made.cap.badge == badge
            &&& made.cap.rights.bits == 0
            &&& made.cap.size == 0
            &&& made.cap.watermark == 0
            &&& made.cap.aux == 0
            &&& made.parent == NIL
            &&& after.reply_error(dest) is None
            &&& same_but(v, after, dest as int)
        }),
        forall|w: CSpaceView, c: Cptr| #[trigger]
            w.reply_error(c) == (if c >= w.slots.len() {
                Some(CapError::OutOfBounds)
            } else if w.slots[c as int].cap.cap_type == CapType::Null {
                Some(CapError::EmptySlot)
            } else if w.slots[c as int].cap.cap_type != CapType::Reply {
                Some(CapError::WrongType)
            } else {
                None
            }),
{
}

/// A domain is entered with a `Domain` that carries ENTER, and with nothing else.
pub proof fn law_domains_are_entered_by_capability(v: CSpaceView, c: Cptr)
    ensures
        v.enter_error(c) == (if c >= v.slots.len() {
            Some(CapError::OutOfBounds)
        } else if v.slots[c as int].cap.cap_type == CapType::Null {
            Some(CapError::EmptySlot)
        } else if v.slots[c as int].cap.cap_type != CapType::Domain {
            Some(CapError::WrongType)
        } else if v.slots[c as int].cap.rights.bits & 0x400 != 0x400 {
            Some(CapError::InsufficientRights)
        } else {
            None
        }),
{
}

/// GRANT needs a source that is there, is no `Reply`, carries GRANT and every right that is asked
/// for, and an empty slot in the other space. An `Untyped` and a `Sched` are only moved, and what has
/// children is not moved away from them. What is wrong first is what is answered.
pub proof fn law_grant_is_refused_for_cause(
    src: CSpaceView,
    src_slot: Cptr,
    dst: CSpaceView,
    dst_slot: Cptr,
    rights: Rights,
    mode: GrantMode,
)
    requires
        src.wf(),
    ensures
        ({
            let s = src.slots[src_slot as int].cap;
            let forks = s.cap_type == CapType::Untyped || s.cap_type == CapType::Sched;
            let parent = exists|i: int|
                0 <= i < src.slots.len() && (#[trigger] src.slots[i]).parent == src_slot;
            let bound = s.cap_type == CapType::Reply || (mode == GrantMode::Mint && forks)
                || s.rights.bits & 0x10 != 0x10 || s.rights.bits & rights.bits != rights.bits || (
            mode == GrantMode::Move && parent);
            model::grant_error(src, src_slot, dst, dst_slot, rights, mode) == (if src_slot
                >= src.slots.len() {
                Some(CapError::OutOfBounds)
            } else if s.cap_type == CapType::Null {
                Some(CapError::EmptySlot)
            } else if bound {
                Some(CapError::InsufficientRights)
            } else if dst_slot >= dst.slots.len() {
                Some(CapError::OutOfBounds)
            } else if dst.slots[dst_slot as int].cap.cap_type != CapType::Null {
                Some(CapError::SlotOccupied)
            } else {
                None
            })
        }),
{
    if src_slot < src.slots.len() {
        if exists|i: int| 0 <= i < src.slots.len() && (#[trigger] src.slots[i]).parent == src_slot {
            let i = choose|i: int|
                0 <= i < src.slots.len() && (#[trigger] src.slots[i]).parent == src_slot;
            assert(src_slot != NIL);
            assert(mdb::child_of(src.slots, i, src_slot as int));
        }
        if mdb::has_child(src.slots, src_slot as int) {
            let i = choose|i: int| mdb::child_of(src.slots, i, src_slot as int);
            assert(src.slots[i].parent == src_slot);
        }
    }
}

/// A capability is derived from another if that one is its parent, or its parent is derived from it;
/// nothing is derived from itself.
pub proof fn law_derivation_follows_parents(v: CSpaceView, i: int, c: int)
    requires
        v.wf(),
        0 <= c < v.slots.len(),
        0 <= i < v.slots.len(),
        v.slots[c].cap.cap_type != CapType::Null,
    ensures
        ({
            let p = v.slots[i].parent;
            mdb::derived_from(v.slots, i, c) == (v.slots[i].cap.cap_type != CapType::Null && i != c
                && (p == c || (p < v.slots.len() && mdb::derived_from(v.slots, p as int, c))))
        }),
        !mdb::derived_from(v.slots, i, i),
{
    let s = v.slots;
    mdb::lemma_descends_step(s, i, c);
    if mdb::live(s, i) {
        assert(mdb::link_ok(s, i));
        let p = s[i].parent;
        if p < s.len() && p == c {
        } else if p < s.len() && mdb::descends(s, p as int, c) {
            assert(mdb::live(s, p as int));
        }
        mdb::lemma_no_self_descent(s, c);
    }
}

/// REVOKE empties every slot that is derived from `c`, and leaves every other slot as it was. `c`
/// keeps all but this: an `Untyped` has its frames back, and a `Sched` the time that was split off.
pub proof fn law_revoke_empties_what_is_derived(v: CSpaceView, c: Cptr)
    requires
        v.wf(),
        c < v.slots.len(),
        v.slots[c as int].cap.cap_type != CapType::Null,
    ensures
        ({
            let after = v.revoked(c);
            let was = v.slots[c as int].cap;
            let is = after.slots[c as int].cap;
            &&& after.slots.len() == v.slots.len()
            &&& after.next_obj == v.next_obj
            &&& forall|i: int|
                0 <= i < v.slots.len() && i != c ==> if #[trigger] mdb::derived_from(
                    v.slots,
                    i,
                    c as int,
                ) {
                    cleared(after, i)
                } else {
                    after.slots[i] == v.slots[i]
                }
            &&& after.slots[c as int].parent == v.slots[c as int].parent
            &&& is == (RawCap { size: is.size, watermark: is.watermark, ..was })
            &&& is.watermark == (if was.cap_type == CapType::Untyped {
                0
            } else {
                was.watermark
            })
            &&& was.cap_type != CapType::Sched ==> is.size == was.size
            &&& was.cap_type == CapType::Sched ==> was.size <= is.size
            &&& was.cap_type == CapType::Sched && is.size < u32::MAX ==> is.size == was.size
                + model::total(
                Seq::new(
                    v.slots.len(),
                    |i: int|
                        if mdb::derived_from(v.slots, i, c as int) && v.slots[i].cap.cap_type
                            == CapType::Sched {
                            v.slots[i].cap.size as nat
                        } else {
                            0
                        },
                ),
            )
        }),
{
    let w = Seq::new(
        v.slots.len(),
        |i: int|
            if mdb::derived_from(v.slots, i, c as int) && v.slots[i].cap.cap_type
                == CapType::Sched {
                v.slots[i].cap.size as nat
            } else {
                0
            },
    );
    assert(model::derived_budgets(v.slots, c as int) =~= w);
}

/// A total is what its amounts add up to.
pub proof fn law_totals_add_up(w: Seq<nat>, x: nat)
    ensures
        model::total(Seq::<nat>::empty()) == 0,
        model::total(w.push(x)) == model::total(w) + x,
{
    assert(w.push(x).drop_last() =~= w);
}

/// The time in a space is that of its `Sched`s.
pub proof fn law_time_is_in_scheds(v: CSpaceView)
    requires
        v.wf(),
    ensures
        v.total_budget() == model::total(
            Seq::new(
                v.slots.len(),
                |i: int|
                    if v.slots[i].cap.cap_type == CapType::Sched {
                        v.slots[i].cap.size as nat
                    } else {
                        0
                    },
            ),
        ),
{
    let w = Seq::new(
        v.slots.len(),
        |i: int|
            if v.slots[i].cap.cap_type == CapType::Sched {
                v.slots[i].cap.size as nat
            } else {
                0
            },
    );
    assert(model::all_budgets(v.slots) =~= w);
}

/// DELETE empties `c` and every slot that is derived from it. Every other slot is as before, but for
/// the `Sched` that a deleted `Sched` was split off, which gets its time.
pub proof fn law_delete_empties_the_slot(v: CSpaceView, c: Cptr)
    requires
        v.wf(),
        c < v.slots.len(),
        v.slots[c as int].cap.cap_type != CapType::Null,
    ensures
        ({
            let after = v.revoked(c).destroyed(c as int);
            &&& after.slots.len() == v.slots.len()
            &&& after.next_obj == v.next_obj
            &&& cleared(after, c as int)
            &&& forall|i: int|
                0 <= i < v.slots.len() && i != c ==> if #[trigger] mdb::derived_from(
                    v.slots,
                    i,
                    c as int,
                ) {
                    cleared(after, i)
                } else if i == v.slots[c as int].parent && v.slots[c as int].cap.cap_type
                    == CapType::Sched {
                    &&& after.slots[i].cap == (RawCap {
                        size: after.slots[i].cap.size,
                        ..v.slots[i].cap
                    })
                    &&& after.slots[i].parent == v.slots[i].parent
                    &&& after.slots[i].cap.size == (if v.slots[i].cap.size + v.revoked(
                        c,
                    ).slots[c as int].cap.size <= u32::MAX {
                        v.slots[i].cap.size + v.revoked(c).slots[c as int].cap.size
                    } else {
                        u32::MAX as int
                    })
                } else {
                    after.slots[i] == v.slots[i]
                }
        }),
{
    let w = v.revoked(c);
    let p = v.slots[c as int].parent;
    assert(mdb::link_ok(v.slots, c as int));
    if p != NIL {
        law_derivation_follows_parents(v, p as int, c as int);
        law_derivation_follows_parents(v, c as int, p as int);
        if mdb::derived_from(v.slots, p as int, c as int) {
            mdb::lemma_descends_step(v.slots, c as int, c as int);
            mdb::lemma_no_self_descent(v.slots, c as int);
        }
        mdb::lemma_no_self_descent(v.slots, c as int);
        mdb::lemma_descends_step(v.slots, c as int, c as int);
    }
}

/// The types whose memory is cleared when their last capability goes: all but those that own none,
/// and `Untyped`, whose memory the next RETYPE clears.
pub proof fn law_memory_is_cleared_by_type(t: CapType)
    ensures
        model::is_cleared_on_loss(t) == (t != CapType::Untyped && t != CapType::Sched && t
            != CapType::Reply && t != CapType::SharedRo && t != CapType::Domain),
        model::is_unique(t) == (t == CapType::Untyped || t == CapType::Sched || t
            == CapType::Reply),
{
}

/// Slot `i` named an object in `before` that owns memory and that no slot names in `after`.
pub open spec fn gone(before: CSpaceView, after: CSpaceView, i: int) -> bool {
    let was = before.slots[i].cap;
    &&& 0 <= i < before.slots.len()
    &&& was.cap_type != CapType::Null
    &&& was.cap_type != CapType::Untyped
    &&& was.cap_type != CapType::Sched
    &&& was.cap_type != CapType::Reply
    &&& was.cap_type != CapType::SharedRo
    &&& was.cap_type != CapType::Domain
    &&& forall|k: int|
        0 <= k < after.slots.len() ==> !((#[trigger] after.slots[k]).cap.cap_type == was.cap_type
            && after.slots[k].cap.objref == was.objref)
}

/// Entry `j` of what was cleared is the memory of the object that slot `i` named and that is gone.
pub open spec fn cleared_for(before: CSpaceView, after: CSpaceView, j: int, i: int) -> bool {
    &&& gone(before, after, i)
    &&& after.zeroed[j].0 == before.slots[i].cap.objref
    &&& after.zeroed[j].1 == before.slots[i].cap.size
}

/// Entry `j` of what was cleared is the memory of an object that is gone.
pub open spec fn cleared_for_cause(before: CSpaceView, after: CSpaceView, j: int) -> bool {
    exists|i: int| #[trigger] cleared_for(before, after, j, i)
}

/// Entry `j` of what was newly cleared is the memory of an object like that in slot `i`.
pub open spec fn cleared_like(before: CSpaceView, after: CSpaceView, j: int, i: int) -> bool {
    &&& before.zeroed.len() <= j < after.zeroed.len()
    &&& exists|k: int| #[trigger]
        cleared_for(before, after, j, k) && before.slots[k].cap.cap_type
            == before.slots[i].cap.cap_type && before.slots[k].cap.objref
            == before.slots[i].cap.objref
}

/// REVOKE and DELETE clear the memory of every object that nothing names any more, all of it, and
/// of no other.
pub proof fn law_lost_memory_is_cleared(before: CSpaceView, after: CSpaceView)
    requires
        model::cleared_lost_objects(before, after),
    ensures
        before.zeroed.len() <= after.zeroed.len(),
        forall|j: int|
            0 <= j < before.zeroed.len() ==> #[trigger] after.zeroed[j] == before.zeroed[j],
        forall|j: int|
            before.zeroed.len() <= j < after.zeroed.len() ==> #[trigger] cleared_for_cause(
                before,
                after,
                j,
            ),
        forall|i: int| #[trigger]
            gone(before, after, i) ==> exists|j: int| #[trigger] cleared_like(before, after, j, i),
{
    let lost = choose|lost: Seq<int>| #[trigger]
        model::lists_lost_objects(before.slots, after.slots, lost) && after.zeroed == before.zeroed
            + model::ranges_of(before.slots, lost);
    let n = before.zeroed.len() as int;
    assert forall|j: int| n <= j < after.zeroed.len() implies #[trigger] cleared_for_cause(
        before,
        after,
        j,
    ) by {
        assert(model::is_lost(before.slots, after.slots, lost[j - n]));
        lemma_gone(before, after, lost[j - n]);
        assert(cleared_for(before, after, j, lost[j - n]));
    }
    assert forall|i: int| #[trigger] gone(before, after, i) implies exists|j: int| #[trigger]
        cleared_like(before, after, j, i) by {
        lemma_gone(before, after, i);
        let j = choose|j: int|
            0 <= j < lost.len() && #[trigger] model::same_object(
                before.slots[lost[j]].cap,
                before.slots[i].cap,
            );
        assert(model::is_lost(before.slots, after.slots, lost[j]));
        lemma_gone(before, after, lost[j]);
        assert(cleared_for(before, after, n + j, lost[j]));
        assert(cleared_like(before, after, n + j, i));
    }
}

proof fn lemma_gone(before: CSpaceView, after: CSpaceView, i: int)
    ensures
        gone(before, after, i) == model::is_lost(before.slots, after.slots, i),
{
    if 0 <= i < before.slots.len() {
        let was = before.slots[i].cap;
        if model::still_named(after.slots, was) {
            let k = choose|k: int|
                mdb::live(after.slots, k) && model::same_object(#[trigger] after.slots[k].cap, was);
            assert(after.slots[k].cap.cap_type == was.cap_type);
        }
        if mdb::live(before.slots, i) && !model::still_named(after.slots, was) {
            assert forall|k: int| 0 <= k < after.slots.len() implies !((
            #[trigger] after.slots[k]).cap.cap_type == was.cap_type && after.slots[k].cap.objref
                == was.objref) by {
                if after.slots[k].cap.cap_type == was.cap_type && after.slots[k].cap.objref
                    == was.objref {
                    assert(mdb::live(after.slots, k) && model::same_object(
                        after.slots[k].cap,
                        was,
                    ));
                }
            }
        }
    }
}

/// A set of rights includes another if it has every bit of it.
pub proof fn law_rights_are_bits(r: Rights, want: Rights)
    ensures
        r.includes(want) == (r.bits & want.bits == want.bits),
{
}

/// REVOKE does both: what is derived is gone, and the memory that nothing names any more is cleared.
pub proof fn law_revoke_clears_what_it_takes(v: CSpaceView, c: Cptr, after: CSpaceView, i: int)
    requires
        v.wf(),
        c < v.slots.len(),
        v.slots[c as int].cap.cap_type != CapType::Null,
        v.revokes_to(c, after),
        0 <= i < v.slots.len(),
    ensures
        after.slots.len() == v.slots.len(),
        mdb::derived_from(v.slots, i, c as int) ==> after.slots[i].cap.cap_type == CapType::Null,
        !mdb::derived_from(v.slots, i, c as int) && i != c ==> after.slots[i] == v.slots[i],
        after.slots[c as int].cap.cap_type == v.slots[c as int].cap.cap_type,
        gone(v, after, i) ==> exists|j: int| #[trigger] cleared_like(v, after, j, i),
        forall|j: int|
            v.zeroed.len() <= j < after.zeroed.len() ==> #[trigger] cleared_for_cause(v, after, j),
{
    law_revoke_empties_what_is_derived(v, c);
    law_lost_memory_is_cleared(v, after);
    mdb::lemma_no_self_descent(v.slots, c as int);
}

/// So does DELETE, and the capability itself is gone as well.
pub proof fn law_delete_clears_what_it_takes(v: CSpaceView, c: Cptr, after: CSpaceView, i: int)
    requires
        v.wf(),
        c < v.slots.len(),
        v.slots[c as int].cap.cap_type != CapType::Null,
        v.deletes_to(c, after),
        0 <= i < v.slots.len(),
    ensures
        after.slots.len() == v.slots.len(),
        after.slots[c as int].cap.cap_type == CapType::Null,
        mdb::derived_from(v.slots, i, c as int) ==> after.slots[i].cap.cap_type == CapType::Null,
        !mdb::derived_from(v.slots, i, c as int) && i != c ==> after.slots[i].cap.cap_type
            == v.slots[i].cap.cap_type && after.slots[i].cap.objref == v.slots[i].cap.objref
            && after.slots[i].cap.rights == v.slots[i].cap.rights,
        gone(v, after, i) ==> exists|j: int| #[trigger] cleared_like(v, after, j, i),
        forall|j: int|
            v.zeroed.len() <= j < after.zeroed.len() ==> #[trigger] cleared_for_cause(v, after, j),
{
    law_delete_empties_the_slot(v, c);
    law_lost_memory_is_cleared(v, after);
    if i != c && !mdb::derived_from(v.slots, i, c as int) {
        assert(after.slots[i].cap.cap_type == v.slots[i].cap.cap_type);
    }
}

/// A `Sched` that is installed has the budget, the period and the rights that are given and an
/// identity that was not given out before, and is nobody's child. Every other slot is as before.
pub proof fn law_installed_scheds_are_new(
    v: CSpaceView,
    d: int,
    budget: u32,
    period: u32,
    rights: Rights,
)
    requires
        0 <= d < v.slots.len(),
        v.next_obj < u64::MAX,
    ensures
        ({
            let after = v.with_sched(d, budget, period, rights);
            let made = after.slots[d].cap;
            &&& made.cap_type == CapType::Sched
            &&& made.rights == rights
            &&& made.objref == v.next_obj
            &&& made.size == budget
            &&& made.watermark == 0
            &&& made.aux == period
            &&& made.badge == 0
            &&& after.slots[d].parent == NIL
            &&& after.next_obj == v.next_obj + 1
            &&& after.zeroed == v.zeroed
            &&& after.slots.len() == v.slots.len()
            &&& forall|i: int|
                0 <= i < v.slots.len() && i != d ==> #[trigger] after.slots[i] == v.slots[i]
        }),
{
}


/// REVOKE goes on with the lowest of the slots that are derived from `c` and have nothing derived from
/// them, and destroys it.
pub proof fn law_revoke_goes_by_lowest_slot(v: CSpaceView, c: int, d: int, i: int)
    requires
        model::is_next_revoked(v.slots, c, d),
    ensures
        mdb::derived_from(v.slots, d, c),
        forall|k: int|
            0 <= k < v.slots.len() && (#[trigger] v.slots[k]).cap.cap_type != CapType::Null
                ==> v.slots[k].parent != d,
        0 <= i < d && mdb::derived_from(v.slots, i, c) ==> exists|k: int|
            0 <= k < v.slots.len() && (#[trigger] v.slots[k]).cap.cap_type != CapType::Null
                && v.slots[k].parent == i,
        v.revoke_step(c) == v.destroyed(d),
{
    assert forall|k: int|
        0 <= k < v.slots.len() && (#[trigger] v.slots[k]).cap.cap_type
            != CapType::Null implies v.slots[k].parent != d by {
        if v.slots[k].parent == d {
            assert(mdb::child_of(v.slots, k, d));
        }
    }
    if 0 <= i < d && mdb::derived_from(v.slots, i, c) {
        assert(!model::is_revocable(v.slots, c, i));
        let k = choose|k: int| mdb::child_of(v.slots, k, i);
        assert(v.slots[k].parent == i);
    }
    let e = choose|e: int| model::is_next_revoked(v.slots, c, e);
    assert(model::is_next_revoked(v.slots, c, e));
    assert(model::is_revocable(v.slots, c, d) && model::is_revocable(v.slots, c, e));
}

} // verus!
