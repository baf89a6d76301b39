//! What holds of a CSpace whatever is done with it.

use crate::cap::cap::{CapType, RawCap};
use crate::cap::cspace::{CapError, Cptr, GrantMode};
use crate::cap::mdb;
use crate::cap::mdb::{Cte, NIL};
use crate::cap::model;
use crate::cap::model::CSpaceView;
use crate::cap::revoke;
use crate::cap::rights::Rights;
use vstd::prelude::*;

verus! {

/// MINT only narrows: the new capability names the same object with no right that its source
/// lacks, and no other slot changes.
pub proof fn law_mint_narrows(v: CSpaceView, src: Cptr, dest: Cptr, rights: Rights, badge: u64)
    requires
        v.wf(),
        v.mint_error(src, dest, rights) is None,
    ensures
        v.cap(src as int).rights.includes(v.minted(src, dest, rights, badge).cap(dest as int).rights),
        model::same_object(
            v.cap(src as int),
            v.minted(src, dest, rights, badge).cap(dest as int),
        ),
        forall|i: int|
            0 <= i < v.slots.len() && i != dest ==> #[trigger] v.minted(
                src,
                dest,
                rights,
                badge,
            ).slots[i] == v.slots[i],
{
}

/// GRANT only narrows: what arrives names the same object with no right that its source lacks, no
/// other slot changes, and the source carries GRANT.
pub proof fn law_grant_narrows(
    src: CSpaceView,
    src_slot: Cptr,
    dst: CSpaceView,
    dst_slot: Cptr,
    rights: Rights,
    badge: u64,
    mode: GrantMode,
)
    requires
        model::grant_error(src, src_slot, dst, dst_slot, rights, mode) is None,
    ensures
        ({
            let given = src.cap(src_slot as int);
            let after = dst.placed(dst_slot as int, RawCap { rights, badge, ..given }, NIL);
            &&& given.rights.includes(after.cap(dst_slot as int).rights)
            &&& model::same_object(given, after.cap(dst_slot as int))
            &&& given.rights.includes(Rights { bits: 0x10 })
            &&& forall|i: int|
                0 <= i < dst.slots.len() && i != dst_slot ==> #[trigger] after.slots[i]
                    == dst.slots[i]
        }),
{
}

/// An `Untyped`, a `Sched` and a `Reply` are never duplicated, whatever rights they carry: COPY,
/// MINT and a minting GRANT refuse them, and a `Reply` is not even handed over.
pub proof fn law_unique_capabilities_stay_unique(
    v: CSpaceView,
    src: Cptr,
    dest: Cptr,
    dst: CSpaceView,
    rights: Rights,
)
    requires
        mdb::live(v.slots, src as int),
        model::is_unique(v.cap(src as int).cap_type),
    ensures
        v.mint_error(src, dest, rights) == Some(CapError::InsufficientRights),
        v.copy_error(src, dest) == Some(CapError::InsufficientRights),
        model::grant_error(v, src, dst, dest, rights, GrantMode::Mint) == Some(
            CapError::InsufficientRights,
        ),
        v.cap(src as int).cap_type == CapType::Reply ==> model::grant_error(
            v,
            src,
            dst,
            dest,
            rights,
            GrantMode::Move,
        ) == Some(CapError::InsufficientRights),
{
}

/// Without DERIVE nothing is duplicated.
pub proof fn law_no_duplicates_without_derive(
    v: CSpaceView,
    src: Cptr,
    dest: Cptr,
    rights: Rights,
)
    requires
        mdb::live(v.slots, src as int),
        !v.cap(src as int).rights.includes(Rights { bits: 0x200 }),
    ensures
        v.mint_error(src, dest, rights) == Some(CapError::InsufficientRights),
        v.copy_error(src, dest) == Some(CapError::InsufficientRights),
{
}

/// MOVE makes no new authority: the capability is at `dest`, gone from `src`, every other
/// capability is unchanged, and exactly the children of `src` are now children of `dest`.
pub proof fn law_move_keeps_authority(v: CSpaceView, src: Cptr, dest: Cptr)
    requires
        v.wf(),
        v.move_error(src, dest) is None,
    ensures
        v.moved(src, dest).cap(dest as int) == v.cap(src as int),
        src != dest ==> !mdb::live(v.moved(src, dest).slots, src as int),
        forall|i: int|
            0 <= i < v.slots.len() && i != src && i != dest ==> #[trigger] v.moved(
                src,
                dest,
            ).cap(i) == v.cap(i),
        forall|i: int|
            i != src && i != dest ==> mdb::child_of(v.moved(src, dest).slots, i, dest as int)
                == #[trigger] mdb::child_of(v.slots, i, src as int),
{
    assert forall|i: int| i != src && i != dest implies mdb::child_of(
        v.moved(src, dest).slots,
        i,
        dest as int,
    ) == #[trigger] mdb::child_of(v.slots, i, src as int) by {
        if mdb::live(v.slots, i) {
            assert(mdb::link_ok(v.slots, i));
        }
    }
}

/// The object that RETYPE puts `k`th lies inside the frames that the `Untyped` still had, past
/// everything retyped before, and short of everything retyped after.
pub proof fn law_retype_stays_in_fresh_frames(
    v: CSpaceView,
    ut: Cptr,
    t: CapType,
    frames: u32,
    count: u32,
    dest: Cptr,
    k: int,
)
    requires
        v.wf(),
        v.retype_error(ut, t, frames, count, dest) is None,
        0 <= k < count,
    ensures
        v.cap(ut as int).objref + v.cap(ut as int).watermark <= v.retyped_frame(ut, frames, k),
        v.retyped_frame(ut, frames, k) + frames <= v.cap(ut as int).objref + v.retyped(
            ut,
            t,
            frames,
            count,
            dest,
        ).cap(ut as int).watermark,
        v.retyped(ut, t, frames, count, dest).cap(ut as int).watermark <= v.cap(ut as int).size,
{
    assert(0 <= k * frames && k * frames + frames <= frames * count) by (nonlinear_arith)
        requires
            0 <= k < count,
    ;
    assert(v.cap(ut as int).watermark <= v.cap(ut as int).size);
}

/// Two objects of one RETYPE share no frame.
pub proof fn law_retyped_objects_are_disjoint(
    v: CSpaceView,
    ut: Cptr,
    frames: u32,
    j: int,
    k: int,
)
    requires
        0 <= j < k,
    ensures
        v.retyped_frame(ut, frames, j) + frames <= v.retyped_frame(ut, frames, k),
{
    assert(j * frames + frames <= k * frames) by (nonlinear_arith)
        requires
            0 <= j < k,
    ;
}

/// Objects of two RETYPEs in a row share no frame.
pub proof fn law_successive_retypes_are_disjoint(
    v: CSpaceView,
    ut: Cptr,
    t1: CapType,
    frames1: u32,
    count1: u32,
    dest1: Cptr,
    j: int,
    t2: CapType,
    frames2: u32,
    count2: u32,
    dest2: Cptr,
    k: int,
)
    requires
        v.wf(),
        v.retype_error(ut, t1, frames1, count1, dest1) is None,
        v.retyped(ut, t1, frames1, count1, dest1).wf(),
        v.retyped(ut, t1, frames1, count1, dest1).retype_error(ut, t2, frames2, count2, dest2) is None,
        0 <= j < count1,
        0 <= k < count2,
    ensures
        v.retyped_frame(ut, frames1, j) + frames1 <= v.retyped(
            ut,
            t1,
            frames1,
            count1,
            dest1,
        ).retyped_frame(ut, frames2, k),
{
    let w = v.retyped(ut, t1, frames1, count1, dest1);
    law_retype_stays_in_fresh_frames(v, ut, t1, frames1, count1, dest1, j);
    law_retype_stays_in_fresh_frames(w, ut, t2, frames2, count2, dest2, k);
}

/// Every object was cleared by the time its capability exists.
pub proof fn law_retyped_objects_are_cleared(
    v: CSpaceView,
    ut: Cptr,
    t: CapType,
    frames: u32,
    count: u32,
    dest: Cptr,
    i: int,
)
    requires
        v.wf(),
        v.retype_error(ut, t, frames, count, dest) is None,
        dest <= i < dest + count,
    ensures
        v.retyped(ut, t, frames, count, dest).zeroed.contains(
            (
                v.retyped(ut, t, frames, count, dest).cap(i).objref,
                v.retyped(ut, t, frames, count, dest).cap(i).size,
            ),
        ),
        v.retyped(ut, t, frames, count, dest).cap(i).size == frames,
        mdb::child_of(v.retyped(ut, t, frames, count, dest).slots, i, ut as int),
{
    let w = v.retyped(ut, t, frames, count, dest);
    assert(!mdb::live(v.slots, i));
    let at = v.zeroed.len() + (i - dest);
    assert(w.zeroed[at] == (w.cap(i).objref, w.cap(i).size));
}

/// No retyped `Frame` is executable until EXECUTE is minted, which it cannot be: a MINT never
/// adds a right.
pub proof fn law_frames_start_without_execute(
    v: CSpaceView,
    src: Cptr,
    dest: Cptr,
    rights: Rights,
)
    requires
        v.wf(),
        mdb::live(v.slots, src as int),
        v.cap(src as int).rights == model::default_rights_spec(CapType::Frame),
        rights.includes(Rights { bits: 4 }),
    ensures
        !model::default_rights_spec(CapType::Frame).includes(Rights { bits: 4 }),
        v.mint_error(src, dest, rights) == Some(CapError::InsufficientRights),
{
    let all = 1u32 | 2u32 | 8u32 | 0x10u32 | 0x200u32;
    assert((1u32 | 2u32 | 8u32 | 0x10u32 | 0x200u32) & 4u32 != 4u32) by (bit_vector);
    let b = rights.bits;
    if all & b == b {
        assert(all & 4u32 == 4u32) by (bit_vector)
            requires
                all & b == b,
                b & 4u32 == 4u32,
        ;
    }
}

/// REVOKE is complete: nothing derived from `c` resolves any more, nothing is derived from `c`
/// any more, `c` itself is still there with its type, rights and object, and every capability
/// that was not derived from `c` is unchanged.
pub proof fn law_revoke_is_complete(v: CSpaceView, c: Cptr, after: CSpaceView)
    requires
        v.wf(),
        after.wf(),
        v.resolve_error(c) is None,
        v.revokes_to(c, after),
    ensures
        forall|i: usize| #[trigger]
            mdb::derived_from(v.slots, i as int, c as int) ==> after.resolve_error(i) == Some(
                CapError::EmptySlot,
            ),
        forall|i: int| !#[trigger] mdb::derived_from(after.slots, i, c as int),
        after.resolve_error(c) is None,
        after.cap(c as int).cap_type == v.cap(c as int).cap_type,
        after.cap(c as int).rights == v.cap(c as int).rights,
        after.cap(c as int).objref == v.cap(c as int).objref,
        forall|i: int|
            0 <= i < v.slots.len() && i != c && !#[trigger] mdb::derived_from(
                v.slots,
                i,
                c as int,
            ) ==> after.slots[i] == v.slots[i],
{
    let s = v.slots;
    let t = after.slots;
    assert forall|i: int| !#[trigger] mdb::derived_from(t, i, c as int) by {
        if mdb::live(t, i) && i != c {
            assert forall|j: int| mdb::live(t, j) implies (#[trigger] s[j]).parent
                == t[j].parent by {}
            mdb::lemma_same_descent(s, t, i, c as int);
        }
    }
}

/// A minted capability is revoked with its source.
pub proof fn law_minted_is_derived_from_source(
    v: CSpaceView,
    src: Cptr,
    dest: Cptr,
    rights: Rights,
    badge: u64,
)
    requires
        v.wf(),
        v.mint_error(src, dest, rights) is None,
    ensures
        mdb::derived_from(v.minted(src, dest, rights, badge).slots, dest as int, src as int),
{
    let t = v.minted(src, dest, rights, badge).slots;
    mdb::lemma_descends_step(t, dest as int, src as int);
}

/// A copy is revoked with its source: it is derived from everything that the source is derived
/// from, and a copy of a root is derived from that root.
pub proof fn law_copy_is_revoked_with_its_source(v: CSpaceView, src: Cptr, dest: Cptr, a: int)
    requires
        v.wf(),
        v.copy_error(src, dest) is None,
        mdb::live(v.slots, a),
    ensures
        mdb::derived_from(v.slots, src as int, a) ==> mdb::derived_from(
            v.copied(src, dest).slots,
            dest as int,
            a,
        ),
        v.slots[src as int].parent == NIL ==> mdb::derived_from(
            v.copied(src, dest).slots,
            dest as int,
            src as int,
        ),
{
    let s = v.slots;
    let t = v.copied(src, dest).slots;
    let p = s[src as int].parent;
    assert(mdb::link_ok(s, src as int));
    mdb::lemma_descends_step(s, src as int, a);
    mdb::lemma_descends_step(t, dest as int, a);
    mdb::lemma_descends_step(t, dest as int, src as int);
    if mdb::derived_from(s, src as int, a) && p != a {
        mdb::lemma_same_descent(t, s, p as int, a);
    }
}

/// A `Reply` is good for one reply: afterwards the slot is empty.
pub proof fn law_reply_is_single_use(v: CSpaceView, dest: Cptr)
    requires
        v.wf(),
        v.reply_error(dest) is None,
    ensures
        v.vacated(dest as int).reply_error(dest) == Some(CapError::EmptySlot),
        v.vacated(dest as int).resolve_error(dest) == Some(CapError::EmptySlot),
        v.vacated(dest as int).zeroed == v.zeroed,
{
}

/// Destroying a capability without frames of its own clears no memory.
pub proof fn law_accounting_objects_are_not_cleared(v: CSpaceView, d: int)
    requires
        mdb::live(v.slots, d),
        model::is_unique(v.cap(d).cap_type),
    ensures
        v.destroyed(d).zeroed == v.zeroed,
{
}

/// An object's memory is cleared with its last capability, and not before.
pub proof fn law_last_capability_clears(v: CSpaceView, d: int)
    requires
        v.wf(),
        mdb::live(v.slots, d),
        !mdb::has_child(v.slots, d),
        model::is_cleared_on_loss(v.cap(d).cap_type),
    ensures
        v.destroyed(d).zeroed == (if exists|k: int|
            k != d && mdb::live(v.slots, k) && model::same_object(
                #[trigger] v.slots[k].cap,
                v.cap(d),
            ) {
            v.zeroed
        } else {
            v.zeroed.push((v.cap(d).objref, v.cap(d).size))
        }),
{
    let s = v.slots;
    let t = v.destroyed(d).slots;
    let e = v.cap(d);
    assert(t == s.update(d, Cte::empty_spec()));
    if model::still_named(t, e) {
        let k = choose|k: int| mdb::live(t, k) && model::same_object(#[trigger] t[k].cap, e);
        assert(k != d && mdb::live(s, k) && model::same_object(s[k].cap, e));
    }
    if exists|k: int|
        k != d && mdb::live(s, k) && model::same_object(#[trigger] s[k].cap, e) {
        let k = choose|k: int|
            k != d && mdb::live(s, k) && model::same_object(#[trigger] s[k].cap, e);
        assert(mdb::live(t, k) && model::same_object(t[k].cap, e));
    }
}

/// SPLIT neither makes nor loses CPU time.
pub proof fn law_split_conserves_budget(v: CSpaceView, src: Cptr, dest: Cptr, amount: u32)
    requires
        v.wf(),
        v.split_error(src, dest, amount) is None,
    ensures
        v.splitted(src, dest, amount).total_budget() == v.total_budget(),
        v.splitted(src, dest, amount).cap(src as int).size + v.splitted(src, dest, amount).cap(
            dest as int,
        ).size == v.cap(src as int).size,
{
    let s = v.slots;
    let t = v.splitted(src, dest, amount).slots;
    let w = model::all_budgets(s);
    let left = (s[src as int].cap.size - amount) as nat;
    revoke::lemma_total_update(w, dest as int, amount as nat);
    revoke::lemma_total_update(w.update(dest as int, amount as nat), src as int, left);
    assert(model::all_budgets(t) =~= w.update(dest as int, amount as nat).update(
        src as int,
        left,
    ));
}

/// DELEGATE neither makes nor loses CPU time.
pub proof fn law_delegate_conserves_budget(v: CSpaceView, src: Cptr, dest: Cptr, amount: u32)
    requires
        v.wf(),
        v.delegate_error(src, dest, amount) is None,
    ensures
        v.delegated(src, dest, amount).total_budget() == v.total_budget(),
{
    if src != dest {
        let s = v.slots;
        let t = v.delegated(src, dest, amount).slots;
        let w = model::all_budgets(s);
        let left = (s[src as int].cap.size - amount) as nat;
        let more = (s[dest as int].cap.size + amount) as nat;
        revoke::lemma_total_update(w, src as int, left);
        revoke::lemma_total_update(w.update(src as int, left), dest as int, more);
        assert(model::all_budgets(t) =~= w.update(src as int, left).update(dest as int, more));
    }
}

/// REVOKE neither makes nor loses CPU time, as long as it all fits in one budget.
pub proof fn law_revoke_conserves_budget(v: CSpaceView, c: Cptr, after: CSpaceView)
    requires
        v.wf(),
        v.resolve_error(c) is None,
        v.revokes_to(c, after),
        v.total_budget() <= u32::MAX,
    ensures
        after.total_budget() == v.total_budget(),
{
    let s = v.slots;
    let t = after.slots;
    let w = model::all_budgets(s);
    let derived = model::derived_budgets(s, c as int);
    let kept = Seq::new(
        s.len(),
        |i: int|
            if mdb::derived_from(s, i, c as int) {
                0nat
            } else {
                w[i]
            },
    );
    revoke::lemma_total_splits(w, kept, derived);
    revoke::lemma_total_covers(kept, c as int);
    assert(!mdb::derived_from(s, c as int, c as int));
    if v.cap(c as int).cap_type == CapType::Sched {
        let x = (v.cap(c as int).size + model::total(derived)) as nat;
        assert(kept[c as int] == v.cap(c as int).size);
        revoke::lemma_total_update(kept, c as int, x);
        assert(model::all_budgets(t) =~= kept.update(c as int, x));
    } else {
        // A `Sched` is only ever derived from a `Sched`.
        assert forall|i: int| 0 <= i < derived.len() implies #[trigger] derived[i] == 0 by {
            if mdb::derived_from(s, i, c as int) && s[i].cap.cap_type == CapType::Sched {
                lemma_sched_roots(s, i, c as int);
            }
        }
        revoke::lemma_total_of_zeros(derived);
        assert(model::all_budgets(t) =~= kept);
    }
}

/// A destroyed `Sched` that was split off another loses no CPU time, as long as it all fits in one
/// budget, and other capabilities have none to lose.
pub proof fn law_destruction_returns_budget(v: CSpaceView, d: int)
    requires
        v.wf(),
        mdb::live(v.slots, d),
        !mdb::has_child(v.slots, d),
        v.cap(d).cap_type == CapType::Sched ==> v.slots[d].parent != NIL,
        v.total_budget() <= u32::MAX,
    ensures
        v.destroyed(d).total_budget() == v.total_budget(),
{
    let s = v.slots;
    let t = v.destroyed(d).slots;
    let w = model::all_budgets(s);
    let p = s[d].parent as int;
    assert(mdb::link_ok(s, d));
    assert(!mdb::child_of(s, d, d));
    revoke::lemma_total_update(w, d, 0);
    if s[d].cap.cap_type == CapType::Sched {
        let w1 = w.update(d, 0);
        revoke::lemma_total_covers(w, d);
        revoke::lemma_total_covers(w1, p);
        let x = (s[p].cap.size + s[d].cap.size) as nat;
        revoke::lemma_total_update(w1, p, x);
        assert(model::all_budgets(t) =~= w1.update(p, x));
    } else {
        assert(model::all_budgets(t) =~= w.update(d, 0));
    }
}

/// Every ancestor of a `Sched` is a `Sched`.
proof fn lemma_sched_roots(s: Seq<Cte>, i: int, a: int)
    requires
        mdb::mdb_wf(s),
        mdb::live(s, i),
        0 <= a < s.len(),
        s[i].cap.cap_type == CapType::Sched,
        mdb::descends(s, i, a),
    ensures
        s[a].cap.cap_type == CapType::Sched,
{
    let k = choose|k: nat| 0 < k && #[trigger] mdb::ancestor(s, i, k) == a;
    lemma_sched_ancestor(s, i, k);
}

proof fn lemma_sched_ancestor(s: Seq<Cte>, i: int, k: nat)
    requires
        mdb::mdb_wf(s),
        mdb::live(s, i),
        s[i].cap.cap_type == CapType::Sched,
    ensures
        mdb::ancestor(s, i, k) == NIL || (mdb::live(s, mdb::ancestor(s, i, k))
            && s[mdb::ancestor(s, i, k)].cap.cap_type == CapType::Sched),
    decreases k,
{
    if k > 0 {
        lemma_sched_ancestor(s, i, (k - 1) as nat);
        let a = mdb::ancestor(s, i, (k - 1) as nat);
        if a != NIL {
            assert(mdb::link_ok(s, a));
        }
    }
}

/// RETYPE, MINT, COPY and MOVE have nothing to do with CPU time.
pub proof fn law_derivation_makes_no_budget(
    v: CSpaceView,
    src: Cptr,
    dest: Cptr,
    rights: Rights,
    badge: u64,
    t: CapType,
    frames: u32,
    count: u32,
)
    requires
        v.wf(),
    ensures
        v.mint_error(src, dest, rights) is None ==> v.minted(
            src,
            dest,
            rights,
            badge,
        ).total_budget() == v.total_budget(),
        v.copy_error(src, dest) is None ==> v.copied(src, dest).total_budget() == v.total_budget(),
        v.move_error(src, dest) is None ==> v.moved(src, dest).total_budget() == v.total_budget(),
        v.retype_error(src, t, frames, count, dest) is None ==> v.retyped(
            src,
            t,
            frames,
            count,
            dest,
        ).total_budget() == v.total_budget(),
{
    let s = v.slots;
    let w = model::all_budgets(s);
    if v.mint_error(src, dest, rights) is None {
        assert(model::all_budgets(v.minted(src, dest, rights, badge).slots) =~= w);
    }
    if v.copy_error(src, dest) is None {
        assert(model::all_budgets(v.copied(src, dest).slots) =~= w);
    }
    if v.move_error(src, dest) is None && src != dest {
        let x = w[src as int];
        revoke::lemma_total_update(w, dest as int, x);
        revoke::lemma_total_update(w.update(dest as int, x), src as int, 0);
        assert(model::all_budgets(v.moved(src, dest).slots) =~= w.update(dest as int, x).update(
            src as int,
            0,
        ));
    }
    if v.retype_error(src, t, frames, count, dest) is None {
        assert forall|i: int| dest <= i < dest + count implies !#[trigger] mdb::live(s, i) by {}
        assert forall|i: int| 0 <= i < s.len() implies #[trigger] model::all_budgets(
            v.retyped(src, t, frames, count, dest).slots,
        )[i] == w[i] by {
            assert(dest <= i < dest + count ==> !mdb::live(s, i));
        }
        assert(model::all_budgets(v.retyped(src, t, frames, count, dest).slots) =~= w);
    }
}

/// Every `Sched` has an identity of its own, older than the next one to be given out.
pub open spec fn sched_identities_ok(v: CSpaceView) -> bool {
    &&& forall|i: int|
        mdb::live(v.slots, i) && v.slots[i].cap.cap_type == CapType::Sched ==> (
        #[trigger] v.slots[i]).cap.objref < v.next_obj
    &&& forall|i: int, j: int|
        mdb::live(v.slots, i) && mdb::live(v.slots, j) && i != j && v.slots[i].cap.cap_type
            == CapType::Sched && v.slots[j].cap.cap_type == CapType::Sched
            ==> (#[trigger] v.slots[i]).cap.objref != (#[trigger] v.slots[j]).cap.objref
}

/// SPLIT gives the new `Sched` an identity that no other `Sched` of the space has.
pub proof fn law_split_makes_a_new_identity(v: CSpaceView, src: Cptr, dest: Cptr, amount: u32)
    requires
        v.wf(),
        sched_identities_ok(v),
        v.next_obj < u64::MAX,
        v.split_error(src, dest, amount) is None,
    ensures
        sched_identities_ok(v.splitted(src, dest, amount)),
{
    let w = v.splitted(src, dest, amount);
    assert forall|i: int|
        mdb::live(w.slots, i) && w.slots[i].cap.cap_type == CapType::Sched implies (
    #[trigger] w.slots[i]).cap.objref < w.next_obj by {
        if i != dest {
            assert(v.slots[i].cap.objref < v.next_obj);
        }
    }
    assert forall|i: int, j: int|
        mdb::live(w.slots, i) && mdb::live(w.slots, j) && i != j && w.slots[i].cap.cap_type
            == CapType::Sched && w.slots[j].cap.cap_type == CapType::Sched implies (
    #[trigger] w.slots[i]).cap.objref != (#[trigger] w.slots[j]).cap.objref by {
        if i != dest {
            assert(v.slots[i].cap.objref < v.next_obj);
        }
        if j != dest {
            assert(v.slots[j].cap.objref < v.next_obj);
        }
    }
}

} // verus!
