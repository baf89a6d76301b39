//! Why REVOKE does what it says: lemmas about destroying derived capabilities one at a time.

use crate::cap::cap::{CapType, RawCap};
use crate::cap::mdb;
use crate::cap::mdb::{Cte, NIL};
use crate::cap::model;
use crate::cap::model::CSpaceView;
use vstd::prelude::*;

verus! {

/// Replacing one amount changes the total by the difference.
pub proof fn lemma_total_update(w: Seq<nat>, i: int, x: nat)
    requires
        0 <= i < w.len(),
    ensures
        model::total(w.update(i, x)) == model::total(w) - w[i] + x,
    decreases w.len(),
{
    let u = w.update(i, x);
    if i == w.len() - 1 {
        assert(u.drop_last() =~= w.drop_last());
    } else {
        assert(u.drop_last() =~= w.drop_last().update(i, x));
        lemma_total_update(w.drop_last(), i, x);
    }
}

/// A total is at least each of its amounts.
pub proof fn lemma_total_covers(w: Seq<nat>, i: int)
    requires
        0 <= i < w.len(),
    ensures
        w[i] <= model::total(w),
    decreases w.len(),
{
    if i < w.len() - 1 {
        lemma_total_covers(w.drop_last(), i);
    }
}

/// Nothing but zeros adds up to zero.
pub proof fn lemma_total_of_zeros(w: Seq<nat>)
    requires
        forall|i: int| 0 <= i < w.len() ==> #[trigger] w[i] == 0,
    ensures
        model::total(w) == 0,
    decreases w.len(),
{
    if w.len() > 0 {
        assert(w.last() == 0);
        lemma_total_of_zeros(w.drop_last());
    }
}

/// Amounts that are split in two parts each add up to the totals of the parts.
pub proof fn lemma_total_splits(w: Seq<nat>, a: Seq<nat>, b: Seq<nat>)
    requires
        w.len() == a.len() == b.len(),
        forall|i: int| 0 <= i < w.len() ==> #[trigger] w[i] == a[i] + b[i],
    ensures
        model::total(w) == model::total(a) + model::total(b),
    decreases w.len(),
{
    if w.len() > 0 {
        lemma_total_splits(w.drop_last(), a.drop_last(), b.drop_last());
    }
}

/// 1 for each slot that holds a capability.
pub open spec fn live_marks(s: Seq<Cte>) -> Seq<nat> {
    Seq::new(
        s.len(),
        |i: int|
            if mdb::live(s, i) {
                1nat
            } else {
                0
            },
    )
}

/// How many slots hold a capability.
pub open spec fn live_count(s: Seq<Cte>) -> nat {
    model::total(live_marks(s))
}

/// There are no more live slots than slots.
pub proof fn lemma_live_count_fits(s: Seq<Cte>)
    ensures
        live_count(s) <= s.len(),
{
    lemma_total_of_ones(live_marks(s));
}

/// Amounts of at most 1 sum up to at most their number.
proof fn lemma_total_of_ones(w: Seq<nat>)
    requires
        forall|i: int| 0 <= i < w.len() ==> #[trigger] w[i] <= 1,
    ensures
        model::total(w) <= w.len(),
    decreases w.len(),
{
    if w.len() > 0 {
        lemma_total_of_ones(w.drop_last());
    }
}

/// Destroying the next slot is the next step.
pub proof fn lemma_revoke_step(v: CSpaceView, c: int, d: int)
    requires
        model::is_next_revoked(v.slots, c, d),
    ensures
        v.revoke_step(c) == v.destroyed(d),
{
    let e = choose|e: int| model::is_next_revoked(v.slots, c, e);
    assert(model::is_revocable(v.slots, c, d) && model::is_revocable(v.slots, c, e));
}

/// Once nothing is derived from `c`, further steps change nothing.
pub proof fn lemma_revoke_steps_done(v: CSpaceView, c: int, k: nat, n: nat)
    requires
        k <= n,
        forall|d: int| !#[trigger] mdb::derived_from(v.revoke_steps(c, k).slots, d, c),
    ensures
        v.revoke_steps(c, n) == v.revoke_steps(c, k),
    decreases n,
{
    if k < n {
        lemma_revoke_steps_done(v, c, k, (n - 1) as nat);
    }
}

/// What destroying a childless slot leaves is sound again.
pub proof fn lemma_destroy_keeps_wf(v: CSpaceView, d: int)
    requires
        v.wf(),
        mdb::live(v.slots, d),
        !mdb::has_child(v.slots, d),
    ensures
        v.destroyed(d).wf(),
        v.destroyed(d).slots.len() == v.slots.len(),
{
    let e = v.slots[d];
    let emptied = v.slots.update(d, Cte::empty_spec());
    mdb::lemma_remove_keeps_wf(v.slots, d);
    assert(mdb::link_ok(v.slots, d));
    let p = e.parent as int;
    if e.cap.cap_type == CapType::Sched && e.parent != NIL && emptied[p].cap.cap_type
        == CapType::Sched {
        mdb::lemma_update_keeps_wf(
            emptied,
            p,
            RawCap {
                size: model::saturating_sum(emptied[p].cap.size as nat, e.cap.size as nat),
                ..emptied[p].cap
            },
        );
    }
}

/// One slot fewer is live after a slot is destroyed.
pub proof fn lemma_destroy_counts_down(v: CSpaceView, d: int)
    requires
        v.wf(),
        mdb::live(v.slots, d),
        !mdb::has_child(v.slots, d),
    ensures
        live_count(v.destroyed(d).slots) < live_count(v.slots),
{
    let t = v.destroyed(d).slots;
    lemma_destroy_keeps_wf(v, d);
    assert(mdb::link_ok(v.slots, d));
    lemma_total_update(live_marks(v.slots), d, 0);
    assert forall|i: int| 0 <= i < t.len() implies live_marks(t)[i] == #[trigger] live_marks(
        v.slots,
    ).update(d, 0)[i] by {}
    assert(live_marks(t) =~= live_marks(v.slots).update(d, 0));
}

/// Between `s0` and `s` only capabilities derived from `c` have gone, and only budgets of `c` and
/// of what is derived from it have changed.
pub open spec fn partly_revoked(s0: Seq<Cte>, s: Seq<Cte>, c: int) -> bool {
    &&& s.len() == s0.len()
    &&& forall|i: int|
        0 <= i < s.len() ==> {
            ||| #[trigger] s[i] == s0[i]
            ||| mdb::derived_from(s0, i, c) && s[i] == Cte::empty_spec()
            ||| {
                &&& i == c || mdb::derived_from(s0, i, c)
                &&& s0[i].cap.cap_type == CapType::Sched
                &&& s[i] == (Cte { cap: RawCap { size: s[i].cap.size, ..s0[i].cap }, ..s0[i] })
            }
        }
    &&& s0[c].cap.cap_type == CapType::Sched ==> model::saturating_sum(
        s[c].cap.size as nat,
        model::total(model::derived_budgets(s, c)),
    ) == model::saturating_sum(
        s0[c].cap.size as nat,
        model::total(model::derived_budgets(s0, c)),
    )
}

/// What is still there is derived from `c` as it was at the start.
pub proof fn lemma_derivation_stays(s0: Seq<Cte>, s: Seq<Cte>, c: int, i: int)
    requires
        mdb::mdb_wf(s0),
        mdb::mdb_wf(s),
        partly_revoked(s0, s, c),
    ensures
        mdb::derived_from(s, i, c) == (mdb::live(s, i) && mdb::derived_from(s0, i, c)),
{
    if mdb::live(s, i) {
        assert forall|j: int| mdb::live(s, j) implies (#[trigger] s0[j]).parent == s[j].parent by {
            assert(s[j] == s0[j] || s[j].parent == s0[j].parent);
        }
        mdb::lemma_same_descent(s0, s, i, c);
        assert(mdb::live(s0, i)) by {
            assert(s[i] == s0[i] || s0[i].cap.cap_type == s[i].cap.cap_type);
        }
    }
}

/// Destroying one more derived capability keeps to that.
pub proof fn lemma_partly_revoked_step(s0: Seq<Cte>, v: CSpaceView, c: int, d: int)
    requires
        mdb::mdb_wf(s0),
        v.wf(),
        mdb::live(s0, c),
        partly_revoked(s0, v.slots, c),
        mdb::derived_from(v.slots, d, c),
        !mdb::has_child(v.slots, d),
    ensures
        partly_revoked(s0, v.destroyed(d).slots, c),
{
    let s = v.slots;
    let t = v.destroyed(d).slots;
    lemma_destroy_keeps_wf(v, d);
    lemma_derivation_stays(s0, s, c, d);
    assert(mdb::live(s, c)) by {
        assert(s[c] == s0[c] || s[c].cap.cap_type == s0[c].cap.cap_type);
        if mdb::derived_from(s0, c, c) {
            assert(false);
        }
    }
    let e = s[d];
    let p = e.parent as int;
    assert(mdb::link_ok(s, d));
    mdb::lemma_descends_step(s, d, c);
    let credited = e.cap.cap_type == CapType::Sched && e.parent != NIL;
    if credited {
        assert(p != d) by {
            assert(!mdb::child_of(s, d, d));
        }
        assert(p == c || mdb::derived_from(s, p, c));
        if p != c {
            lemma_derivation_stays(s0, s, c, p);
        }
    }
    assert forall|i: int| 0 <= i < t.len() implies {
        ||| #[trigger] t[i] == s0[i]
        ||| mdb::derived_from(s0, i, c) && t[i] == Cte::empty_spec()
        ||| {
            &&& i == c || mdb::derived_from(s0, i, c)
            &&& s0[i].cap.cap_type == CapType::Sched
            &&& t[i] == (Cte { cap: RawCap { size: t[i].cap.size, ..s0[i].cap }, ..s0[i] })
        }
    } by {
        assert(s[i] == s0[i] || s[i] == s[i]);
        if i == d {
            assert(t[i] == Cte::empty_spec());
        } else if credited && i == p {
            assert(s[p].cap.cap_type == CapType::Sched);
        } else {
            assert(t[i] == s[i]);
        }
    }
    if s0[c].cap.cap_type == CapType::Sched {
        let w = model::derived_budgets(s, c);
        let u = model::derived_budgets(t, c);
        assert forall|i: int| 0 <= i < t.len() implies mdb::derived_from(t, i, c) == (i != d
            && #[trigger] mdb::derived_from(s, i, c)) by {
            if mdb::live(t, i) {
                assert forall|j: int| mdb::live(t, j) implies (#[trigger] s[j]).parent
                    == t[j].parent by {}
                mdb::lemma_same_descent(s, t, i, c);
            } else {
                assert(i == d || !mdb::live(s, i));
            }
        }
        let w1 = w.update(d, 0);
        lemma_total_update(w, d, 0);
        lemma_total_covers(w, d);
        if credited {
            assert(s[p].cap.cap_type == CapType::Sched);
            if p == c {
                assert(u =~= w1);
                assert(w[d] == e.cap.size);
            } else {
                let x = model::saturating_sum(s[p].cap.size as nat, e.cap.size as nat) as nat;
                let w2 = w1.update(p, x);
                assert(u =~= w2);
                lemma_total_update(w1, p, x);
                lemma_total_covers(w1, p);
                lemma_total_covers(w2, p);
                assert(w1[p] == s[p].cap.size);
                assert(w[d] == e.cap.size);
                assert(s[c] == t[c]);
            }
        } else {
            assert(e.cap.cap_type != CapType::Sched) by {
                if e.parent == NIL {
                    assert(false);
                }
            }
            assert(w[d] == 0);
            assert(u =~= w1);
        }
    }
}

/// Whether an object is named does not depend on which of its records asks.
proof fn lemma_naming_is_by_object(s: Seq<Cte>, x: RawCap, y: RawCap)
    requires
        model::same_object(x, y),
    ensures
        model::still_named(s, x) == model::still_named(s, y),
{
    if model::still_named(s, x) {
        let k = choose|k: int| mdb::live(s, k) && model::same_object(#[trigger] s[k].cap, x);
        assert(model::same_object(s[k].cap, y));
    }
    if model::still_named(s, y) {
        let k = choose|k: int| mdb::live(s, k) && model::same_object(#[trigger] s[k].cap, y);
        assert(model::same_object(s[k].cap, x));
    }
}

/// Tables that name the same objects slot by slot name the same objects.
pub proof fn lemma_naming_ignores_amounts(s: Seq<Cte>, t: Seq<Cte>, x: RawCap)
    requires
        s.len() == t.len(),
        forall|i: int|
            0 <= i < s.len() ==> #[trigger] model::same_object(s[i].cap, t[i].cap),
    ensures
        model::still_named(s, x) == model::still_named(t, x),
{
    if model::still_named(s, x) {
        let k = choose|k: int| mdb::live(s, k) && model::same_object(#[trigger] s[k].cap, x);
        assert(model::same_object(s[k].cap, t[k].cap));
        assert(model::same_object(t[k].cap, x));
    }
    if model::still_named(t, x) {
        let k = choose|k: int| mdb::live(t, k) && model::same_object(#[trigger] t[k].cap, x);
        assert(model::same_object(s[k].cap, t[k].cap));
        assert(model::same_object(s[k].cap, x));
    }
}

/// Destroying a slot makes no object named, and no other object than its own unnamed.
proof fn lemma_naming_after_destroy(v: CSpaceView, d: int, x: RawCap)
    requires
        v.wf(),
        mdb::live(v.slots, d),
        !mdb::has_child(v.slots, d),
    ensures
        model::still_named(v.destroyed(d).slots, x) ==> model::still_named(v.slots, x),
        model::still_named(v.slots, x) && !model::same_object(x, v.cap(d)) ==> model::still_named(
            v.destroyed(d).slots,
            x,
        ),
{
    let s = v.slots;
    let t = v.destroyed(d).slots;
    assert(mdb::link_ok(s, d));
    if model::still_named(t, x) {
        let k = choose|k: int| mdb::live(t, k) && model::same_object(#[trigger] t[k].cap, x);
        assert(k != d);
        assert(mdb::live(s, k) && model::same_object(s[k].cap, x));
    }
    if model::still_named(s, x) && !model::same_object(x, v.cap(d)) {
        let k = choose|k: int| mdb::live(s, k) && model::same_object(#[trigger] s[k].cap, x);
        assert(mdb::live(t, k) && model::same_object(t[k].cap, x));
    }
}

/// Destroying a slot adds its object to the lost ones if nothing else names it, and loses no
/// other.
pub proof fn lemma_lost_step(s0: Seq<Cte>, v: CSpaceView, d: int, lost: Seq<int>) -> (more: Seq<
    int,
>)
    requires
        v.wf(),
        mdb::live(s0, d),
        mdb::live(v.slots, d),
        !mdb::has_child(v.slots, d),
        model::same_object(s0[d].cap, v.cap(d)),
        model::lists_lost_objects(s0, v.slots, lost),
    ensures
        model::lists_lost_objects(s0, v.destroyed(d).slots, more),
        more == (if model::is_cleared_on_loss(v.cap(d).cap_type) && !model::still_named(
            v.destroyed(d).slots,
            v.cap(d),
        ) {
            lost.push(d)
        } else {
            lost
        }),
{
    let s = v.slots;
    let t = v.destroyed(d).slots;
    let e = s[d].cap;
    let gone = model::is_cleared_on_loss(e.cap_type) && !model::still_named(t, e);
    let more = if gone {
        lost.push(d)
    } else {
        lost
    };
    assert(model::still_named(s, e)) by {
        assert(model::same_object(s[d].cap, e));
    }
    assert forall|j: int| 0 <= j < more.len() implies #[trigger] model::is_lost(s0, t, more[j]) by {
        if j < lost.len() {
            assert(more[j] == lost[j]);
            assert(model::is_lost(s0, s, lost[j]));
            lemma_naming_after_destroy(v, d, s0[lost[j]].cap);
        } else {
            lemma_naming_is_by_object(t, e, s0[d].cap);
        }
    }
    assert forall|j: int, k: int| 0 <= j < k < more.len() implies !#[trigger] model::same_object(
        s0[more[j]].cap,
        s0[more[k]].cap,
    ) by {
        assert(more[j] == lost[j]);
        assert(model::is_lost(s0, s, lost[j]));
        if k < lost.len() {
            assert(more[k] == lost[k]);
            assert(!model::same_object(s0[lost[j]].cap, s0[lost[k]].cap));
        } else if model::same_object(s0[lost[j]].cap, s0[d].cap) {
            lemma_naming_is_by_object(s, e, s0[lost[j]].cap);
        }
    }
    assert forall|i: int| #[trigger] model::is_lost(s0, t, i) implies exists|j: int|
        0 <= j < more.len() && #[trigger] model::same_object(s0[more[j]].cap, s0[i].cap) by {
        lemma_naming_after_destroy(v, d, s0[i].cap);
        if model::still_named(s, s0[i].cap) {
            lemma_naming_is_by_object(t, e, s0[i].cap);
            assert(more[lost.len() as int] == d);
            assert(model::same_object(s0[more[lost.len() as int]].cap, s0[i].cap));
        } else {
            assert(model::is_lost(s0, s, i));
            let j = choose|j: int|
                0 <= j < lost.len() && #[trigger] model::same_object(s0[lost[j]].cap, s0[i].cap);
            assert(more[j] == lost[j]);
            assert(model::same_object(s0[more[j]].cap, s0[i].cap));
        }
    }
    more
}

/// The memory cleared so far is that of the lost objects.
pub proof fn lemma_cleared_step(
    v0: CSpaceView,
    v: CSpaceView,
    c: int,
    d: int,
    lost: Seq<int>,
) -> (more: Seq<int>)
    requires
        v0.wf(),
        v.wf(),
        mdb::live(v0.slots, c),
        partly_revoked(v0.slots, v.slots, c),
        mdb::live(v.slots, d),
        !mdb::has_child(v.slots, d),
        model::lists_lost_objects(v0.slots, v.slots, lost),
        v.zeroed == v0.zeroed + model::ranges_of(v0.slots, lost),
    ensures
        model::lists_lost_objects(v0.slots, v.destroyed(d).slots, more),
        v.destroyed(d).zeroed == v0.zeroed + model::ranges_of(v0.slots, more),
{
    let s0 = v0.slots;
    let e = v.cap(d);
    assert(mdb::live(s0, d) && model::same_object(s0[d].cap, e) && (e.cap_type != CapType::Sched
        ==> s0[d].cap == e)) by {
        assert(v.slots[d] == s0[d] || v.slots[d].cap.cap_type == s0[d].cap.cap_type);
    }
    let more = lemma_lost_step(s0, v, d, lost);
    assert(v.destroyed(d).zeroed =~= v0.zeroed + model::ranges_of(s0, more)) by {
        if more.len() == lost.len() + 1 {
            assert(model::ranges_of(s0, more) =~= model::ranges_of(s0, lost).push(
                (e.objref, e.size),
            ));
        }
    }
    more
}

/// Once nothing derived from `c` is left, the budgets are back with `c` and all else is as it was.
pub proof fn lemma_fully_revoked(s0: Seq<Cte>, s: Seq<Cte>, c: int)
    requires
        mdb::mdb_wf(s0),
        mdb::mdb_wf(s),
        mdb::live(s0, c),
        partly_revoked(s0, s, c),
        forall|i: int| !#[trigger] mdb::derived_from(s, i, c),
    ensures
        s0[c].cap.cap_type != CapType::Untyped ==> s == model::revoked_slots(s0, c),
        s0[c].cap.cap_type == CapType::Untyped ==> {
            &&& s[c] == s0[c]
            &&& model::revoked_slots(s0, c) == s.update(
                c,
                Cte { cap: RawCap { watermark: 0, ..s[c].cap }, ..s[c] },
            )
        },
{
    let w = model::derived_budgets(s, c);
    assert forall|i: int| 0 <= i < w.len() implies #[trigger] w[i] == 0 by {
        assert(!mdb::derived_from(s, i, c));
    }
    lemma_total_of_zeros(w);
    let r = model::revoked_slots(s0, c);
    assert forall|i: int| 0 <= i < s.len() && i != c implies s[i] == #[trigger] r[i] by {
        lemma_derivation_stays(s0, s, c, i);
        assert(!mdb::derived_from(s, i, c));
        assert(s[i] == s0[i] || s[i].cap.cap_type == s0[i].cap.cap_type || s[i]
            == Cte::empty_spec());
    }
    assert(s[c] == s0[c] || s0[c].cap.cap_type == CapType::Sched);
    if s0[c].cap.cap_type == CapType::Untyped {
        assert(r =~= s.update(c, Cte { cap: RawCap { watermark: 0, ..s[c].cap }, ..s[c] }));
    } else {
        assert(s[c] == r[c]);
        assert(s =~= r);
    }
}

/// Which objects are lost does not depend on the amounts in the records.
pub proof fn lemma_losses_ignore_amounts(
    s0: Seq<Cte>,
    s: Seq<Cte>,
    t: Seq<Cte>,
    lost: Seq<int>,
)
    requires
        s.len() == t.len(),
        forall|i: int|
            0 <= i < s.len() ==> #[trigger] model::same_object(s[i].cap, t[i].cap),
        model::lists_lost_objects(s0, s, lost),
    ensures
        model::lists_lost_objects(s0, t, lost),
{
    assert forall|j: int| 0 <= j < lost.len() implies #[trigger] model::is_lost(
        s0,
        t,
        lost[j],
    ) by {
        assert(model::is_lost(s0, s, lost[j]));
        lemma_naming_ignores_amounts(s, t, s0[lost[j]].cap);
    }
    assert forall|i: int| #[trigger] model::is_lost(s0, t, i) implies exists|j: int|
        0 <= j < lost.len() && #[trigger] model::same_object(s0[lost[j]].cap, s0[i].cap) by {
        lemma_naming_ignores_amounts(s, t, s0[i].cap);
        assert(model::is_lost(s0, s, i));
    }
}

/// After REVOKE of `c`, destroying `c` leaves exactly the lost objects cleared.
pub proof fn lemma_delete_clears(v0: CSpaceView, v: CSpaceView, c: usize)
    requires
        v0.wf(),
        v.wf(),
        mdb::live(v0.slots, c as int),
        v0.revokes_to(c, v),
    ensures
        v0.deletes_to(c, v.destroyed(c as int)),
{
    let d = c as int;
    let e = v.cap(d);
    let after = v.destroyed(d);
    lemma_revoked_is_childless(v0.slots, d);
    let lost = choose|lost: Seq<int>| #[trigger]
        model::lists_lost_objects(v0.slots, v.slots, lost) && v.zeroed == v0.zeroed
            + model::ranges_of(v0.slots, lost);
    let more = lemma_lost_step(v0.slots, v, d, lost);
    if more.len() == lost.len() + 1 {
        assert(model::ranges_of(v0.slots, more) =~= model::ranges_of(v0.slots, lost).push(
            (e.objref, e.size),
        ));
    }
    assert(after.zeroed =~= v0.zeroed + model::ranges_of(v0.slots, more));
    assert(model::cleared_lost_objects(v0, after));
}

/// Nothing is derived from `c` after REVOKE of `c`.
pub proof fn lemma_revoked_is_childless(s0: Seq<Cte>, c: int)
    requires
        mdb::mdb_wf(s0),
        mdb::live(s0, c),
    ensures
        !mdb::has_child(model::revoked_slots(s0, c), c),
{
    let r = model::revoked_slots(s0, c);
    assert forall|i: int| !#[trigger] mdb::child_of(r, i, c) by {
        if mdb::child_of(r, i, c) {
            mdb::lemma_descends_step(s0, i, c);
            mdb::lemma_no_self_descent(s0, c);
        }
    }
}

/// The slots that hold a capability are counted, each as one.
pub proof fn law_live_slots_are_counted(s: Seq<Cte>)
    ensures
        ({
            let live = Set::new(
                |i: int| 0 <= i < s.len() && s[i].cap.cap_type != CapType::Null,
            );
            live.finite() && live_count(s) == live.len()
        }),
    decreases s.len(),
{
    let live = Set::new(|i: int| 0 <= i < s.len() && s[i].cap.cap_type != CapType::Null);
    if s.len() == 0 {
        assert(live =~= Set::empty());
    } else {
        let r = s.drop_last();
        let n = s.len() - 1;
        law_live_slots_are_counted(r);
        let before = Set::new(|i: int| 0 <= i < r.len() && r[i].cap.cap_type != CapType::Null);
        assert(live_marks(s).drop_last() =~= live_marks(r));
        if s[n].cap.cap_type != CapType::Null {
            assert(live =~= before.insert(n));
        } else {
            assert(live =~= before);
        }
    }
}

} // verus!
