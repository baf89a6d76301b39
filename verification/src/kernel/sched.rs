//! A check of CPU time as capabilities at boot: budgets are split off and handed on without loss, and
//! come back with REVOKE.

use crate::cap::cap::CapType;
use crate::cap::cspace::{CSpace, CapError, Cptr};
use crate::cap::mdb;
use crate::cap::model;
use crate::cap::sched::Budget;
use crate::cap::zero::ZeroFrames;
use vstd::prelude::*;

verus! {

/// The number of slots.
pub const SLOTS: usize = 16;

/// The CPU time of the first `Sched`.
pub const ROOT: u32 = 100;

/// What the check came to: the CPU time in the first `Sched` and in the two that were split off it.
pub struct SchedReport {
    /// After both were split off.
    pub after_split: (u32, u32, u32),
    /// After one has handed some on to the other.
    pub after_delegate: (u32, u32, u32),
    /// Whether one of the two is left after REVOKE.
    pub child_left: bool,
    /// What the first has after REVOKE.
    pub reclaimed: u32,
}

/// The CPU time that the `Sched` in slot `c` holds.
pub fn cap_units<const N: usize, Z: ZeroFrames>(cs: &CSpace<N, Z>, c: Cptr) -> (r: Result<
    u32,
    CapError,
>)
    requires
        cs.wf(),
    ensures
        match r {
            Ok(n) => cs@.resolve_error(c) is None && n == Budget::of(cs@.cap(c as int)).capacity,
            Err(e) => cs@.resolve_error(c) == Some(e),
        },
{
    match cs.resolve(c) {
        Err(e) => Err(e),
        Ok(cap) => Ok(Budget::from_cap(&cap).capacity),
    }
}

/// The CPU time in slots 0, 1 and 2.
fn three<Z: ZeroFrames>(cs: &CSpace<SLOTS, Z>) -> (r: Result<(u32, u32, u32), CapError>)
    requires
        cs.wf(),
        cs@.resolve_error(0) is None,
        cs@.resolve_error(1) is None,
        cs@.resolve_error(2) is None,
    ensures
        r == Ok::<(u32, u32, u32), CapError>(
            (cs@.cap(0).size, cs@.cap(1).size, cs@.cap(2).size),
        ),
{
    match (cap_units(cs, 0), cap_units(cs, 1), cap_units(cs, 2)) {
        (Ok(a), Ok(b), Ok(c)) => Ok((a, b, c)),
        (Err(e), _, _) => Err(e),
        (_, Err(e), _) => Err(e),
        (_, _, Err(e)) => Err(e),
    }
}

/// Whether these amounts add up to `expected`: no CPU time was made or lost.
pub fn conserved(units: (u32, u32, u32), expected: u32) -> (b: bool)
    ensures
        b == (units.0 + units.1 + units.2 == expected),
{
    units.0 as u64 + units.1 as u64 + units.2 as u64 == expected as u64
}

/// Run the check. No memory is cleared: a `Sched` has none.
pub fn demo_sched_caps<Z: ZeroFrames>(zero: Z) -> (r: Result<(SchedReport, CSpace<SLOTS, Z>), CapError>)
    ensures
        r is Ok,
        r matches Ok((rep, cs)) ==> {
            &&& rep.after_split == (50u32, 30u32, 20u32)
            &&& rep.after_delegate == (50u32, 20u32, 30u32)
            &&& !rep.child_left
            &&& rep.reclaimed == ROOT
            &&& cs@.zeroed == zero.zeroed()
        },
{
    let mut cs: CSpace<SLOTS, Z> = CSpace::new(zero);
    proof {
        model::lemma_default_rights();
    }
    cs.set_root_sched(0, ROOT, 10);
    match cs.split(0, 1, 30) {
        Err(e) => {
            return Err(e);
        },
        Ok(()) => {},
    }
    match cs.split(0, 2, 20) {
        Err(e) => {
            return Err(e);
        },
        Ok(()) => {},
    }
    let after_split: (u32, u32, u32) = match three(&cs) {
        Err(e) => {
            return Err(e);
        },
        Ok(t) => t,
    };
    match cs.delegate(1, 2, 10) {
        Err(e) => {
            return Err(e);
        },
        Ok(()) => {},
    }
    let after_delegate: (u32, u32, u32) = match three(&cs) {
        Err(e) => {
            return Err(e);
        },
        Ok(t) => t,
    };
    let ghost before = cs@;
    match cs.revoke(0) {
        Err(e) => {
            return Err(e);
        },
        Ok(()) => {},
    }
    proof {
        lemma_revoked(before, cs@);
    }
    let child_left: bool = cs.resolve(1).is_ok() || cs.resolve(2).is_ok();
    match cap_units(&cs, 0) {
        Err(e) => Err(e),
        Ok(reclaimed) => Ok(
            (SchedReport { after_split, after_delegate, child_left, reclaimed }, cs),
        ),
    }
}

/// What REVOKE does to a `Sched` with two children.
proof fn lemma_revoked(v: model::CSpaceView, after: model::CSpaceView)
    requires
        v.slots.len() == SLOTS,
        v.cap(0).cap_type == CapType::Sched,
        v.cap(0).size == 50,
        forall|i: int|
            1 <= i <= 2 ==> (#[trigger] v.slots[i]).cap.cap_type == CapType::Sched && v.slots[i].parent
                == 0,
        v.cap(1).size == 20,
        v.cap(2).size == 30,
        forall|i: int| 3 <= i < SLOTS ==> !mdb::live(v.slots, i),
        v.revokes_to(0, after),
    ensures
        after.resolve_error(0) is None,
        after.cap(0).size == ROOT,
        after.resolve_error(1) == Some(CapError::EmptySlot),
        after.resolve_error(2) == Some(CapError::EmptySlot),
        after.zeroed == v.zeroed,
{
    let s = v.slots;
    assert(mdb::derived_from(s, 1, 0)) by {
        reveal_with_fuel(mdb::ancestor, 2);
        assert(s[1].parent == 0);
        assert(mdb::ancestor(s, 1, 1) == 0);
    }
    assert(mdb::derived_from(s, 2, 0)) by {
        reveal_with_fuel(mdb::ancestor, 2);
        assert(s[2].parent == 0);
        assert(mdb::ancestor(s, 2, 1) == 0);
    }
    let w = model::derived_budgets(s, 0);
    assert(model::total(w) == 50) by {
        reveal_with_fuel(model::total, 4);
        assert(w[0] == 0 && w[1] == 20 && w[2] == 30);
        model::lemma_zero_tail(w, 3);
        let h = w.take(3);
        assert(h.drop_last().drop_last().drop_last() =~= Seq::<nat>::empty());
        assert(h.last() == 30 && h.drop_last().last() == 20 && h.drop_last().drop_last().last() == 0);
    }
    assert(after.slots[0] == model::revoked_slots(s, 0)[0]);
    assert(after.slots[1] == model::revoked_slots(s, 0)[1]);
    assert(after.slots[2] == model::revoked_slots(s, 0)[2]);
    let lost = choose|lost: Seq<int>| #[trigger]
        model::lists_lost_objects(v.slots, after.slots, lost) && after.zeroed == v.zeroed
            + model::ranges_of(v.slots, lost);
    if lost.len() > 0 {
        assert(model::is_lost(v.slots, after.slots, lost[0]));
    }
    assert(model::ranges_of(v.slots, lost) =~= Seq::empty());
    assert(v.zeroed + Seq::<(u64, u32)>::empty() =~= v.zeroed);
}

} // verus!
