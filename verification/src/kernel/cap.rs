//! A check of the capability operations at boot: an `Untyped` is retyped, its frames are minted and
//! copied, and all of it is revoked.

use crate::cap::cap::{CapType, Frame};
use crate::cap::cspace::{CSpace, CapError};
use crate::cap::mdb;
use crate::cap::mdb::NIL;
use crate::cap::model;
use crate::cap::model::CSpaceView;
use crate::cap::revoke;
use crate::cap::rights::Rights;
use crate::cap::zero::ZeroFrames;
use vstd::prelude::*;

verus! {

/// The number of slots.
pub const SLOTS: usize = 64;

/// The frames of the `Untyped`.
pub const FRAMES: u32 = 64;

/// What the check came to.
pub struct CapReport {
    /// The frames that RETYPE took.
    pub used: u32,
    /// The first of them.
    pub first_frame: u64,
    /// The badge of the minted capability.
    pub badge: u64,
    /// What minting with more rights came to.
    pub widened: Result<(), CapError>,
    /// The capabilities left after REVOKE, besides the `Untyped`.
    pub survivors: usize,
    /// Why a revoked capability does not resolve.
    pub revoked: Option<CapError>,
    /// The frames that are in use after REVOKE.
    pub used_after: u32,
}

/// The number of slots from 1 on that hold a capability.
fn survivors<Z: ZeroFrames>(cs: &CSpace<SLOTS, Z>) -> (n: usize)
    requires
        cs.wf(),
    ensures
        (n == 0) == (forall|i: int| 1 <= i < SLOTS ==> !mdb::live(cs@.slots, i)),
        n == model::total(revoke::live_marks(cs@.slots).skip(1)),
{
    let mut n: usize = 0;
    let mut i: usize = 1;
    let ghost marks = revoke::live_marks(cs@.slots);
    assert(marks.subrange(1, 1) =~= Seq::empty());
    while i < SLOTS
        invariant
            1 <= i <= SLOTS,
            n < i,
            cs.wf(),
            cs@.slots.len() == SLOTS,
            marks == revoke::live_marks(cs@.slots),
            n == model::total(marks.subrange(1, i as int)),
            (n == 0) == (forall|k: int| 1 <= k < i ==> !mdb::live(cs@.slots, k)),
        decreases SLOTS - i,
    {
        assert(marks.subrange(1, i + 1).drop_last() =~= marks.subrange(1, i as int));
        if cs.resolve(i).is_ok() {
            assert(mdb::live(cs@.slots, i as int));
            n = n + 1;
        } else {
            assert(!mdb::live(cs@.slots, i as int));
        }
        i = i + 1;
    }
    assert(marks.subrange(1, i as int) =~= marks.skip(1));
    n
}

/// The frames that RETYPE clears in the check.
pub open spec fn retype_cleared(base: u64) -> Seq<(u64, u32)> {
    seq![
        (base, 1u32),
        ((base + 1) as u64, 1u32),
        ((base + 2) as u64, 1u32),
        ((base + 3) as u64, 1u32),
    ]
}

/// The frames that REVOKE clears in the check, in this order: the third and the fourth have one
/// capability each, the first has to wait for the one minted from it, and the second for its copy.
pub open spec fn revoke_cleared(base: u64) -> Seq<(u64, u32)> {
    seq![
        ((base + 2) as u64, 1u32),
        ((base + 3) as u64, 1u32),
        (base, 1u32),
        ((base + 1) as u64, 1u32),
    ]
}

/// Run the check on the frames from `base` on. Whatever they are, each operation does what it
/// should, and the four frames that are used are cleared before and after.
pub fn run<Z: ZeroFrames>(base: u64, zero: Z) -> (r: Result<
    (CapReport, CSpace<SLOTS, Z>),
    CapError,
>)
    requires
        base + FRAMES <= u64::MAX,
    ensures
        r is Ok,
        r matches Ok((rep, cs)) ==> {
            &&& rep.used == 4
            &&& rep.first_frame == base
            &&& rep.badge == 0xF00D
            &&& rep.widened == Err::<(), CapError>(CapError::InsufficientRights)
            &&& rep.survivors == 0
            &&& rep.revoked == Some(CapError::EmptySlot)
            &&& rep.used_after == 0
            &&& cs@.zeroed == zero.zeroed() + retype_cleared(base) + revoke_cleared(base)
        },
{
    let mut cs: CSpace<SLOTS, Z> = CSpace::new(zero);
    proof {
        if mdb::has_child(cs@.slots, 0) {
            let i = choose|i: int| mdb::child_of(cs@.slots, i, 0);
            assert(!mdb::live(cs@.slots, i));
        }
        model::lemma_default_rights();
    }
    cs.set_root_untyped(base, FRAMES);
    proof {
        assert forall|i: int| 1 <= i < 5 implies !#[trigger] mdb::live(cs@.slots, i) by {}
        assert(cs@.retype_error(0, CapType::Frame, 1, 4, 1) is None);
    }
    match cs.retype(0, CapType::Frame, 1, 4, 1) {
        Err(e) => {
            return Err(e);
        },
        Ok(()) => {},
    }
    let first_frame: u64 = match cs.get::<Frame>(1) {
        Err(e) => {
            return Err(e);
        },
        Ok(f) => f.objref(),
    };
    let used: u32 = match cs.resolve(0) {
        Err(e) => {
            return Err(e);
        },
        Ok(cap) => cap.watermark,
    };
    match cs.mint(1, 5, Rights::read(), 0xF00D) {
        Err(e) => {
            return Err(e);
        },
        Ok(()) => {},
    }
    let widened: Result<(), CapError> = cs.mint(5, 6, Rights::read() | Rights::write(), 0);
    match cs.copy(2, 7) {
        Err(e) => {
            return Err(e);
        },
        Ok(()) => {},
    }
    let badge: u64 = match cs.get::<Frame>(5) {
        Err(e) => {
            return Err(e);
        },
        Ok(m) => m.badge(),
    };
    let ghost before = cs@.slots;
    proof {
        assert(cs@.zeroed =~= zero.zeroed() + retype_cleared(base));
        lemma_revoked(cs@, base);
        assert forall|i: int| 1 <= i < SLOTS && mdb::live(before, i) implies mdb::derived_from(
            before,
            i,
            0,
        ) by {
            lemma_near(before, i);
        }
    }
    match cs.revoke(0) {
        Err(e) => {
            return Err(e);
        },
        Ok(()) => {},
    }
    proof {
        assert forall|i: int| 1 <= i < SLOTS implies !mdb::live(cs@.slots, i) by {
            assert(cs@.slots[i] == model::revoked_slots(before, 0)[i]);
        }
    }
    let left: usize = survivors(&cs);
    let revoked: Option<CapError> = match cs.get::<Frame>(1) {
        Err(e) => Some(e),
        Ok(_) => None,
    };
    let used_after: u32 = match cs.resolve(0) {
        Err(e) => {
            return Err(e);
        },
        Ok(cap) => cap.watermark,
    };
    Ok((CapReport { used, first_frame, badge, widened, survivors: left, revoked, used_after }, cs))
}

/// A child or grandchild of slot 0 is derived from it.
proof fn lemma_near(s: Seq<mdb::Cte>, i: int)
    requires
        mdb::live(s, i),
        i != 0,
        s[i].parent == 0 || (0 <= s[i].parent < s.len() && s[s[i].parent as int].parent == 0),
        s.len() > 0,
    ensures
        mdb::derived_from(s, i, 0),
{
    reveal_with_fuel(mdb::ancestor, 3);
    if s[i].parent == 0 {
        assert(mdb::ancestor(s, i, 1) == 0);
    } else {
        assert(mdb::ancestor(s, i, 2) == 0);
    }
}

/// The frame that slot `i` names in the check.
spec fn frame_of(base: u64, i: int) -> u64 {
    if i == 1 || i == 5 {
        base
    } else if i == 2 || i == 7 {
        (base + 1) as u64
    } else if i == 3 {
        (base + 2) as u64
    } else {
        (base + 3) as u64
    }
}

/// The slots that the check fills.
spec fn is_used(i: int) -> bool {
    1 <= i <= 5 || i == 7
}

/// The space of the check while it is revoked: the slots in `gone` are empty already.
spec fn is_stage(v: CSpaceView, base: u64, gone: Set<int>) -> bool {
    &&& v.wf()
    &&& v.slots.len() == SLOTS
    &&& v.cap(0).cap_type == CapType::Untyped
    &&& v.slots[0].parent == NIL
    &&& forall|i: int|
        1 <= i < SLOTS && is_used(i) && !gone.contains(i) ==> {
            &&& (#[trigger] v.slots[i]).cap.cap_type == CapType::Frame
            &&& v.slots[i].cap.objref == frame_of(base, i)
            &&& v.slots[i].cap.size == 1
            &&& v.slots[i].parent == if i == 5 {
                1usize
            } else {
                0
            }
        }
    &&& forall|i: int|
        1 <= i < SLOTS && !(is_used(i) && !gone.contains(i)) ==> !#[trigger] mdb::live(v.slots, i)
    &&& !gone.contains(5) ==> !gone.contains(1)
}

/// One step of the revocation: slot `d` goes next.
proof fn lemma_stage(v: CSpaceView, base: u64, gone: Set<int>, d: int, last: bool)
    requires
        base + FRAMES <= u64::MAX,
        is_stage(v, base, gone),
        is_used(d),
        !gone.contains(d),
        d == 1 ==> gone.contains(5),
        forall|i: int| is_used(i) && i < d && !gone.contains(i) ==> i == 1 && !gone.contains(5),
        last == !exists|i: int|
            #![trigger frame_of(base, i)]
            i != d && is_used(i) && !gone.contains(i) && frame_of(base, i) == frame_of(base, d),
    ensures
        v.revoke_step(0) == v.destroyed(d),
        is_stage(v.destroyed(d), base, gone.insert(d)),
        v.destroyed(d).zeroed == (if last {
            v.zeroed.push((frame_of(base, d), 1u32))
        } else {
            v.zeroed
        }),
{
    let s = v.slots;
    assert(mdb::live(s, d) && s[d].cap.objref == frame_of(base, d));
    assert forall|i: int| !#[trigger] mdb::child_of(s, i, d) by {
        if mdb::live(s, i) && i != 0 {
            assert(is_used(i) && !gone.contains(i));
        }
    }
    assert forall|i: int| is_used(i) && !gone.contains(i) implies #[trigger] mdb::derived_from(
        s,
        i,
        0,
    ) by {
        assert(mdb::live(s, i));
        if i == 5 {
            assert(mdb::live(s, 1) && s[1].parent == 0);
        }
        lemma_near(s, i);
    }
    assert(model::is_revocable(s, 0, d));
    assert forall|i: int| #[trigger] model::is_revocable(s, 0, i) implies d <= i by {
        assert(mdb::live(s, i) && i != 0);
        assert(is_used(i) && !gone.contains(i));
        if i < d {
            assert(mdb::live(s, 5) && s[5].parent == 1);
            assert(mdb::child_of(s, 5, 1));
        }
    }
    assert(model::is_next_revoked(s, 0, d));
    revoke::lemma_revoke_step(v, 0, d);
    revoke::lemma_destroy_keeps_wf(v, d);
    let t = v.destroyed(d).slots;
    assert(t =~= s.update(d, mdb::Cte::empty_spec()));
    assert(model::still_named(t, s[d].cap) == !last) by {
        if model::still_named(t, s[d].cap) {
            let k = choose|k: int|
                mdb::live(t, k) && model::same_object(#[trigger] t[k].cap, s[d].cap);
            assert(k != 0 && k != d && mdb::live(s, k));
            assert(is_used(k) && !gone.contains(k));
            assert(frame_of(base, k) == frame_of(base, d));
        }
        if !last {
            let i = choose|i: int|
                #![trigger frame_of(base, i)]
                i != d && is_used(i) && !gone.contains(i) && frame_of(base, i) == frame_of(
                    base,
                    d,
                );
            assert(s[i].cap.cap_type == CapType::Frame);
            assert(mdb::live(t, i) && model::same_object(t[i].cap, s[d].cap));
        }
    }
    assert forall|i: int|
        1 <= i < SLOTS && !(is_used(i) && !gone.insert(d).contains(i)) implies !#[trigger] mdb::live(
        t,
        i,
    ) by {
        if i != d {
            assert(!mdb::live(s, i));
        }
    }
}

/// What REVOKE clears in the check.
proof fn lemma_revoked(v: CSpaceView, base: u64)
    requires
        base + FRAMES <= u64::MAX,
        is_stage(v, base, Set::empty()),
    ensures
        v.revoked(0).zeroed == v.zeroed + revoke_cleared(base),
{
    let g0 = Set::<int>::empty();
    let g1 = g0.insert(2);
    let g2 = g1.insert(3);
    let g3 = g2.insert(4);
    let g4 = g3.insert(5);
    let g5 = g4.insert(1);
    let g6 = g5.insert(7);
    let v1 = v.revoke_step(0);
    let v2 = v1.revoke_step(0);
    let v3 = v2.revoke_step(0);
    let v4 = v3.revoke_step(0);
    let v5 = v4.revoke_step(0);
    let v6 = v5.revoke_step(0);
    assert(frame_of(base, 7) == frame_of(base, 2) && frame_of(base, 1) == frame_of(base, 5));
    lemma_stage(v, base, g0, 2, false);
    lemma_stage(v1, base, g1, 3, true);
    lemma_stage(v2, base, g2, 4, true);
    lemma_stage(v3, base, g3, 5, false);
    lemma_stage(v4, base, g4, 1, true);
    lemma_stage(v5, base, g5, 7, true);
    assert(v.revoke_steps(0, 6) == v6) by {
        reveal_with_fuel(CSpaceView::revoke_steps, 7);
    }
    assert forall|d: int| !#[trigger] mdb::derived_from(v6.slots, d, 0) by {
        if mdb::live(v6.slots, d) && d != 0 {
            assert(is_used(d) && !g6.contains(d));
        }
    }
    revoke::lemma_revoke_steps_done(v, 0, 6, v.slots.len());
    assert(v6.zeroed =~= v.zeroed + revoke_cleared(base));
}

} // verus!
