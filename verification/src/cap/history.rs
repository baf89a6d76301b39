//! What holds of a CSpace over any number of operations.
//!
//! A history is what a space went through: its states, and the operation between each two of them.
//! Every operation of [`CSpace`](crate::cap::cspace::CSpace) is one, and so is GRANT, seen from
//! either side. The primordial `Untyped` is installed before the history begins.

use crate::cap::cap::{CapType, RawCap};
use crate::cap::cspace::{Cptr, GrantMode};
use crate::cap::laws;
use crate::cap::mdb;
use crate::cap::mdb::{Cte, NIL};
use crate::cap::model;
use crate::cap::model::CSpaceView;
use crate::cap::rights::Rights;
use vstd::prelude::*;

verus! {

/// An operation on a space.
pub enum Operation {
    Retype { ut: Cptr, new_type: CapType, frames: u32, count: u32, dest: Cptr },
    Mint { src: Cptr, dest: Cptr, rights: Rights, badge: u64 },
    Copy { src: Cptr, dest: Cptr },
    Move { src: Cptr, dest: Cptr },
    Split { src: Cptr, dest: Cptr, amount: u32 },
    Delegate { src: Cptr, dest: Cptr, amount: u32 },
    MintReply { dest: Cptr, caller: u64, badge: u64 },
    ConsumeReply { dest: Cptr },
    Revoke { c: Cptr },
    Delete { c: Cptr },
    /// A `Sched` installed by the kernel.
    InstallSched { slot: Cptr, budget: u32, period: u32, rights: Rights },
    /// A `Domain`, `Frame`, `SharedRo` or `Notification` installed by the kernel.
    Install { slot: Cptr, cap: RawCap },
    /// GRANT from this space into another one.
    GrantOut { src: Cptr, to: CSpaceView, dest: Cptr, rights: Rights, mode: GrantMode },
    /// GRANT from another space into this one.
    GrantIn {
        from: CSpaceView,
        src: Cptr,
        dest: Cptr,
        rights: Rights,
        badge: u64,
        mode: GrantMode,
    },
}

/// Every `Untyped` of the space carries RETYPE alone, as it was installed.
pub open spec fn untyped_rights_ok(v: CSpaceView) -> bool {
    forall|i: int|
        mdb::live(v.slots, i) && v.slots[i].cap.cap_type == CapType::Untyped ==> (
        #[trigger] v.slots[i]).cap.rights == (Rights { bits: 0x20 })
}

impl Operation {
    /// The operation takes a space from state `v` to state `after`. One that is refused changes
    /// nothing.
    #[verifier::opaque]
    pub open spec fn leads_to(self, v: CSpaceView, after: CSpaceView) -> bool {
        match self {
            Operation::Retype { ut, new_type, frames, count, dest } => after == (if v.retype_error(
                ut,
                new_type,
                frames,
                count,
                dest,
            ) is None {
                v.retyped(ut, new_type, frames, count, dest)
            } else {
                v
            }),
            Operation::Mint { src, dest, rights, badge } => after == (if v.mint_error(
                src,
                dest,
                rights,
            ) is None {
                v.minted(src, dest, rights, badge)
            } else {
                v
            }),
            Operation::Copy { src, dest } => after == (if v.copy_error(src, dest) is None {
                v.copied(src, dest)
            } else {
                v
            }),
            Operation::Move { src, dest } => after == (if v.move_error(src, dest) is None {
                v.moved(src, dest)
            } else {
                v
            }),
            Operation::Split { src, dest, amount } => if v.split_error(src, dest, amount) is None {
                v.next_obj < u64::MAX && after == v.splitted(src, dest, amount)
            } else {
                after == v
            },
            Operation::Delegate { src, dest, amount } => after == (if v.delegate_error(
                src,
                dest,
                amount,
            ) is None {
                v.delegated(src, dest, amount)
            } else {
                v
            }),
            Operation::MintReply { dest, caller, badge } => after == (if v.place_error(
                dest,
            ) is None {
                v.placed(dest as int, CSpaceView::reply_cap(caller, badge), NIL)
            } else {
                v
            }),
            Operation::ConsumeReply { dest } => after == (if v.reply_error(dest) is None {
                v.vacated(dest as int)
            } else {
                v
            }),
            Operation::Revoke { c } => if v.resolve_error(c) is None {
                v.revokes_to(c, after)
            } else {
                after == v
            },
            Operation::Delete { c } => if v.resolve_error(c) is None {
                v.deletes_to(c, after)
            } else {
                after == v
            },
            Operation::InstallSched { slot, budget, period, rights } => {
                &&& v.vacant(slot as int)
                &&& v.next_obj < u64::MAX
                &&& after == v.with_sched(slot as int, budget, period, rights)
            },
            Operation::Install { slot, cap } => {
                &&& v.vacant(slot as int)
                &&& cap.cap_type == CapType::Domain || cap.cap_type == CapType::Frame
                    || cap.cap_type == CapType::SharedRo || cap.cap_type == CapType::Notification
                &&& after == v.placed(slot as int, cap, NIL)
            },
            Operation::GrantOut { src, to, dest, rights, mode } => after == (
            if model::grant_error(v, src, to, dest, rights, mode) is None && mode
                == GrantMode::Move {
                v.vacated(src as int)
            } else {
                v
            }),
            Operation::GrantIn { from, src, dest, rights, badge, mode } => {
                &&& untyped_rights_ok(from)
                &&& after == (if model::grant_error(from, src, v, dest, rights, mode) is None {
                    v.placed(
                        dest as int,
                        RawCap { rights, badge, ..from.cap(src as int) },
                        NIL,
                    )
                } else {
                    v
                })
            },
        }
    }

    /// Where what is in slot `r` is after the operation.
    pub open spec fn slot_after(self, v: CSpaceView, r: int) -> int {
        match self {
            Operation::Move { src, dest } => if src == r && v.move_error(src, dest) is None {
                dest as int
            } else {
                r
            },
            _ => r,
        }
    }

    /// The operation deletes slot `r`, uses it up or gives it away.
    pub open spec fn removes(self, v: CSpaceView, r: int) -> bool {
        match self {
            Operation::Delete { c } => c == r,
            Operation::ConsumeReply { dest } => dest == r && v.reply_error(dest) is None,
            Operation::GrantOut { src, to, dest, rights, mode } => src == r && mode
                == GrantMode::Move && model::grant_error(v, src, to, dest, rights, mode) is None,
            _ => false,
        }
    }

    /// The operation retypes out of slot `r`, or revokes what was.
    pub open spec fn moves_watermark(self, r: int) -> bool {
        match self {
            Operation::Retype { ut, .. } => ut == r,
            Operation::Revoke { c } => c == r,
            _ => false,
        }
    }

    /// The operation revokes or deletes slot `r`.
    pub open spec fn revokes(self, r: int) -> bool {
        match self {
            Operation::Revoke { c } => c == r,
            Operation::Delete { c } => c == r,
            _ => false,
        }
    }

    /// The runs of frames that the operation retypes, by their first frame and their length.
    pub open spec fn retyped_runs(self, v: CSpaceView) -> Seq<(int, int)> {
        match self {
            Operation::Retype { ut, new_type, frames, count, dest } => if v.retype_error(
                ut,
                new_type,
                frames,
                count,
                dest,
            ) is None {
                Seq::new(
                    count as nat,
                    |k: int| (v.retyped_frame(ut, frames, k), frames as int),
                )
            } else {
                Seq::empty()
            },
            _ => Seq::empty(),
        }
    }

    /// The identity that the operation gives to a new `Sched`.
    pub open spec fn sched_made(self, v: CSpaceView) -> Seq<u64> {
        match self {
            Operation::InstallSched { .. } => seq![v.next_obj],
            Operation::Split { src, dest, amount } => if v.split_error(src, dest, amount) is None {
                seq![v.next_obj]
            } else {
                Seq::empty()
            },
            _ => Seq::empty(),
        }
    }

    /// The operation brings a `Sched` in from another space.
    pub open spec fn brings_sched(self) -> bool {
        match self {
            Operation::GrantIn { from, src, .. } => from.cap(src as int).cap_type
                == CapType::Sched,
            _ => false,
        }
    }
}

/// Each operation leads from one state to the next, and every state is sound.
pub open spec fn is_history(states: Seq<CSpaceView>, ops: Seq<Operation>) -> bool {
    &&& states.len() == ops.len() + 1
    &&& forall|i: int| 0 <= i < states.len() ==> (#[trigger] states[i]).wf()
    &&& forall|i: int|
        0 <= i < ops.len() ==> (#[trigger] ops[i]).leads_to(states[i], states[i + 1])
}

/// Where what was in slot `r` at first is after `n` operations.
pub open spec fn slot_at(states: Seq<CSpaceView>, ops: Seq<Operation>, r: int, n: int) -> int
    decreases n,
{
    if n <= 0 {
        r
    } else {
        ops[n - 1].slot_after(states[n - 1], slot_at(states, ops, r, n - 1))
    }
}

/// All runs of frames that the first `n` operations retype.
pub open spec fn all_runs(states: Seq<CSpaceView>, ops: Seq<Operation>, n: int) -> Seq<(int, int)>
    decreases n,
{
    if n <= 0 {
        Seq::empty()
    } else {
        all_runs(states, ops, n - 1) + ops[n - 1].retyped_runs(states[n - 1])
    }
}

/// The identities of all `Sched`s that the first `n` operations make.
pub open spec fn all_scheds(states: Seq<CSpaceView>, ops: Seq<Operation>, n: int) -> Seq<u64>
    decreases n,
{
    if n <= 0 {
        Seq::empty()
    } else {
        all_scheds(states, ops, n - 1) + ops[n - 1].sched_made(states[n - 1])
    }
}

/// The frames in all of the runs together.
pub open spec fn frames_in(runs: Seq<(int, int)>) -> int
    decreases runs.len(),
{
    if runs.len() == 0 {
        0
    } else {
        frames_in(runs.drop_last()) + runs.last().1
    }
}

/// Slot `r` holds the only `Untyped` of the space: a root over `frames` frames from `base` on, with
/// RETYPE alone.
pub open spec fn holds_untyped(v: CSpaceView, r: int, base: u64, frames: u32) -> bool {
    &&& mdb::live(v.slots, r)
    &&& v.slots[r].parent == NIL
    &&& v.cap(r) == (RawCap {
        cap_type: CapType::Untyped,
        rights: Rights { bits: 0x20 },
        objref: base,
        size: frames,
        watermark: v.cap(r).watermark,
        aux: 0,
        badge: 0,
    })
    &&& forall|i: int|
        mdb::live(v.slots, i) && (#[trigger] v.slots[i]).cap.cap_type == CapType::Untyped ==> i
            == r
}

/// A root is derived from nothing.
proof fn lemma_roots_descend_from_nothing(s: Seq<Cte>, r: int, c: int)
    requires
        mdb::mdb_wf(s),
        mdb::live(s, r),
        s[r].parent == NIL,
        0 <= c < s.len(),
    ensures
        !mdb::descends(s, r, c),
        !mdb::derived_from(s, r, c),
{
    mdb::lemma_descends_step(s, r, c);
}

/// The root in slot `r` of `v` is in slot `s` of `after`, with the same type, object, rights and
/// badge. Only a `Sched` has gained or lost budget, and only an `Untyped` was consumed.
pub open spec fn root_kept(v: CSpaceView, r: int, after: CSpaceView, s: int) -> bool {
    &&& mdb::live(after.slots, s)
    &&& after.slots[s].parent == NIL
    &&& after.cap(s) == (RawCap {
        size: after.cap(s).size,
        watermark: after.cap(s).watermark,
        ..v.cap(r)
    })
    &&& v.cap(r).cap_type != CapType::Sched ==> after.cap(s).size == v.cap(r).size
    &&& v.cap(r).cap_type != CapType::Untyped ==> after.cap(s).watermark == v.cap(r).watermark
}

/// A root stays where it is, or where it is moved to, whatever is done with other slots: nobody
/// can revoke it.
pub proof fn law_roots_stay(v: CSpaceView, op: Operation, after: CSpaceView, r: int)
    requires
        v.wf(),
        op.leads_to(v, after),
        mdb::live(v.slots, r),
        v.slots[r].parent == NIL,
        !op.removes(v, r),
    ensures
        root_kept(v, r, after, op.slot_after(v, r)),
        !op.moves_watermark(r) ==> after.cap(op.slot_after(v, r)).watermark == v.cap(r).watermark,
{
    reveal(Operation::leads_to);
    match op {
        Operation::Retype { ut, new_type, frames, count, dest } => {
            if v.retype_error(ut, new_type, frames, count, dest) is None {
                assert(!(dest <= r < dest + count));
            }
            assert(root_kept(v, r, after, r));
        },
        Operation::Move { src, dest } => {
            assert(root_kept(v, r, after, op.slot_after(v, r)));
        },
        Operation::Revoke { c } => {
            if v.resolve_error(c) is None {
                lemma_roots_descend_from_nothing(v.slots, r, c as int);
            }
            assert(root_kept(v, r, after, r));
        },
        Operation::Delete { c } => {
            if v.resolve_error(c) is None {
                lemma_roots_descend_from_nothing(v.slots, r, c as int);
                let w = v.revoked(c);
                let p = w.slots[c as int].parent;
                assert(w.slots[r] == v.slots[r]);
                assert(after == w.destroyed(c as int));
                assert(r != c);
                if w.slots[c as int].cap.cap_type == CapType::Sched && p != NIL {
                    assert(mdb::link_ok(v.slots, c as int));
                    if p == r {
                        assert(root_kept(v, r, after, r));
                    } else {
                        assert(after.slots[r] == w.slots[r]);
                    }
                } else {
                    assert(after.slots[r] == w.slots[r]);
                }
            }
            assert(root_kept(v, r, after, r));
        },
        _ => {
            assert(root_kept(v, r, after, r));
        },
    }
}

/// The `Untyped` of a space stays its only one, over the same frames, and its watermark only moves
/// by what RETYPE takes.
pub proof fn law_untyped_stays(
    v: CSpaceView,
    op: Operation,
    after: CSpaceView,
    r: int,
    base: u64,
    frames: u32,
)
    requires
        v.wf(),
        op.leads_to(v, after),
        holds_untyped(v, r, base, frames),
        !op.revokes(r),
    ensures
        holds_untyped(after, op.slot_after(v, r), base, frames),
        after.cap(op.slot_after(v, r)).watermark == v.cap(r).watermark + frames_in(
            op.retyped_runs(v),
        ),
{
    reveal(Operation::leads_to);
    model::lemma_default_rights();
    law_roots_stay(v, op, after, r);
    let u = op.slot_after(v, r);
    assert forall|i: int|
        mdb::live(after.slots, i) && (#[trigger] after.slots[i]).cap.cap_type
            == CapType::Untyped implies i == u by {
        lemma_untyped_comes_from_untyped(v, op, after, r, i);
    }
    match op {
        Operation::Retype { ut, new_type, frames: f, count, dest } => {
            if v.retype_error(ut, new_type, f, count, dest) is None {
                assert(v.slots[ut as int].cap.cap_type == CapType::Untyped);
                lemma_frames_in_equal(op.retyped_runs(v), f as int);
                assert(count * f == f * count) by (nonlinear_arith);
                assert(v.slots[r].cap.watermark <= v.slots[r].cap.size);
                assert(after.cap(r).watermark == v.cap(r).watermark + f * count);
            }
        },
        _ => {},
    }
}

/// An operation makes no `Untyped`.
proof fn lemma_untyped_comes_from_untyped(
    v: CSpaceView,
    op: Operation,
    after: CSpaceView,
    r: int,
    i: int,
)
    requires
        v.wf(),
        op.leads_to(v, after),
        mdb::live(v.slots, r),
        forall|j: int|
            mdb::live(v.slots, j) && (#[trigger] v.slots[j]).cap.cap_type == CapType::Untyped ==> j
                == r,
        mdb::live(after.slots, i),
        after.slots[i].cap.cap_type == CapType::Untyped,
    ensures
        i == op.slot_after(v, r),
{
    reveal(Operation::leads_to);
    model::lemma_default_rights();
    match op {
        Operation::GrantIn { from, src, dest, rights, badge, mode } => {
            if model::grant_error(from, src, v, dest, rights, mode) is None && i == dest {
                assert(mdb::live(from.slots, src as int));
                assert(from.slots[src as int].cap.cap_type == CapType::Untyped);
            } else {
                assert(v.slots[i].cap.cap_type == CapType::Untyped);
            }
        },
        Operation::Move { src, dest } => {
            if v.move_error(src, dest) is None && i == dest {
                assert(v.slots[src as int].cap.cap_type == CapType::Untyped);
            } else {
                assert(v.slots[i].cap.cap_type == CapType::Untyped);
            }
        },
        Operation::Delete { c } => {
            if v.resolve_error(c) is None {
                assert(mdb::link_ok(v.slots, c as int));
            }
            assert(mdb::live(v.slots, i) && v.slots[i].cap.cap_type == CapType::Untyped);
        },
        _ => {
            assert(mdb::live(v.slots, i) && v.slots[i].cap.cap_type == CapType::Untyped);
        },
    }
}

/// Runs of one length.
proof fn lemma_frames_in_equal(runs: Seq<(int, int)>, f: int)
    requires
        forall|i: int| 0 <= i < runs.len() ==> (#[trigger] runs[i]).1 == f,
    ensures
        frames_in(runs) == runs.len() * f,
    decreases runs.len(),
{
    if runs.len() > 0 {
        lemma_frames_in_equal(runs.drop_last(), f);
        assert((runs.len() - 1) * f + f == runs.len() * f) by (nonlinear_arith);
    } else {
        assert(0 * f == 0) by (nonlinear_arith);
    }
}

/// The frames in two lists of runs are those of the one and of the other.
proof fn lemma_frames_in_both(a: Seq<(int, int)>, b: Seq<(int, int)>)
    ensures
        frames_in(a + b) == frames_in(a) + frames_in(b),
    decreases b.len(),
{
    if b.len() > 0 {
        assert((a + b).drop_last() =~= a + b.drop_last());
        lemma_frames_in_both(a, b.drop_last());
    } else {
        assert(a + b =~= a);
    }
}

/// A space that was made and given its primordial `Untyped` holds no other.
pub proof fn law_fresh_space_holds_its_untyped(
    n: nat,
    zeroed: Seq<(u64, u32)>,
    base: u64,
    frames: u32,
)
    requires
        0 < n,
    ensures
        ({
            let empty = CSpaceView {
                slots: Seq::new(n, |i: int| Cte::empty_spec()),
                next_obj: 1,
                zeroed,
            };
            let v = empty.placed(
                0,
                RawCap {
                    cap_type: CapType::Untyped,
                    rights: Rights { bits: 0x20 },
                    objref: base,
                    size: frames,
                    watermark: 0,
                    aux: 0,
                    badge: 0,
                },
                NIL,
            );
            holds_untyped(v, 0, base, frames) && v.cap(0).watermark == 0
        }),
{
}

/// No frame is ever retyped twice. Whatever is done with a space, short of revoking or deleting its
/// `Untyped`: the runs of frames that all RETYPEs together have handed out share no frame, they lie
/// inside the frames of the `Untyped`, past what it had used at first, and its watermark has moved
/// by exactly the frames that are in them.
pub proof fn law_no_frame_is_retyped_twice(
    states: Seq<CSpaceView>,
    ops: Seq<Operation>,
    r: int,
    base: u64,
    frames: u32,
)
    requires
        is_history(states, ops),
        holds_untyped(states[0], r, base, frames),
        forall|i: int|
            0 <= i < ops.len() ==> !(#[trigger] ops[i]).revokes(slot_at(states, ops, r, i)),
    ensures
        ({
            let n = ops.len() as int;
            let runs = all_runs(states, ops, n);
            let u = slot_at(states, ops, r, n);
            let first = states[0].cap(r).watermark;
            let now = states[n].cap(u).watermark;
            &&& holds_untyped(states[n], u, base, frames)
            &&& now == first + frames_in(runs)
            &&& forall|i: int|
                0 <= i < runs.len() ==> base + first <= (#[trigger] runs[i]).0 && runs[i].0
                    + runs[i].1 <= base + now && runs[i].0 + runs[i].1 <= base + frames
            &&& forall|i: int, j: int|
                0 <= i < j < runs.len() ==> (#[trigger] runs[i]).0 + runs[i].1 <= (
                #[trigger] runs[j]).0
        }),
{
    let n = ops.len() as int;
    lemma_runs_so_far(states, ops, r, base, frames, n);
    let u = slot_at(states, ops, r, n);
    assert(states[n].wf());
    assert(states[n].slots[u].cap.watermark <= states[n].slots[u].cap.size);
}

/// What holds after `n` operations.
proof fn lemma_runs_so_far(
    states: Seq<CSpaceView>,
    ops: Seq<Operation>,
    r: int,
    base: u64,
    frames: u32,
    n: int,
)
    requires
        is_history(states, ops),
        holds_untyped(states[0], r, base, frames),
        forall|i: int|
            0 <= i < ops.len() ==> !(#[trigger] ops[i]).revokes(slot_at(states, ops, r, i)),
        0 <= n <= ops.len(),
    ensures
        holds_untyped(states[n], slot_at(states, ops, r, n), base, frames),
        ({
            let runs = all_runs(states, ops, n);
            let first = states[0].cap(r).watermark;
            let now = states[n].cap(slot_at(states, ops, r, n)).watermark;
            &&& now == first + frames_in(runs)
            &&& first <= now
            &&& in_order(runs, base + first, base + now)
        }),
    decreases n,
{
    if n > 0 {
        lemma_runs_so_far(states, ops, r, base, frames, n - 1);
        let v = states[n - 1];
        let op = ops[n - 1];
        let u = slot_at(states, ops, r, n - 1);
        assert(op.leads_to(v, states[n - 1 + 1]));
        assert(!op.revokes(u));
        assert(v.wf());
        law_untyped_stays(v, op, states[n], u, base, frames);
        let old_runs = all_runs(states, ops, n - 1);
        let new_runs = op.retyped_runs(v);
        let first = base + states[0].cap(r).watermark;
        let used = base + v.cap(u).watermark;
        let now = base + states[n].cap(slot_at(states, ops, r, n)).watermark;
        lemma_new_runs(v, op, states[n], u, base, frames);
        lemma_frames_in_both(old_runs, new_runs);
        lemma_in_order(old_runs, new_runs, first, used, now);
        assert(all_runs(states, ops, n) == old_runs + new_runs);
        assert(in_order(all_runs(states, ops, n), first, now));
    }
}

/// The runs follow one another between `lo` and `hi`.
spec fn in_order(runs: Seq<(int, int)>, lo: int, hi: int) -> bool {
    &&& forall|i: int|
        0 <= i < runs.len() ==> lo <= (#[trigger] runs[i]).0 && runs[i].0 + runs[i].1 <= hi
    &&& forall|i: int, j: int|
        0 <= i < j < runs.len() ==> (#[trigger] runs[i]).0 + runs[i].1 <= (#[trigger] runs[j]).0
}

/// Runs up to `mid`, and then runs from there on.
proof fn lemma_in_order(a: Seq<(int, int)>, b: Seq<(int, int)>, lo: int, mid: int, hi: int)
    requires
        in_order(a, lo, mid),
        in_order(b, mid, hi),
        lo <= mid <= hi,
    ensures
        in_order(a + b, lo, hi),
{
    let c = a + b;
    let m = a.len() as int;
    assert forall|i: int| 0 <= i < c.len() implies lo <= (#[trigger] c[i]).0 && c[i].0 + c[i].1
        <= hi by {
        if i < m {
            assert(c[i] == a[i]);
        } else {
            assert(c[i] == b[i - m]);
        }
    }
    assert forall|i: int, j: int| 0 <= i < j < c.len() implies (#[trigger] c[i]).0 + c[i].1 <= (
    #[trigger] c[j]).0 by {
        if j < m {
            assert(c[i] == a[i] && c[j] == a[j]);
        } else if i < m {
            assert(c[i] == a[i] && c[j] == b[j - m]);
        } else {
            assert(c[i] == b[i - m] && c[j] == b[j - m]);
        }
    }
}

/// The runs of one operation lie between the watermark before it and the one after it.
proof fn lemma_new_runs(
    v: CSpaceView,
    op: Operation,
    after: CSpaceView,
    u: int,
    base: u64,
    frames: u32,
)
    requires
        v.wf(),
        op.leads_to(v, after),
        holds_untyped(v, u, base, frames),
        !op.revokes(u),
    ensures
        in_order(
            op.retyped_runs(v),
            base + v.cap(u).watermark,
            base + after.cap(op.slot_after(v, u)).watermark,
        ),
        v.cap(u).watermark <= after.cap(op.slot_after(v, u)).watermark,
{
    reveal(Operation::leads_to);
    law_untyped_stays(v, op, after, u, base, frames);
    let runs = op.retyped_runs(v);
    match op {
        Operation::Retype { ut, new_type, frames: f, count, dest } => {
            if v.retype_error(ut, new_type, f, count, dest) is None {
                assert(v.slots[ut as int].cap.cap_type == CapType::Untyped);
                assert forall|k: int| 0 <= k < runs.len() implies base + v.cap(u).watermark <= (
                #[trigger] runs[k]).0 && runs[k].0 + runs[k].1 <= base + after.cap(
                    u,
                ).watermark by {
                    laws::law_retype_stays_in_fresh_frames(v, ut, new_type, f, count, dest, k);
                }
                assert forall|j: int, k: int| 0 <= j < k < runs.len() implies (
                #[trigger] runs[j]).0 + runs[j].1 <= (#[trigger] runs[k]).0 by {
                    laws::law_retyped_objects_are_disjoint(v, ut, f, j, k);
                }
                laws::law_retype_stays_in_fresh_frames(v, ut, new_type, f, count, dest, 0);
            }
        },
        _ => {},
    }
}

/// No identity is given out twice: every `Sched` that the kernel installs or that SPLIT makes has
/// one that no other `Sched` made in the space has, before or after. Identities are given out in
/// order, and none is ever taken back.
pub proof fn law_sched_identities_are_new(states: Seq<CSpaceView>, ops: Seq<Operation>, n: int)
    requires
        is_history(states, ops),
        0 <= n <= ops.len(),
    ensures
        states[0].next_obj <= states[n].next_obj,
        ({
            let ids = all_scheds(states, ops, n);
            &&& forall|i: int|
                0 <= i < ids.len() ==> states[0].next_obj <= #[trigger] ids[i] < states[n].next_obj
            &&& forall|i: int, j: int|
                0 <= i < j < ids.len() ==> #[trigger] ids[i] < #[trigger] ids[j]
        }),
    decreases n,
{
    reveal(Operation::leads_to);
    if n > 0 {
        law_sched_identities_are_new(states, ops, n - 1);
        let v = states[n - 1];
        let op = ops[n - 1];
        assert(op.leads_to(v, states[n - 1 + 1]));
        let before = all_scheds(states, ops, n - 1);
        let ids = all_scheds(states, ops, n);
        assert(states[n].next_obj == v.next_obj + op.sched_made(v).len());
        assert forall|i: int| 0 <= i < ids.len() implies states[0].next_obj <= #[trigger] ids[i]
            < states[n].next_obj by {
            if i < before.len() {
                assert(ids[i] == before[i]);
            }
        }
        assert forall|i: int, j: int| 0 <= i < j < ids.len() implies #[trigger] ids[i]
            < #[trigger] ids[j] by {
            assert(ids[i] == before[i]);
            if j < before.len() {
                assert(ids[j] == before[j]);
            }
        }
    }
}

/// Where what is in slot `i` after the operation was before it.
spec fn slot_before(v: CSpaceView, op: Operation, i: int) -> int {
    match op {
        Operation::Move { src, dest } => if dest == i && v.move_error(src, dest) is None {
            src as int
        } else {
            i
        },
        _ => i,
    }
}

/// A `Sched` was there before the operation, with the same identity, or it got a new one.
proof fn lemma_sched_comes_from_sched(v: CSpaceView, op: Operation, after: CSpaceView, i: int)
    requires
        v.wf(),
        op.leads_to(v, after),
        !op.brings_sched(),
        mdb::live(after.slots, i),
        after.slots[i].cap.cap_type == CapType::Sched,
    ensures
        ({
            let o = slot_before(v, op, i);
            if mdb::live(v.slots, o) {
                v.slots[o].cap.cap_type == CapType::Sched && v.slots[o].cap.objref
                    == after.slots[i].cap.objref
            } else {
                after.slots[i].cap.objref == v.next_obj && v.next_obj < after.next_obj && (
                match op {
                    Operation::InstallSched { slot, .. } => i == slot,
                    Operation::Split { dest, .. } => i == dest,
                    _ => false,
                })
            }
        }),
{
    reveal(Operation::leads_to);
    match op {
        Operation::Delete { c } => {
            if v.resolve_error(c) is None {
                assert(mdb::link_ok(v.slots, c as int));
            }
        },
        _ => {},
    }
}

/// Every operation keeps the identities of the `Sched`s in the space apart, but for a GRANT that
/// brings a `Sched` in from another space, which gives out identities of its own.
pub proof fn law_sched_identities_stay_apart(v: CSpaceView, op: Operation, after: CSpaceView)
    requires
        v.wf(),
        laws::sched_identities_ok(v),
        op.leads_to(v, after),
        !op.brings_sched(),
    ensures
        laws::sched_identities_ok(after),
        v.next_obj <= after.next_obj,
{
    reveal(Operation::leads_to);
    assert forall|i: int|
        mdb::live(after.slots, i) && after.slots[i].cap.cap_type == CapType::Sched implies (
    #[trigger] after.slots[i]).cap.objref < after.next_obj by {
        lemma_sched_comes_from_sched(v, op, after, i);
        assert(v.slots[slot_before(v, op, i)].cap.objref < v.next_obj || !mdb::live(
            v.slots,
            slot_before(v, op, i),
        ));
    }
    assert forall|i: int, j: int|
        mdb::live(after.slots, i) && mdb::live(after.slots, j) && i != j
            && after.slots[i].cap.cap_type == CapType::Sched && after.slots[j].cap.cap_type
            == CapType::Sched implies (#[trigger] after.slots[i]).cap.objref != (
    #[trigger] after.slots[j]).cap.objref by {
        let a = slot_before(v, op, i);
        let b = slot_before(v, op, j);
        lemma_sched_comes_from_sched(v, op, after, i);
        lemma_sched_comes_from_sched(v, op, after, j);
        assert(a != b);
        assert(mdb::live(v.slots, a) ==> v.slots[a].cap.objref < v.next_obj);
        assert(mdb::live(v.slots, b) ==> v.slots[b].cap.objref < v.next_obj);
    }
}

/// A `Sched` that the kernel installs has rights, budget and period as it was given, an identity
/// that no other `Sched` of the space has, and no ancestor; no other slot changes.
pub proof fn law_installed_sched_is_a_root_of_its_own(
    v: CSpaceView,
    slot: int,
    budget: u32,
    period: u32,
    rights: Rights,
)
    requires
        v.wf(),
        laws::sched_identities_ok(v),
        v.vacant(slot),
        v.next_obj < u64::MAX,
    ensures
        ({
            let after = v.with_sched(slot, budget, period, rights);
            &&& after.cap(slot) == (RawCap {
                cap_type: CapType::Sched,
                rights,
                objref: v.next_obj,
                size: budget,
                watermark: 0,
                aux: period,
                badge: 0,
            })
            &&& after.slots[slot].parent == NIL
            &&& laws::sched_identities_ok(after)
            &&& forall|i: int|
                0 <= i < v.slots.len() && i != slot ==> #[trigger] after.slots[i] == v.slots[i]
            &&& forall|i: int|
                i != slot && mdb::live(after.slots, i) && after.slots[i].cap.cap_type
                    == CapType::Sched ==> (#[trigger] after.slots[i]).cap.objref != v.next_obj
        }),
{
    reveal(Operation::leads_to);
    let after = v.with_sched(slot, budget, period, rights);
    let op = Operation::InstallSched { slot: slot as usize, budget, period, rights };
    law_sched_identities_stay_apart(v, op, after);
    assert(after.slots[slot].cap.objref == v.next_obj);
}

} // verus!
