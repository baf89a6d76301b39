//! What each CSpace operation does, as functions of the slots before it.
//!
//! For every operation there is the error it answers with (`None` when it succeeds) and the
//! state it leaves on success. An operation that answers with an error changes nothing.

use crate::cap::cap::{CapType, RawCap};
use crate::cap::cspace::{CapError, Cptr, GrantMode};
use crate::cap::mdb;
use crate::cap::mdb::{Cte, NIL};
use crate::cap::rights::Rights;
use crate::cap::sched::Budget;
use vstd::prelude::*;

verus! {

/// The state of a CSpace.
#[verifier::ext_equal]
pub struct CSpaceView {
    /// The root CNode.
    pub slots: Seq<Cte>,
    /// The identity that the next `Sched` gets.
    pub next_obj: u64,
    /// The frame ranges cleared so far, oldest first.
    pub zeroed: Seq<(u64, u32)>,
}

/// Object types that COPY and MINT never duplicate: `Untyped` and `Sched` carry allocation state
/// of their own, and a `Reply` names one blocked caller.
pub open spec fn is_unique(t: CapType) -> bool {
    t == CapType::Untyped || t == CapType::Sched || t == CapType::Reply
}

/// Object types whose memory is cleared with their last capability. The others own no frames, or
/// (`Untyped`) have them cleared by the next RETYPE.
pub open spec fn is_cleared_on_loss(t: CapType) -> bool {
    !(is_unique(t) || t == CapType::SharedRo || t == CapType::Domain)
}

/// Object types that RETYPE makes out of an `Untyped`.
pub open spec fn is_retypeable_spec(t: CapType) -> bool {
    !(t == CapType::Null || t == CapType::Untyped || t == CapType::Reply || t
        == CapType::IrqControl || t == CapType::Sched || t == CapType::SharedRo || t
        == CapType::Domain)
}

/// The rights of a freshly retyped object. A `Frame` is never executable from the start.
pub open spec fn default_rights_spec(t: CapType) -> Rights {
    Rights {
        bits: match t {
            CapType::Untyped => 0x20u32,
            CapType::Frame => 1u32 | 2u32 | 8u32 | 0x10u32 | 0x200u32,
            CapType::CNode => 0x200u32 | 0x10u32,
            CapType::Endpoint => 0x40u32 | 0x80u32 | 0x10u32 | 0x200u32,
            CapType::Notification => 0x100u32 | 0x80u32 | 0x200u32,
            _ => 0x200u32,
        },
    }
}

/// Two records name the same object.
pub open spec fn same_object(a: RawCap, b: RawCap) -> bool {
    a.cap_type == b.cap_type && a.objref == b.objref
}

/// Some slot still names the object of `cap`.
pub open spec fn still_named(s: Seq<Cte>, cap: RawCap) -> bool {
    exists|k: int| mdb::live(s, k) && same_object(#[trigger] s[k].cap, cap)
}

/// `a + b`, or `u32::MAX` where that is too large.
pub open spec fn saturating_sum(a: nat, b: nat) -> u32 {
    if a + b > u32::MAX {
        u32::MAX
    } else {
        (a + b) as u32
    }
}

/// The sum of a sequence of amounts.
pub open spec fn total(w: Seq<nat>) -> nat
    decreases w.len(),
{
    if w.len() == 0 {
        0
    } else {
        total(w.drop_last()) + w.last()
    }
}

/// The CPU-time budget in each slot that is derived from `c`, and 0 in the others.
pub open spec fn derived_budgets(s: Seq<Cte>, c: int) -> Seq<nat> {
    Seq::new(
        s.len(),
        |i: int|
            if mdb::derived_from(s, i, c) && s[i].cap.cap_type == CapType::Sched {
                s[i].cap.size as nat
            } else {
                0
            },
    )
}

/// The CPU-time budget in each slot.
pub open spec fn all_budgets(s: Seq<Cte>) -> Seq<nat> {
    Seq::new(
        s.len(),
        |i: int|
            if mdb::live(s, i) && s[i].cap.cap_type == CapType::Sched {
                s[i].cap.size as nat
            } else {
                0
            },
    )
}

/// `c` after its derived capabilities are gone: an `Untyped` has all its frames back, a `Sched`
/// the budgets that were split off it.
pub open spec fn reclaimed(s: Seq<Cte>, c: int) -> RawCap {
    let cap = s[c].cap;
    if cap.cap_type == CapType::Untyped {
        RawCap { watermark: 0, ..cap }
    } else if cap.cap_type == CapType::Sched {
        RawCap { size: saturating_sum(cap.size as nat, total(derived_budgets(s, c))), ..cap }
    } else {
        cap
    }
}

/// The slots after REVOKE of `c`: everything derived from `c` is gone, `c` is reclaimed, and
/// nothing else has changed.
pub open spec fn revoked_slots(s: Seq<Cte>, c: int) -> Seq<Cte> {
    Seq::new(
        s.len(),
        |i: int|
            if i == c {
                Cte { cap: reclaimed(s, c), ..s[i] }
            } else if mdb::derived_from(s, i, c) {
                Cte::empty_spec()
            } else {
                s[i]
            },
    )
}

/// Slot `d` holds a capability that is derived from `c` and that nothing is derived from.
pub open spec fn is_revocable(s: Seq<Cte>, c: int, d: int) -> bool {
    mdb::derived_from(s, d, c) && !mdb::has_child(s, d)
}

/// REVOKE of `c` goes on with slot `d`: the lowest one that [`is_revocable`].
pub open spec fn is_next_revoked(s: Seq<Cte>, c: int, d: int) -> bool {
    is_revocable(s, c, d) && forall|i: int| #[trigger] is_revocable(s, c, i) ==> d <= i
}

/// Slot `i` named an object in `before` that is cleared on loss and not named in `after`.
pub open spec fn is_lost(before: Seq<Cte>, after: Seq<Cte>, i: int) -> bool {
    &&& mdb::live(before, i)
    &&& is_cleared_on_loss(before[i].cap.cap_type)
    &&& !still_named(after, before[i].cap)
}

/// `lost` lists every lost object, by one slot each.
pub open spec fn lists_lost_objects(before: Seq<Cte>, after: Seq<Cte>, lost: Seq<int>) -> bool {
    &&& forall|j: int| 0 <= j < lost.len() ==> #[trigger] is_lost(before, after, lost[j])
    &&& forall|j: int, k: int|
        0 <= j < k < lost.len() ==> !#[trigger] same_object(
            before[lost[j]].cap,
            before[lost[k]].cap,
        )
    &&& forall|i: int| #[trigger]
        is_lost(before, after, i) ==> exists|j: int|
            0 <= j < lost.len() && #[trigger] same_object(before[lost[j]].cap, before[i].cap)
}

/// The frame ranges of the objects that `lost` lists.
pub open spec fn ranges_of(before: Seq<Cte>, lost: Seq<int>) -> Seq<(u64, u32)> {
    Seq::new(lost.len(), |j: int| (before[lost[j]].cap.objref, before[lost[j]].cap.size))
}

/// From `before` to `after`, exactly the memory of the objects that lost their last capability
/// was cleared, once each.
pub open spec fn cleared_lost_objects(before: CSpaceView, after: CSpaceView) -> bool {
    exists|lost: Seq<int>| #[trigger]
        lists_lost_objects(before.slots, after.slots, lost) && after.zeroed == before.zeroed
            + ranges_of(before.slots, lost)
}

impl CSpaceView {
    /// The derivation tree is sound.
    pub open spec fn wf(self) -> bool {
        mdb::mdb_wf(self.slots)
    }

    /// Slot `c` exists and holds nothing.
    pub open spec fn vacant(self, c: int) -> bool {
        0 <= c < self.slots.len() && !mdb::live(self.slots, c)
    }

    /// The capability in slot `c`.
    pub open spec fn cap(self, c: int) -> RawCap {
        self.slots[c].cap
    }

    /// The CPU-time budget held in all slots together.
    pub open spec fn total_budget(self) -> nat {
        total(all_budgets(self.slots))
    }

    /// Why `c` does not resolve.
    pub open spec fn resolve_error(self, c: Cptr) -> Option<CapError> {
        if c >= self.slots.len() {
            Some(CapError::OutOfBounds)
        } else if self.cap(c as int).cap_type == CapType::Null {
            Some(CapError::EmptySlot)
        } else {
            None
        }
    }

    /// Why nothing can be placed in `d`.
    pub open spec fn place_error(self, d: Cptr) -> Option<CapError> {
        if d >= self.slots.len() {
            Some(CapError::OutOfBounds)
        } else if self.cap(d as int).cap_type != CapType::Null {
            Some(CapError::SlotOccupied)
        } else {
            None
        }
    }

    /// `cap` placed in slot `d`, derived from `parent`.
    pub open spec fn placed(self, d: int, cap: RawCap, parent: usize) -> CSpaceView {
        CSpaceView { slots: self.slots.update(d, Cte { cap, parent }), ..self }
    }

    /// A `Sched` with an identity of its own placed in slot `d`.
    pub open spec fn with_sched(
        self,
        d: int,
        budget: u32,
        period: u32,
        rights: Rights,
    ) -> CSpaceView {
        CSpaceView {
            next_obj: (self.next_obj + 1) as u64,
            ..self.placed(
                d,
                RawCap {
                    cap_type: CapType::Sched,
                    rights,
                    objref: self.next_obj,
                    size: budget,
                    watermark: 0,
                    aux: period,
                    badge: 0,
                },
                NIL,
            )
        }
    }

    /// Why RETYPE is refused.
    pub open spec fn retype_error(
        self,
        ut: Cptr,
        new_type: CapType,
        frames_per_obj: u32,
        count: u32,
        dest_start: Cptr,
    ) -> Option<CapError> {
        let u = self.cap(ut as int);
        if self.resolve_error(ut) is Some {
            self.resolve_error(ut)
        } else if u.cap_type != CapType::Untyped {
            Some(CapError::WrongType)
        } else if !u.rights.includes(Rights { bits: 0x20 }) {
            Some(CapError::InsufficientRights)
        } else if !is_retypeable_spec(new_type) {
            Some(CapError::WrongType)
        } else if frames_per_obj == 0 || count == 0 || frames_per_obj * count > u.size
            - u.watermark {
            Some(CapError::OutOfBudget)
        } else if dest_start + count > self.slots.len() {
            Some(CapError::OutOfBounds)
        } else if exists|i: int|
            dest_start <= i < dest_start + count && #[trigger] mdb::live(self.slots, i) {
            Some(CapError::SlotOccupied)
        } else {
            None
        }
    }

    /// The frame number of the `k`th object that RETYPE makes.
    pub open spec fn retyped_frame(self, ut: Cptr, frames_per_obj: u32, k: int) -> int {
        self.cap(ut as int).objref + self.cap(ut as int).watermark + k * frames_per_obj
    }

    /// After RETYPE: the `Untyped` is charged, and each new object was cleared and is a child of
    /// the `Untyped`.
    pub open spec fn retyped(
        self,
        ut: Cptr,
        new_type: CapType,
        frames_per_obj: u32,
        count: u32,
        dest_start: Cptr,
    ) -> CSpaceView {
        let u = self.cap(ut as int);
        CSpaceView {
            slots: Seq::new(
                self.slots.len(),
                |i: int|
                    if i == ut {
                        Cte {
                            cap: RawCap {
                                watermark: (u.watermark + frames_per_obj * count) as u32,
                                ..u
                            },
                            ..self.slots[i]
                        }
                    } else if dest_start <= i < dest_start + count {
                        Cte {
                            cap: RawCap {
                                cap_type: new_type,
                                rights: default_rights_spec(new_type),
                                objref: self.retyped_frame(ut, frames_per_obj, i - dest_start)
                                    as u64,
                                size: frames_per_obj,
                                watermark: 0,
                                aux: 0,
                                badge: 0,
                            },
                            parent: ut,
                        }
                    } else {
                        self.slots[i]
                    },
            ),
            next_obj: self.next_obj,
            zeroed: self.zeroed + Seq::new(
                count as nat,
                |k: int| (self.retyped_frame(ut, frames_per_obj, k) as u64, frames_per_obj),
            ),
        }
    }

    /// Why MINT is refused.
    pub open spec fn mint_error(self, src: Cptr, dest: Cptr, new_rights: Rights) -> Option<
        CapError,
    > {
        let s = self.cap(src as int);
        if self.resolve_error(src) is Some {
            self.resolve_error(src)
        } else if is_unique(s.cap_type) || !s.rights.includes(Rights { bits: 0x200 })
            || !s.rights.includes(new_rights) {
            Some(CapError::InsufficientRights)
        } else {
            self.place_error(dest)
        }
    }

    /// After MINT: `dest` holds a narrowed child of `src`.
    pub open spec fn minted(
        self,
        src: Cptr,
        dest: Cptr,
        new_rights: Rights,
        badge: u64,
    ) -> CSpaceView {
        self.placed(
            dest as int,
            RawCap { rights: new_rights, badge, ..self.cap(src as int) },
            src,
        )
    }

    /// Why COPY is refused.
    pub open spec fn copy_error(self, src: Cptr, dest: Cptr) -> Option<CapError> {
        let s = self.cap(src as int);
        if self.resolve_error(src) is Some {
            self.resolve_error(src)
        } else if is_unique(s.cap_type) || !s.rights.includes(Rights { bits: 0x200 }) {
            Some(CapError::InsufficientRights)
        } else {
            self.place_error(dest)
        }
    }

    /// After COPY: `dest` holds the same capability as a sibling of `src`, or as a child of
    /// `src` where `src` is a root.
    pub open spec fn copied(self, src: Cptr, dest: Cptr) -> CSpaceView {
        let p = self.slots[src as int].parent;
        self.placed(
            dest as int,
            self.cap(src as int),
            if p == NIL {
                src
            } else {
                p
            },
        )
    }

    /// Why MOVE is refused.
    pub open spec fn move_error(self, src: Cptr, dest: Cptr) -> Option<CapError> {
        if self.resolve_error(src) is Some {
            self.resolve_error(src)
        } else if dest == src {
            None
        } else {
            self.place_error(dest)
        }
    }

    /// After MOVE: the capability, its place in the tree and its children are at `dest`.
    pub open spec fn moved(self, src: Cptr, dest: Cptr) -> CSpaceView {
        if src == dest {
            self
        } else {
            CSpaceView {
                slots: Seq::new(
                    self.slots.len(),
                    |i: int|
                        if i == dest {
                            self.slots[src as int]
                        } else if i == src {
                            Cte::empty_spec()
                        } else if self.slots[i].parent == src {
                            Cte { parent: dest, ..self.slots[i] }
                        } else {
                            self.slots[i]
                        },
                ),
                ..self
            }
        }
    }

    /// Why SPLIT is refused.
    pub open spec fn split_error(self, src: Cptr, dest: Cptr, amount: u32) -> Option<CapError> {
        let s = self.cap(src as int);
        if self.resolve_error(src) is Some {
            self.resolve_error(src)
        } else if s.cap_type != CapType::Sched {
            Some(CapError::WrongType)
        } else if !s.rights.includes(Rights { bits: 0x200 }) {
            Some(CapError::InsufficientRights)
        } else if !Budget::of(s).can_give(amount) {
            Some(CapError::OutOfBudget)
        } else {
            self.place_error(dest)
        }
    }

    /// After SPLIT: `amount` has moved from `src` into a new child `Sched` at `dest`.
    pub open spec fn splitted(self, src: Cptr, dest: Cptr, amount: u32) -> CSpaceView {
        let s = self.cap(src as int);
        CSpaceView {
            slots: self.slots.update(
                dest as int,
                Cte {
                    cap: RawCap {
                        cap_type: CapType::Sched,
                        rights: s.rights,
                        objref: self.next_obj,
                        size: amount,
                        watermark: 0,
                        aux: s.aux,
                        badge: 0,
                    },
                    parent: src,
                },
            ).update(
                src as int,
                Cte {
                    cap: RawCap { size: (s.size - amount) as u32, ..s },
                    ..self.slots[src as int]
                },
            ),
            next_obj: (self.next_obj + 1) as u64,
            ..self
        }
    }

    /// Why DELEGATE is refused.
    pub open spec fn delegate_error(self, src: Cptr, dest: Cptr, amount: u32) -> Option<CapError> {
        let s = self.cap(src as int);
        let d = self.cap(dest as int);
        if src == dest {
            None
        } else if self.resolve_error(src) is Some {
            self.resolve_error(src)
        } else if self.resolve_error(dest) is Some {
            self.resolve_error(dest)
        } else if s.cap_type != CapType::Sched || d.cap_type != CapType::Sched {
            Some(CapError::WrongType)
        } else if !s.rights.includes(Rights { bits: 0x200 }) {
            Some(CapError::InsufficientRights)
        } else if !Budget::of(s).can_give(amount) || d.size + amount > u32::MAX {
            Some(CapError::OutOfBudget)
        } else {
            None
        }
    }

    /// After DELEGATE: `amount` has moved from `src` to `dest`.
    pub open spec fn delegated(self, src: Cptr, dest: Cptr, amount: u32) -> CSpaceView {
        let s = self.slots[src as int];
        let d = self.slots[dest as int];
        if src == dest {
            self
        } else {
            CSpaceView {
                slots: self.slots.update(
                    src as int,
                    Cte { cap: RawCap { size: (s.cap.size - amount) as u32, ..s.cap }, ..s },
                ).update(
                    dest as int,
                    Cte { cap: RawCap { size: (d.cap.size + amount) as u32, ..d.cap }, ..d },
                ),
                ..self
            }
        }
    }

    /// The `Reply` record that names `caller`.
    pub open spec fn reply_cap(caller: u64, badge: u64) -> RawCap {
        RawCap {
            cap_type: CapType::Reply,
            rights: Rights { bits: 0 },
            objref: caller,
            size: 0,
            watermark: 0,
            aux: 0,
            badge,
        }
    }

    /// Why a reply is refused.
    pub open spec fn reply_error(self, dest: Cptr) -> Option<CapError> {
        if self.resolve_error(dest) is Some {
            self.resolve_error(dest)
        } else if self.cap(dest as int).cap_type != CapType::Reply {
            Some(CapError::WrongType)
        } else {
            None
        }
    }

    /// Slot `d` emptied, with nothing else changed.
    pub open spec fn vacated(self, d: int) -> CSpaceView {
        CSpaceView { slots: self.slots.update(d, Cte::empty_spec()), ..self }
    }

    /// After slot `d` is destroyed: it is empty, its budget went back to the `Sched` it was split
    /// from, and its object was cleared if `d` was the last to name it.
    pub open spec fn destroyed(self, d: int) -> CSpaceView {
        let e = self.slots[d];
        let emptied = self.slots.update(d, Cte::empty_spec());
        let p = e.parent as int;
        let slots = if e.cap.cap_type == CapType::Sched && e.parent != NIL
            && emptied[p].cap.cap_type == CapType::Sched {
            emptied.update(
                p,
                Cte {
                    cap: RawCap {
                        size: saturating_sum(emptied[p].cap.size as nat, e.cap.size as nat),
                        ..emptied[p].cap
                    },
                    ..emptied[p]
                },
            )
        } else {
            emptied
        };
        CSpaceView {
            slots,
            next_obj: self.next_obj,
            zeroed: if is_cleared_on_loss(e.cap.cap_type) && !still_named(slots, e.cap) {
                self.zeroed.push((e.cap.objref, e.cap.size))
            } else {
                self.zeroed
            },
        }
    }

    /// One capability that is derived from `c` destroyed: the childless one in the lowest slot.
    pub open spec fn revoke_step(self, c: int) -> CSpaceView {
        if exists|d: int| is_next_revoked(self.slots, c, d) {
            self.destroyed(choose|d: int| is_next_revoked(self.slots, c, d))
        } else {
            self
        }
    }

    /// `n` steps of REVOKE of `c`. As many as there are slots destroy all that is derived from
    /// `c`.
    pub open spec fn revoke_steps(self, c: int, n: nat) -> CSpaceView
        decreases n,
    {
        if n == 0 {
            self
        } else {
            self.revoke_steps(c, (n - 1) as nat).revoke_step(c)
        }
    }

    /// This space after REVOKE of `c`. Objects are cleared in the order in which their last
    /// capabilities go.
    pub open spec fn revoked(self, c: Cptr) -> CSpaceView {
        CSpaceView {
            slots: revoked_slots(self.slots, c as int),
            next_obj: self.next_obj,
            zeroed: self.revoke_steps(c as int, self.slots.len()).zeroed,
        }
    }

    /// `after` is this space after REVOKE of `c`: exactly the objects that nothing names any more
    /// were cleared.
    pub open spec fn revokes_to(self, c: Cptr, after: CSpaceView) -> bool {
        after == self.revoked(c) && cleared_lost_objects(self, after)
    }

    /// `after` is this space after DELETE of `c`: what is derived from `c` is gone, then `c`.
    pub open spec fn deletes_to(self, c: Cptr, after: CSpaceView) -> bool {
        after == self.revoked(c).destroyed(c as int) && cleared_lost_objects(self, after)
    }

    /// Why a domain may not be entered.
    pub open spec fn enter_error(self, c: Cptr) -> Option<CapError> {
        if self.resolve_error(c) is Some {
            self.resolve_error(c)
        } else if self.cap(c as int).cap_type != CapType::Domain {
            Some(CapError::WrongType)
        } else if !self.cap(c as int).rights.includes(Rights { bits: 0x400 }) {
            Some(CapError::InsufficientRights)
        } else {
            None
        }
    }
}

/// Why GRANT is refused.
pub open spec fn grant_error(
    src: CSpaceView,
    src_slot: Cptr,
    dst: CSpaceView,
    dst_slot: Cptr,
    new_rights: Rights,
    mode: GrantMode,
) -> Option<CapError> {
    let s = src.cap(src_slot as int);
    if src.resolve_error(src_slot) is Some {
        src.resolve_error(src_slot)
    } else if s.cap_type == CapType::Reply || (mode == GrantMode::Mint && is_unique(s.cap_type))
        || !s.rights.includes(Rights { bits: 0x10 }) || !s.rights.includes(new_rights) || (mode
        == GrantMode::Move && mdb::has_child(src.slots, src_slot as int)) {
        Some(CapError::InsufficientRights)
    } else {
        dst.place_error(dst_slot)
    }
}

/// Which rights the primordial and freshly retyped capabilities carry.
pub(crate) proof fn lemma_default_rights()
    ensures
        (Rights { bits: 0x20 }).includes(Rights { bits: 0x20 }),
        !(Rights { bits: 0x20 }).includes(Rights { bits: 0x10 }),
        (Rights { bits: 0x40 }).includes(Rights { bits: 0x40 }),
        (Rights { bits: 0x80 }).includes(Rights { bits: 0x80 }),
        (Rights { bits: 0x200 }).includes(Rights { bits: 0x200 }),
        (Rights { bits: 0x400 }).includes(Rights { bits: 0x400 }),
        (Rights { bits: 1 }).includes(Rights { bits: 1 }),
        !(Rights { bits: 1 }).includes(Rights { bits: 0x200 }),
        !(Rights { bits: 0 }).includes(Rights { bits: 1 }),
        (Rights { bits: 0x10u32 | 0x200u32 }).includes(Rights { bits: 0x10 }),
        (Rights { bits: 0x10u32 | 0x200u32 }).includes(Rights { bits: 0x200 }),
        default_rights_spec(CapType::Frame).includes(Rights { bits: 0 }),
        default_rights_spec(CapType::Frame).includes(Rights { bits: 1 }),
        default_rights_spec(CapType::Frame).includes(Rights { bits: 0x10 }),
        default_rights_spec(CapType::Frame).includes(Rights { bits: 0x200 }),
        default_rights_spec(CapType::Endpoint).includes(Rights { bits: 0x10 }),
        default_rights_spec(CapType::Endpoint).includes(Rights { bits: 0x40 }),
        default_rights_spec(CapType::Endpoint).includes(Rights { bits: 0x80 }),
{
    let f = 1u32 | 2u32 | 8u32 | 0x10u32 | 0x200u32;
    let e = 0x40u32 | 0x80u32 | 0x10u32 | 0x200u32;
    let g = 0x10u32 | 0x200u32;
    assert(0x20u32 & 0x20u32 == 0x20u32 && 0x20u32 & 0x10u32 != 0x10u32 && 0x40u32 & 0x40u32 == 0x40u32 && 0x80u32 & 0x80u32
        == 0x80u32 && 0x200u32 & 0x200u32 == 0x200u32 && 0x400u32 & 0x400u32 == 0x400u32 && 1u32
        & 1u32 == 1u32 && 1u32 & 0x200u32 != 0x200u32 && 0u32 & 1u32 != 1u32 && g & 0x10u32
        == 0x10u32 && g & 0x200u32 == 0x200u32 && f & 0u32 == 0u32 && f & 1u32 == 1u32 && f
        & 0x10u32 == 0x10u32 && f & 0x200u32 == 0x200u32 && e & 0x10u32 == 0x10u32 && e & 0x40u32
        == 0x40u32 && e & 0x80u32 == 0x80u32) by (bit_vector)
        requires
            f == 1u32 | 2u32 | 8u32 | 0x10u32 | 0x200u32,
            e == 0x40u32 | 0x80u32 | 0x10u32 | 0x200u32,
            g == 0x10u32 | 0x200u32,
    ;
}

/// Amounts of 0 at the end add nothing.
pub(crate) proof fn lemma_zero_tail(w: Seq<nat>, n: int)
    requires
        0 <= n <= w.len(),
        forall|i: int| n <= i < w.len() ==> w[i] == 0,
    ensures
        total(w) == total(w.take(n)),
    decreases w.len(),
{
    if w.len() > n {
        lemma_zero_tail(w.drop_last(), n);
        assert(w.drop_last().take(n) =~= w.take(n));
    } else {
        assert(w.take(n) =~= w);
    }
}

} // verus!
