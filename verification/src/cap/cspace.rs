//! The capability space: a root CNode of `N` slots, the derivation tree over them, and the
//! operations on it.
//!
//! A [`Cptr`] is a slot index, never an address. Every operation either succeeds or answers with
//! a [`CapError`] and changes nothing; a revoked or empty slot resolves to an error.

use crate::cap::cap::{Cap, CapType, ObjectType, RawCap};
use crate::cap::mdb;
use crate::cap::mdb::{Cte, NIL};
use crate::cap::model;
use crate::cap::model::CSpaceView;
use crate::cap::revoke;
use crate::cap::rights::Rights;
use crate::cap::sched::Budget;
use crate::cap::zero::{ZeroFrames, ZeroLog};
use vstd::prelude::*;

verus! {

/// A capability pointer: an index into the root CNode.
pub type Cptr = usize;

/// Why a capability operation failed.
#[derive(Clone, Copy, PartialEq, Eq, Structural, Debug)]
pub enum CapError {
    /// The cptr is not a slot index.
    OutOfBounds,
    /// The slot holds no capability (empty, revoked or deleted).
    EmptySlot,
    /// The capability is not of the expected object type.
    WrongType,
    /// The destination slot already holds a capability.
    SlotOccupied,
    /// The operation is not permitted, or would widen rights.
    InsufficientRights,
    /// There are too few frames in the `Untyped`, or too little budget in the `Sched`.
    OutOfBudget,
}

/// Whether a [`grant`] hands the capability over or derives a narrowed one.
#[derive(Clone, Copy, PartialEq, Eq, Structural, Debug)]
pub enum GrantMode {
    /// The source slot is vacated.
    Move,
    /// The source keeps its capability.
    Mint,
}

/// A single-level capability space of `N` slots. `Z` clears object memory.
pub struct CSpace<const N: usize, Z: ZeroFrames = ZeroLog> {
    slots: [Cte; N],
    zero: Z,
    /// The identity of the next `Sched`, which has no frames to be named by.
    next_obj: u64,
}

impl<const N: usize, Z: ZeroFrames> View for CSpace<N, Z> {
    type V = CSpaceView;

    closed spec fn view(&self) -> CSpaceView {
        CSpaceView {
            slots: self.slots@,
            next_obj: self.next_obj,
            zeroed: self.zero.zeroed(),
        }
    }
}

impl<const N: usize, Z: ZeroFrames> CSpace<N, Z> {
    /// The space has `N` slots and a sound derivation tree.
    pub open spec fn wf(&self) -> bool {
        &&& self@.slots.len() == N
        &&& self@.wf()
    }

    /// An empty space.
    pub fn new(zero: Z) -> (cs: Self)
        ensures
            cs.wf(),
            cs@ == (CSpaceView {
                slots: Seq::new(N as nat, |i: int| Cte::empty_spec()),
                next_obj: 1,
                zeroed: zero.zeroed(),
            }),
    {
        let e = Cte::empty();
        let cs = CSpace { slots: [e; N], zero, next_obj: 1 };
        proof {
            assert(cs@.slots =~= Seq::new(N as nat, |i: int| Cte::empty_spec()));
            assert(mdb::ranked(cs@.slots, Seq::new(N as nat, |i: int| 0nat)));
        }
        cs
    }

    /// The hook this space clears memory with.
    pub fn zero_hook(&self) -> (z: &Z)
        ensures
            z.zeroed() == self@.zeroed,
    {
        &self.zero
    }

    /// Install the primordial `Untyped` over the frames from `base` on in slot 0, from which nothing
    /// may be derived yet. It carries RETYPE alone: a duplicate would fork its watermark and alias
    /// frames.
    pub fn set_root_untyped(&mut self, base: u64, frames: u32)
        requires
            old(self).wf(),
            N > 0,
            !mdb::has_child(old(self)@.slots, 0),
        ensures
            final(self).wf(),
            final(self)@ == old(self)@.placed(
                0,
                RawCap {
                    cap_type: CapType::Untyped,
                    rights: Rights { bits: 0x20 },
                    objref: base,
                    size: frames,
                    watermark: 0,
                    aux: 0,
                    badge: 0,
                },
                NIL,
            ),
    {
        let cap = RawCap {
            cap_type: CapType::Untyped,
            rights: Rights::retype(),
            objref: base,
            size: frames,
            watermark: 0,
            aux: 0,
            badge: 0,
        };
        self.put(0, cap, NIL);
    }

    /// Install a primordial `Sched` of `budget` units per `period` in the empty slot `slot`. It
    /// carries DERIVE alone: it can be split and delegated from, but not granted away.
    pub fn set_root_sched(&mut self, slot: Cptr, budget: u32, period: u32)
        requires
            old(self).wf(),
            old(self)@.vacant(slot as int),
            old(self)@.next_obj < u64::MAX,
        ensures
            final(self).wf(),
            final(self)@ == old(self)@.with_sched(
                slot as int,
                budget,
                period,
                Rights { bits: 0x200 },
            ),
    {
        self.install_sched(slot, budget, period, Rights::derive());
    }

    /// Install a `Sched` of `budget` units per `period` with these rights in the empty slot `slot`.
    pub fn install_sched(&mut self, slot: Cptr, budget: u32, period: u32, rights: Rights)
        requires
            old(self).wf(),
            old(self)@.vacant(slot as int),
            old(self)@.next_obj < u64::MAX,
        ensures
            final(self).wf(),
            final(self)@ == old(self)@.with_sched(slot as int, budget, period, rights),
    {
        let objref: u64 = self.next_obj;
        self.next_obj = self.next_obj + 1;
        self.put(
            slot,
            RawCap {
                cap_type: CapType::Sched,
                rights,
                objref,
                size: budget,
                watermark: 0,
                aux: period,
                badge: 0,
            },
            NIL,
        );
    }

    /// Install the authority to enter domain `id` in the empty slot `slot`. It carries ENTER
    /// alone, so it can neither be duplicated nor used to edit the domain's translation.
    pub fn set_root_domain(&mut self, slot: Cptr, id: u64)
        requires
            old(self).wf(),
            old(self)@.vacant(slot as int),
        ensures
            final(self).wf(),
            final(self)@ == old(self)@.placed(
                slot as int,
                RawCap {
                    cap_type: CapType::Domain,
                    rights: Rights { bits: 0x400 },
                    objref: id,
                    size: 0,
                    watermark: 0,
                    aux: 0,
                    badge: 0,
                },
                NIL,
            ),
    {
        self.put(
            slot,
            RawCap {
                cap_type: CapType::Domain,
                rights: Rights::enter(),
                objref: id,
                size: 0,
                watermark: 0,
                aux: 0,
                badge: 0,
            },
            NIL,
        );
    }

    /// Install a `Frame` over `frames` frames from `pfn` on in the empty slot `slot`.
    pub fn install_frame(&mut self, slot: Cptr, pfn: u64, frames: u32, rights: Rights)
        requires
            old(self).wf(),
            old(self)@.vacant(slot as int),
        ensures
            final(self).wf(),
            final(self)@ == old(self)@.placed(
                slot as int,
                RawCap {
                    cap_type: CapType::Frame,
                    rights,
                    objref: pfn,
                    size: frames,
                    watermark: 0,
                    aux: 0,
                    badge: 0,
                },
                NIL,
            ),
    {
        self.put(
            slot,
            RawCap {
                cap_type: CapType::Frame,
                rights,
                objref: pfn,
                size: frames,
                watermark: 0,
                aux: 0,
                badge: 0,
            },
            NIL,
        );
    }

    /// Install a read-only window at `va` onto `frames` frames from `pfn` on in the empty slot
    /// `slot`.
    pub fn install_shared_ro(&mut self, slot: Cptr, pfn: u64, frames: u32, va: u64)
        requires
            old(self).wf(),
            old(self)@.vacant(slot as int),
            va / 4096 <= u32::MAX,
        ensures
            final(self).wf(),
            final(self)@ == old(self)@.placed(
                slot as int,
                RawCap {
                    cap_type: CapType::SharedRo,
                    rights: Rights { bits: 1 },
                    objref: pfn,
                    size: frames,
                    watermark: 0,
                    aux: (va / 4096) as u32,
                    badge: 0,
                },
                NIL,
            ),
    {
        self.put(
            slot,
            RawCap {
                cap_type: CapType::SharedRo,
                rights: Rights::read(),
                objref: pfn,
                size: frames,
                watermark: 0,
                aux: (va / 4096) as u32,
                badge: 0,
            },
            NIL,
        );
    }

    /// Install the notification `id` in the empty slot `slot`.
    pub fn install_notification(&mut self, slot: Cptr, id: u64, rights: Rights)
        requires
            old(self).wf(),
            old(self)@.vacant(slot as int),
        ensures
            final(self).wf(),
            final(self)@ == old(self)@.placed(
                slot as int,
                RawCap {
                    cap_type: CapType::Notification,
                    rights,
                    objref: id,
                    size: 0,
                    watermark: 0,
                    aux: 0,
                    badge: 0,
                },
                NIL,
            ),
    {
        self.put(
            slot,
            RawCap {
                cap_type: CapType::Notification,
                rights,
                objref: id,
                size: 0,
                watermark: 0,
                aux: 0,
                badge: 0,
            },
            NIL,
        );
    }

    fn live(&self, c: Cptr) -> (r: Result<RawCap, CapError>)
        requires
            self.wf(),
        ensures
            match r {
                Ok(cap) => self@.resolve_error(c) is None && cap == self@.cap(c as int)
                    && mdb::live(self@.slots, c as int),
                Err(e) => self@.resolve_error(c) == Some(e),
            },
    {
        if c >= N {
            return Err(CapError::OutOfBounds);
        }
        if self.slots[c].cap.is_null() {
            return Err(CapError::EmptySlot);
        }
        Ok(self.slots[c].cap)
    }

    /// The record in slot `c`. A revoked or deleted capability answers `EmptySlot`.
    pub fn resolve(&self, c: Cptr) -> (r: Result<RawCap, CapError>)
        requires
            self.wf(),
        ensures
            match r {
                Ok(cap) => self@.resolve_error(c) is None && cap == self@.cap(c as int),
                Err(e) => self@.resolve_error(c) == Some(e),
            },
    {
        self.live(c)
    }

    /// A typed handle on the capability in slot `c`: the one way from a stored record to a
    /// usable [`Cap`].
    pub fn get<T: ObjectType>(&self, c: Cptr) -> (r: Result<Cap<T>, CapError>)
        requires
            self.wf(),
        ensures
            match r {
                Ok(cap) => {
                    &&& self@.resolve_error(c) is None
                    &&& self@.cap(c as int).cap_type == T::tag()
                    &&& cap.raw() == self@.cap(c as int)
                },
                Err(e) => {
                    ||| self@.resolve_error(c) == Some(e)
                    ||| {
                        &&& self@.resolve_error(c) is None
                        &&& self@.cap(c as int).cap_type != T::tag()
                        &&& e == CapError::WrongType
                    }
                },
            },
    {
        match self.live(c) {
            Err(e) => Err(e),
            Ok(raw) => {
                proof {
                    T::tagged();
                }
                if raw.cap_type != T::TYPE {
                    return Err(CapError::WrongType);
                }
                Ok(Cap::<T>::fabricate(raw))
            },
        }
    }

    /// The domain that the capability in slot `c` authorises to enter.
    pub fn enter_domain(&self, c: Cptr) -> (r: Result<u64, CapError>)
        requires
            self.wf(),
        ensures
            match r {
                Ok(id) => self@.enter_error(c) is None && id == self@.cap(c as int).objref,
                Err(e) => self@.enter_error(c) == Some(e),
            },
    {
        match self.live(c) {
            Err(e) => Err(e),
            Ok(cap) => {
                if cap.cap_type != CapType::Domain {
                    return Err(CapError::WrongType);
                }
                if !cap.rights.contains(Rights::enter()) {
                    return Err(CapError::InsufficientRights);
                }
                Ok(cap.objref)
            },
        }
    }

    /// RETYPE: make `count` objects of `new_type`, of `frames_per_obj` frames each, out of the
    /// `Untyped` at `ut`, into the slots from `dest_start` on. The `Untyped` is charged, each
    /// object is cleared before its capability exists, and each capability is a child of the
    /// `Untyped`.
    pub fn retype(
        &mut self,
        ut: Cptr,
        new_type: CapType,
        frames_per_obj: u32,
        count: u32,
        dest_start: Cptr,
    ) -> (r: Result<(), CapError>)
        requires
            old(self).wf(),
            // The frame numbers of the new objects fit.
            old(self)@.retype_error(ut, new_type, frames_per_obj, count, dest_start) is None
                ==> old(self)@.retyped_frame(ut, frames_per_obj, count - 1) <= u64::MAX,
        ensures
            final(self).wf(),
            match old(self)@.retype_error(ut, new_type, frames_per_obj, count, dest_start) {
                None => {
                    &&& r is Ok
                    &&& final(self)@ == old(self)@.retyped(
                        ut,
                        new_type,
                        frames_per_obj,
                        count,
                        dest_start,
                    )
                },
                Some(e) => r == Err::<(), CapError>(e) && final(self)@ == old(self)@,
            },
    {
        let u = match self.live(ut) {
            Err(e) => {
                return Err(e);
            },
            Ok(u) => u,
        };
        if u.cap_type != CapType::Untyped {
            return Err(CapError::WrongType);
        }
        if !u.rights.contains(Rights::retype()) {
            return Err(CapError::InsufficientRights);
        }
        if !is_retypeable(new_type) {
            return Err(CapError::WrongType);
        }
        if frames_per_obj == 0 || count == 0 {
            return Err(CapError::OutOfBudget);
        }
        let need: u32 = match frames_per_obj.checked_mul(count) {
            None => {
                return Err(CapError::OutOfBudget);
            },
            Some(need) => need,
        };
        if need > u.size - u.watermark {
            return Err(CapError::OutOfBudget);
        }
        let end: usize = match dest_start.checked_add(count as usize) {
            None => {
                return Err(CapError::OutOfBounds);
            },
            Some(end) => end,
        };
        if end > N {
            return Err(CapError::OutOfBounds);
        }
        let mut i: usize = dest_start;
        while i < end
            invariant
                self.wf(),
                self@ == old(self)@,
                dest_start <= i <= end <= N,
                end == dest_start + count,
                forall|k: int| dest_start <= k < i ==> !#[trigger] mdb::live(self@.slots, k),
                mdb::live(self@.slots, ut as int),
                u == self@.cap(ut as int),
                u.cap_type == CapType::Untyped,
                u.rights.includes(Rights { bits: 0x20 }),
                model::is_retypeable_spec(new_type),
                frames_per_obj > 0,
                count > 0,
                need == frames_per_obj * count,
                need <= u.size - u.watermark,
            decreases end - i,
        {
            if !self.slots[i].cap.is_null() {
                assert(mdb::live(self@.slots, i as int));
                return Err(CapError::SlotOccupied);
            }
            i = i + 1;
        }
        // Nothing can fail from here on.
        assert(self@.retyped_frame(ut, frames_per_obj, count - 1) <= u64::MAX);
        assert((count - 1) * frames_per_obj >= 0) by (nonlinear_arith)
            requires
                count > 0,
        ;
        let base: u64 = u.objref + (u.watermark as u64);
        let ghost before = self@;
        proof {
            mdb::lemma_update_keeps_wf(
                self@.slots,
                ut as int,
                RawCap { watermark: (u.watermark + need) as u32, ..u },
            );
        }
        self.slots[ut].cap.watermark = u.watermark + need;
        assert(self@.slots =~= before.slots.update(
            ut as int,
            Cte {
                cap: RawCap { watermark: (u.watermark + need) as u32, ..u },
                ..before.slots[ut as int]
            },
        ));
        let rights = default_rights(new_type);
        let mut k: u32 = 0;
        while k < count
            invariant
                self.wf(),
                before.slots.len() == N,
                k <= count,
                end == dest_start + count,
                end <= N,
                base == before.cap(ut as int).objref + before.cap(ut as int).watermark,
                before.retyped_frame(ut, frames_per_obj, count - 1) <= u64::MAX,
                mdb::live(before.slots, ut as int),
                before.cap(ut as int).cap_type == CapType::Untyped,
                forall|j: int| dest_start <= j < end ==> !#[trigger] mdb::live(before.slots, j),
                rights == model::default_rights_spec(new_type),
                model::is_retypeable_spec(new_type),
                need == frames_per_obj * count,
                frames_per_obj > 0,
                self@.next_obj == before.next_obj,
                self@.zeroed == before.retyped(
                    ut,
                    new_type,
                    frames_per_obj,
                    k,
                    dest_start,
                ).zeroed,
                forall|j: int|
                    0 <= j < N ==> #[trigger] self@.slots[j] == (if j == ut || dest_start <= j
                        < dest_start + k {
                        before.retyped(
                            ut,
                            new_type,
                            frames_per_obj,
                            count,
                            dest_start,
                        ).slots[j]
                    } else {
                        before.slots[j]
                    }),
            decreases count - k,
        {
            assert(k * frames_per_obj <= need && k * frames_per_obj <= (count - 1)
                * frames_per_obj) by (nonlinear_arith)
                requires
                    k < count,
                    need == frames_per_obj * count,
                    frames_per_obj > 0,
            ;
            let objref: u64 = base + ((k * frames_per_obj) as u64);
            self.zero.zero(objref, frames_per_obj);
            let dest: usize = dest_start + (k as usize);
            assert(!mdb::live(before.slots, dest as int));
            let ghost mid = self@;
            proof {
                assert(mid.slots[ut as int].cap.cap_type == CapType::Untyped);
                assert(mdb::live(mid.slots, ut as int));
            }
            self.put(
                dest,
                RawCap {
                    cap_type: new_type,
                    rights,
                    objref,
                    size: frames_per_obj,
                    watermark: 0,
                    aux: 0,
                    badge: 0,
                },
                ut,
            );
            k = k + 1;
            assert(self@.zeroed =~= before.retyped(
                ut,
                new_type,
                frames_per_obj,
                k,
                dest_start,
            ).zeroed);
        }
        assert(self@ =~= before.retyped(ut, new_type, frames_per_obj, count, dest_start));
        Ok(())
    }

    /// MINT: derive a capability with `new_rights` (no wider than those of `src`) and `badge`
    /// into `dest`, as a child of `src`.
    pub fn mint(&mut self, src: Cptr, dest: Cptr, new_rights: Rights, badge: u64) -> (r: Result<
        (),
        CapError,
    >)
        requires
            old(self).wf(),
        ensures
            final(self).wf(),
            match old(self)@.mint_error(src, dest, new_rights) {
                None => r is Ok && final(self)@ == old(self)@.minted(src, dest, new_rights, badge),
                Some(e) => r == Err::<(), CapError>(e) && final(self)@ == old(self)@,
            },
    {
        let s = match self.live(src) {
            Err(e) => {
                return Err(e);
            },
            Ok(s) => s,
        };
        if is_never_duplicated(s.cap_type) {
            return Err(CapError::InsufficientRights);
        }
        if !s.rights.contains(Rights::derive()) {
            return Err(CapError::InsufficientRights);
        }
        if !new_rights.subset_of(s.rights) {
            return Err(CapError::InsufficientRights);
        }
        self.place(
            dest,
            RawCap {
                cap_type: s.cap_type,
                rights: new_rights,
                objref: s.objref,
                size: s.size,
                watermark: s.watermark,
                aux: s.aux,
                badge,
            },
            src,
        )
    }

    /// COPY: duplicate `src` into `dest` with equal rights, as a sibling of `src`. A copy of a
    /// root is made its child instead, so that revoking the root still reaches it.
    pub fn copy(&mut self, src: Cptr, dest: Cptr) -> (r: Result<(), CapError>)
        requires
            old(self).wf(),
        ensures
            final(self).wf(),
            match old(self)@.copy_error(src, dest) {
                None => r is Ok && final(self)@ == old(self)@.copied(src, dest),
                Some(e) => r == Err::<(), CapError>(e) && final(self)@ == old(self)@,
            },
    {
        let s = match self.live(src) {
            Err(e) => {
                return Err(e);
            },
            Ok(s) => s,
        };
        if is_never_duplicated(s.cap_type) {
            return Err(CapError::InsufficientRights);
        }
        if !s.rights.contains(Rights::derive()) {
            return Err(CapError::InsufficientRights);
        }
        assert(mdb::link_ok(self@.slots, src as int));
        let src_parent: usize = self.slots[src].parent;
        let parent: usize = if src_parent == NIL {
            src
        } else {
            src_parent
        };
        self.place(dest, s, parent)
    }

    /// MOVE: the capability at `src`, its place in the tree and its children go to `dest`.
    pub fn move_cap(&mut self, src: Cptr, dest: Cptr) -> (r: Result<(), CapError>)
        requires
            old(self).wf(),
        ensures
            final(self).wf(),
            match old(self)@.move_error(src, dest) {
                None => r is Ok && final(self)@ == old(self)@.moved(src, dest),
                Some(e) => r == Err::<(), CapError>(e) && final(self)@ == old(self)@,
            },
    {
        match self.live(src) {
            Err(e) => {
                return Err(e);
            },
            Ok(_) => {},
        }
        if dest == src {
            return Ok(());
        }
        if dest >= N {
            return Err(CapError::OutOfBounds);
        }
        if !self.slots[dest].cap.is_null() {
            return Err(CapError::SlotOccupied);
        }
        let ghost before = self@;
        let e = self.slots[src];
        let mut k: usize = 0;
        while k < N
            invariant
                k <= N,
                before.slots.len() == N,
                self@.slots.len() == N,
                self@.next_obj == before.next_obj,
                self@.zeroed == before.zeroed,
                forall|i: int|
                    0 <= i < N ==> #[trigger] self@.slots[i] == (if i < k && before.slots[i].parent
                        == src {
                        Cte { parent: dest, ..before.slots[i] }
                    } else {
                        before.slots[i]
                    }),
            decreases N - k,
        {
            if self.slots[k].parent == src {
                self.slots[k].parent = dest;
            }
            k = k + 1;
        }
        self.slots[dest] = e;
        self.slots[src] = Cte::empty();
        proof {
            assert(self@ =~= before.moved(src, dest));
            mdb::lemma_move_keeps_wf(before.slots, self@.slots, src as int, dest as int);
        }
        Ok(())
    }

    /// SPLIT: carve `amount` units of CPU time out of `src` into a new child `Sched` at `dest`.
    /// What `dest` gains, `src` loses.
    pub fn split(&mut self, src: Cptr, dest: Cptr, amount: u32) -> (r: Result<(), CapError>)
        requires
            old(self).wf(),
            old(self)@.split_error(src, dest, amount) is None ==> old(self)@.next_obj < u64::MAX,
        ensures
            final(self).wf(),
            match old(self)@.split_error(src, dest, amount) {
                None => r is Ok && final(self)@ == old(self)@.splitted(src, dest, amount),
                Some(e) => r == Err::<(), CapError>(e) && final(self)@ == old(self)@,
            },
    {
        let s = match self.live(src) {
            Err(e) => {
                return Err(e);
            },
            Ok(s) => s,
        };
        if s.cap_type != CapType::Sched {
            return Err(CapError::WrongType);
        }
        if !s.rights.contains(Rights::derive()) {
            return Err(CapError::InsufficientRights);
        }
        let mut parent = Budget::from_cap(&s);
        let child = match parent.split(amount) {
            None => {
                return Err(CapError::OutOfBudget);
            },
            Some(child) => child,
        };
        let child_cap = RawCap {
            cap_type: CapType::Sched,
            rights: s.rights,
            objref: self.next_obj,
            size: child.capacity,
            watermark: child.consumed,
            aux: child.period,
            badge: 0,
        };
        // The destination is checked before anything is taken from the source.
        match self.place(dest, child_cap, src) {
            Err(e) => {
                return Err(e);
            },
            Ok(()) => {},
        }
        let ghost mid = self@;
        let mut debited = s;
        parent.write_into(&mut debited);
        proof {
            mdb::lemma_update_keeps_wf(mid.slots, src as int, debited);
        }
        self.slots[src].cap = debited;
        self.next_obj = self.next_obj + 1;
        assert(self@.slots =~= mid.slots.update(
            src as int,
            Cte { cap: debited, ..mid.slots[src as int] },
        ));
        assert(self@ =~= old(self)@.splitted(src, dest, amount));
        Ok(())
    }

    /// DELEGATE: move `amount` units of CPU time from `src` into the existing `Sched` at `dest`,
    /// so that a server can run on its caller's time. Delegating to oneself does nothing.
    pub fn delegate(&mut self, src: Cptr, dest: Cptr, amount: u32) -> (r: Result<(), CapError>)
        requires
            old(self).wf(),
        ensures
            final(self).wf(),
            match old(self)@.delegate_error(src, dest, amount) {
                None => r is Ok && final(self)@ == old(self)@.delegated(src, dest, amount),
                Some(e) => r == Err::<(), CapError>(e) && final(self)@ == old(self)@,
            },
    {
        if src == dest {
            return Ok(());
        }
        let s = match self.live(src) {
            Err(e) => {
                return Err(e);
            },
            Ok(s) => s,
        };
        let d = match self.live(dest) {
            Err(e) => {
                return Err(e);
            },
            Ok(d) => d,
        };
        if s.cap_type != CapType::Sched || d.cap_type != CapType::Sched {
            return Err(CapError::WrongType);
        }
        if !s.rights.contains(Rights::derive()) {
            return Err(CapError::InsufficientRights);
        }
        let mut src_b = Budget::from_cap(&s);
        let mut dst_b = Budget::from_cap(&d);
        if !src_b.delegate(&mut dst_b, amount) {
            return Err(CapError::OutOfBudget);
        }
        let mut debited = s;
        let mut credited = d;
        src_b.write_into(&mut debited);
        dst_b.write_into(&mut credited);
        let ghost before = self@;
        proof {
            mdb::lemma_update_keeps_wf(before.slots, src as int, debited);
        }
        self.slots[src].cap = debited;
        let ghost mid = self@;
        proof {
            assert(mid.slots =~= before.slots.update(
                src as int,
                Cte { cap: debited, ..before.slots[src as int] },
            ));
            mdb::lemma_update_keeps_wf(mid.slots, dest as int, credited);
        }
        self.slots[dest].cap = credited;
        proof {
            assert(self@.slots =~= mid.slots.update(
                dest as int,
                Cte { cap: credited, ..mid.slots[dest as int] },
            ));
            assert(self@ =~= before.delegated(src, dest, amount));
        }
        Ok(())
    }

    /// Make a single-use `Reply` at `dest` that names the blocked caller `caller` and carries the
    /// call's `badge`. It comes from no `Untyped` and carries no rights: holding it is the
    /// authority to reply once.
    pub fn mint_reply(&mut self, dest: Cptr, caller: u64, badge: u64) -> (r: Result<(), CapError>)
        requires
            old(self).wf(),
        ensures
            final(self).wf(),
            match old(self)@.place_error(dest) {
                None => r is Ok && final(self)@ == old(self)@.placed(
                    dest as int,
                    CSpaceView::reply_cap(caller, badge),
                    NIL,
                ),
                Some(e) => r == Err::<(), CapError>(e) && final(self)@ == old(self)@,
            },
    {
        self.place(
            dest,
            RawCap {
                cap_type: CapType::Reply,
                rights: Rights::empty(),
                objref: caller,
                size: 0,
                watermark: 0,
                aux: 0,
                badge,
            },
            NIL,
        )
    }

    /// Reply once: empty the slot and return the caller that its `Reply` named. A second reply on
    /// the same slot answers `EmptySlot`.
    pub fn consume_reply(&mut self, dest: Cptr) -> (r: Result<u64, CapError>)
        requires
            old(self).wf(),
        ensures
            final(self).wf(),
            match old(self)@.reply_error(dest) {
                None => {
                    &&& r == Ok::<u64, CapError>(old(self)@.cap(dest as int).objref)
                    &&& final(self)@ == old(self)@.vacated(dest as int)
                },
                Some(e) => r == Err::<u64, CapError>(e) && final(self)@ == old(self)@,
            },
    {
        let r = match self.live(dest) {
            Err(e) => {
                return Err(e);
            },
            Ok(r) => r,
        };
        if r.cap_type != CapType::Reply {
            return Err(CapError::WrongType);
        }
        proof {
            assert forall|i: int| !#[trigger] mdb::child_of(self@.slots, i, dest as int) by {
                if mdb::live(self@.slots, i) {
                    assert(mdb::link_ok(self@.slots, i));
                }
            }
        }
        let caller: u64 = r.objref;
        self.destroy_slot(dest);
        Ok(caller)
    }

    /// REVOKE: destroy every capability derived from `c`, in one step or more, and leave `c`. An
    /// `Untyped` gets its frames back and a `Sched` the budgets split off it; objects that
    /// nothing names any more are cleared.
    pub fn revoke(&mut self, c: Cptr) -> (r: Result<(), CapError>)
        requires
            old(self).wf(),
        ensures
            final(self).wf(),
            match old(self)@.resolve_error(c) {
                None => r is Ok && old(self)@.revokes_to(c, final(self)@),
                Some(e) => r == Err::<(), CapError>(e) && final(self)@ == old(self)@,
            },
    {
        match self.live(c) {
            Err(e) => {
                return Err(e);
            },
            Ok(_) => {},
        }
        let ghost before = self@;
        let ghost mut lost: Seq<int> = Seq::empty();
        let ghost mut steps: nat = 0;
        proof {
            assert(self@.zeroed =~= before.zeroed + model::ranges_of(before.slots, lost));
            assert forall|i: int| !#[trigger] model::is_lost(before.slots, self@.slots, i) by {
                if mdb::live(before.slots, i) {
                    assert(model::same_object(self@.slots[i].cap, before.slots[i].cap));
                }
            }
        }
        // A childless capability can go without orphaning anything, and there is one as long as
        // anything derived from `c` is left.
        let mut next = self.revocable_leaf(c);
        while next.is_some()
            invariant
                before.wf(),
                before.slots.len() == N,
                mdb::live(before.slots, c as int),
                self.wf(),
                mdb::live(self@.slots, c as int),
                self@.next_obj == before.next_obj,
                revoke::partly_revoked(before.slots, self@.slots, c as int),
                model::lists_lost_objects(before.slots, self@.slots, lost),
                self@.zeroed == before.zeroed + model::ranges_of(before.slots, lost),
                self@ == before.revoke_steps(c as int, steps),
                steps + revoke::live_count(self@.slots) <= revoke::live_count(before.slots),
                match next {
                    Some(d) => model::is_next_revoked(self@.slots, c as int, d as int),
                    None => forall|d: int|
                        !#[trigger] mdb::derived_from(self@.slots, d, c as int),
                },
            decreases revoke::live_count(self@.slots),
        {
            let d: usize = next.unwrap();
            proof {
                revoke::lemma_partly_revoked_step(before.slots, self@, c as int, d as int);
                lost = revoke::lemma_cleared_step(before, self@, c as int, d as int, lost);
                revoke::lemma_destroy_counts_down(self@, d as int);
                revoke::lemma_revoke_step(self@, c as int, d as int);
                steps = steps + 1;
            }
            self.destroy_slot(d);
            assert(mdb::live(self@.slots, c as int)) by {
                mdb::lemma_no_self_descent(before.slots, c as int);
                assert(self@.slots[c as int] == before.slots[c as int]
                    || self@.slots[c as int].cap.cap_type
                    == before.slots[c as int].cap.cap_type);
            }
            next = self.revocable_leaf(c);
        }
        proof {
            revoke::lemma_fully_revoked(before.slots, self@.slots, c as int);
            revoke::lemma_live_count_fits(before.slots);
            revoke::lemma_revoke_steps_done(before, c as int, steps, N as nat);
        }
        let ghost mid = self@;
        if self.slots[c].cap.cap_type == CapType::Untyped {
            proof {
                mdb::lemma_update_keeps_wf(
                    mid.slots,
                    c as int,
                    RawCap { watermark: 0, ..mid.cap(c as int) },
                );
            }
            self.slots[c].cap.watermark = 0;
            proof {
                assert(self@.slots =~= model::revoked_slots(before.slots, c as int));
                revoke::lemma_losses_ignore_amounts(before.slots, mid.slots, self@.slots, lost);
            }
        }
        assert(self@ =~= before.revoked(c));
        Ok(())
    }

    /// DELETE: revoke what is derived from `c`, and destroy `c` itself.
    pub fn delete(&mut self, c: Cptr) -> (r: Result<(), CapError>)
        requires
            old(self).wf(),
        ensures
            final(self).wf(),
            match old(self)@.resolve_error(c) {
                None => r is Ok && old(self)@.deletes_to(c, final(self)@),
                Some(e) => r == Err::<(), CapError>(e) && final(self)@ == old(self)@,
            },
    {
        match self.revoke(c) {
            Err(e) => {
                return Err(e);
            },
            Ok(()) => {},
        }
        proof {
            revoke::lemma_revoked_is_childless(old(self)@.slots, c as int);
            revoke::lemma_delete_clears(old(self)@, self@, c);
        }
        self.destroy_slot(c);
        Ok(())
    }

    /// Fill a slot that nothing is derived from.
    fn put(&mut self, slot: Cptr, cap: RawCap, parent: usize)
        requires
            old(self).wf(),
            slot < N,
            old(self)@.vacant(slot as int) || !mdb::has_child(old(self)@.slots, slot as int),
            parent != slot,
            cap.cap_type != CapType::Null,
            cap.cap_type == CapType::Untyped ==> cap.watermark <= cap.size,
            parent == NIL || {
                &&& mdb::live(old(self)@.slots, parent as int)
                &&& old(self)@.cap(parent as int).cap_type != CapType::Reply
                &&& cap.cap_type == CapType::Sched ==> old(self)@.cap(parent as int).cap_type
                    == CapType::Sched
            },
        ensures
            final(self).wf(),
            final(self)@ == old(self)@.placed(slot as int, cap, parent),
    {
        proof {
            mdb::lemma_place_keeps_wf(self@.slots, slot as int, Cte { cap, parent });
        }
        self.slots[slot] = Cte { cap, parent };
    }

    fn place(&mut self, dest: Cptr, cap: RawCap, parent: usize) -> (r: Result<(), CapError>)
        requires
            old(self).wf(),
            cap.cap_type != CapType::Null,
            cap.cap_type == CapType::Untyped ==> cap.watermark <= cap.size,
            parent == NIL || {
                &&& mdb::live(old(self)@.slots, parent as int)
                &&& old(self)@.cap(parent as int).cap_type != CapType::Reply
                &&& cap.cap_type == CapType::Sched ==> old(self)@.cap(parent as int).cap_type
                    == CapType::Sched
            },
        ensures
            final(self).wf(),
            match old(self)@.place_error(dest) {
                None => r is Ok && final(self)@ == old(self)@.placed(dest as int, cap, parent),
                Some(e) => r == Err::<(), CapError>(e) && final(self)@ == old(self)@,
            },
    {
        if dest >= N {
            return Err(CapError::OutOfBounds);
        }
        if !self.slots[dest].cap.is_null() {
            return Err(CapError::SlotOccupied);
        }
        self.put(dest, cap, parent);
        Ok(())
    }

    fn destroy_slot(&mut self, d: Cptr)
        requires
            old(self).wf(),
            mdb::live(old(self)@.slots, d as int),
            !mdb::has_child(old(self)@.slots, d as int),
        ensures
            final(self).wf(),
            final(self)@ == old(self)@.destroyed(d as int),
    {
        let ghost before = self@;
        proof {
            revoke::lemma_destroy_keeps_wf(before, d as int);
            assert(mdb::link_ok(before.slots, d as int));
        }
        let cap = self.slots[d].cap;
        let parent: usize = self.slots[d].parent;
        self.slots[d] = Cte::empty();
        // A destroyed `Sched` gives its budget back to the `Sched` it was split from.
        if cap.cap_type == CapType::Sched && parent != NIL {
            let mut p = self.slots[parent].cap;
            if p.cap_type == CapType::Sched {
                p.size = p.size.saturating_add(cap.size);
                self.slots[parent].cap = p;
            }
        }
        assert(self@.slots =~= before.destroyed(d as int).slots);
        let another = self.names_object(&cap);
        if !another && !matches!(
            cap.cap_type,
            CapType::Untyped | CapType::Sched | CapType::Reply | CapType::SharedRo | CapType::Domain
        ) {
            self.zero.zero(cap.objref, cap.size);
        }
        assert(self@ =~= before.destroyed(d as int));
    }

    /// Does some slot name the object of `cap`?
    fn names_object(&self, cap: &RawCap) -> (b: bool)
        requires
            self@.slots.len() == N,
        ensures
            b == model::still_named(self@.slots, *cap),
    {
        let mut k: usize = 0;
        while k < N
            invariant
                k <= N,
                self@.slots.len() == N,
                forall|i: int|
                    0 <= i < k && mdb::live(self@.slots, i) ==> !model::same_object(
                        #[trigger] self@.slots[i].cap,
                        *cap,
                    ),
            decreases N - k,
        {
            let c = self.slots[k].cap;
            if !c.is_null() && c.cap_type == cap.cap_type && c.objref == cap.objref {
                assert(model::same_object(self@.slots[k as int].cap, *cap));
                return true;
            }
            k = k + 1;
        }
        false
    }

    /// The first childless capability derived from `c`.
    fn revocable_leaf(&self, c: Cptr) -> (r: Option<Cptr>)
        requires
            self.wf(),
            mdb::live(self@.slots, c as int),
        ensures
            match r {
                Some(d) => model::is_next_revoked(self@.slots, c as int, d as int),
                None => forall|d: int| !#[trigger] mdb::derived_from(self@.slots, d, c as int),
            },
    {
        let mut d: usize = 0;
        while d < N
            invariant
                d <= N,
                c < N,
                self.wf(),
                mdb::live(self@.slots, c as int),
                forall|i: int| #[trigger]
                    mdb::derived_from(self@.slots, i, c as int) && i < d ==> mdb::has_child(
                        self@.slots,
                        i,
                    ),
            decreases N - d,
        {
            if d != c && !self.slots[d].cap.is_null() && self.is_descendant(d, c)
                && !self.has_children(d) {
                return Some(d);
            }
            d = d + 1;
        }
        proof {
            assert forall|i: int| !#[trigger] mdb::derived_from(self@.slots, i, c as int) by {
                if mdb::derived_from(self@.slots, i, c as int) {
                    let leaf = mdb::lemma_leaf_below(self@.slots, c as int, i);
                    assert(mdb::derived_from(self@.slots, leaf, c as int));
                }
            }
        }
        None
    }

    fn is_descendant(&self, start: Cptr, ancestor: Cptr) -> (b: bool)
        requires
            self.wf(),
            mdb::live(self@.slots, start as int),
            ancestor < N,
        ensures
            b == mdb::descends(self@.slots, start as int, ancestor as int),
    {
        let mut d: usize = start;
        let mut k: usize = 0;
        while k < N
            invariant
                k <= N,
                self.wf(),
                ancestor < N,
                mdb::live(self@.slots, start as int),
                mdb::live(self@.slots, d as int),
                d == mdb::ancestor(self@.slots, start as int, k as nat),
                forall|j: nat|
                    0 < j <= k ==> #[trigger] mdb::ancestor(self@.slots, start as int, j)
                        != ancestor,
            decreases N - k,
        {
            assert(mdb::link_ok(self@.slots, d as int));
            let p: usize = self.slots[d].parent;
            let ghost next = (k + 1) as nat;
            assert(p == mdb::ancestor(self@.slots, start as int, next));
            if p == NIL {
                proof {
                    assert forall|j: nat| 0 < j implies #[trigger] mdb::ancestor(
                        self@.slots,
                        start as int,
                        j,
                    ) != ancestor by {
                        if j > next {
                            mdb::lemma_ancestor_nil(self@.slots, start as int, next, j);
                        }
                    }
                }
                return false;
            }
            if p == ancestor {
                return true;
            }
            d = p;
            k = k + 1;
        }
        proof {
            // There are fewer links than slots on any way to a root.
            mdb::lemma_descent_is_short(self@.slots, start as int, k as nat);
        }
        false
    }

    fn has_children(&self, d: Cptr) -> (b: bool)
        requires
            self.wf(),
        ensures
            b == mdb::has_child(self@.slots, d as int),
    {
        let mut k: usize = 0;
        while k < N
            invariant
                k <= N,
                self.wf(),
                forall|i: int| i < k ==> !#[trigger] mdb::child_of(self@.slots, i, d as int),
            decreases N - k,
        {
            if !self.slots[k].cap.is_null() && self.slots[k].parent == d {
                assert(mdb::child_of(self@.slots, k as int, d as int));
                return true;
            }
            k = k + 1;
        }
        false
    }
}

/// GRANT: transfer the capability in `src_slot` of `src` into `dst_slot` of `dst` over IPC, with
/// `new_rights` (no wider than its own) and `badge`. `Move` vacates the source, `Mint` keeps it.
/// The destination is checked before the source is touched.
///
/// A `Reply` is never transferable, an `Untyped` or `Sched` cannot be forked by `Mint`, and a
/// capability with children cannot leave the space they live in. The granted capability is a
/// root in `dst`.
pub fn grant<const N: usize, const M: usize, Z: ZeroFrames, Y: ZeroFrames>(
    src: &mut CSpace<N, Z>,
    src_slot: Cptr,
    dst: &mut CSpace<M, Y>,
    dst_slot: Cptr,
    new_rights: Rights,
    badge: u64,
    mode: GrantMode,
) -> (r: Result<(), CapError>)
    requires
        old(src).wf(),
        old(dst).wf(),
    ensures
        final(src).wf(),
        final(dst).wf(),
        match model::grant_error(old(src)@, src_slot, old(dst)@, dst_slot, new_rights, mode) {
            None => {
                &&& r is Ok
                &&& final(dst)@ == old(dst)@.placed(
                    dst_slot as int,
                    RawCap { rights: new_rights, badge, ..old(src)@.cap(src_slot as int) },
                    NIL,
                )
                &&& final(src)@ == (if mode == GrantMode::Move {
                    old(src)@.vacated(src_slot as int)
                } else {
                    old(src)@
                })
            },
            Some(e) => {
                &&& r == Err::<(), CapError>(e)
                &&& final(src)@ == old(src)@
                &&& final(dst)@ == old(dst)@
            },
        },
{
    let s = match src.live(src_slot) {
        Err(e) => {
            return Err(e);
        },
        Ok(s) => s,
    };
    if s.cap_type == CapType::Reply {
        return Err(CapError::InsufficientRights);
    }
    if mode == GrantMode::Mint && matches!(s.cap_type, CapType::Untyped | CapType::Sched) {
        return Err(CapError::InsufficientRights);
    }
    if !s.rights.contains(Rights::grant()) {
        return Err(CapError::InsufficientRights);
    }
    if !new_rights.subset_of(s.rights) {
        return Err(CapError::InsufficientRights);
    }
    if mode == GrantMode::Move && src.has_children(src_slot) {
        return Err(CapError::InsufficientRights);
    }
    let granted = RawCap {
        cap_type: s.cap_type,
        rights: new_rights,
        objref: s.objref,
        size: s.size,
        watermark: s.watermark,
        aux: s.aux,
        badge,
    };
    match dst.place(dst_slot, granted, NIL) {
        Err(e) => {
            return Err(e);
        },
        Ok(()) => {},
    }
    if mode == GrantMode::Move {
        proof {
            mdb::lemma_remove_keeps_wf(src@.slots, src_slot as int);
        }
        // The object lives on in `dst`, so it is not cleared.
        src.slots[src_slot] = Cte::empty();
    }
    Ok(())
}

/// Is `t` a type that COPY and MINT refuse?
fn is_never_duplicated(t: CapType) -> (b: bool)
    ensures
        b == model::is_unique(t),
{
    matches!(t, CapType::Untyped | CapType::Sched | CapType::Reply)
}

/// Can RETYPE make objects of type `t`? The others are made by the kernel, or with a budget.
pub fn is_retypeable(t: CapType) -> (b: bool)
    ensures
        b == model::is_retypeable_spec(t),
{
    !matches!(
        t,
        CapType::Null | CapType::Untyped | CapType::Reply | CapType::IrqControl | CapType::Sched
            | CapType::SharedRo | CapType::Domain
    )
}

/// The rights of a freshly retyped object: its creator owns it fully, but a `Frame` does not start
/// out executable.
pub fn default_rights(t: CapType) -> (r: Rights)
    ensures
        r == model::default_rights_spec(t),
{
    match t {
        CapType::Untyped => Rights::retype(),
        CapType::Frame => Rights::read() | Rights::write() | Rights::map() | Rights::grant()
            | Rights::derive(),
        CapType::CNode => Rights::derive() | Rights::grant(),
        CapType::Endpoint => Rights::send() | Rights::recv() | Rights::grant() | Rights::derive(),
        CapType::Notification => Rights::signal() | Rights::recv() | Rights::derive(),
        _ => Rights::derive(),
    }
}

} // verus!
