//! Capability spaces: retyping, derivation, revocation, budgets, replies and grants.

use praesidium::cap::cap::{CNode, CapType, Frame};
use praesidium::cap::cspace::{grant, CSpace, CapError, Cptr, GrantMode};
use praesidium::cap::rights::Rights;
use praesidium::cap::sched::Budget;
use praesidium::cap::zero::ZeroLog;

/// A CSpace with the primordial untyped (`frames` frames at frame 0) in slot 0.
fn boot<const N: usize>(frames: u32) -> CSpace<N> {
    let mut cs = CSpace::<N>::new(ZeroLog::new());
    cs.set_root_untyped(0, frames);
    cs
}

/// The sum, over every range cleared so far, of its frame number plus one.
fn zeroed_sum<const N: usize>(cs: &CSpace<N>) -> u64 {
    cs.zero_hook().ranges().iter().map(|r| r.0 + 1).sum()
}

#[test]
fn retype_produces_typed_objects_charged_to_budget() {
    let mut cs = boot::<32>(100);
    // 3 frames out of the untyped into slots 1,2,3.
    cs.retype(0, CapType::Frame, 1, 3, 1).unwrap();
    for s in 1..=3 {
        let f = cs.get::<Frame>(s).unwrap();
        assert!(f.allows(Rights::read() | Rights::write()));
        assert!(!f.allows(Rights::execute()), "W^X: no execute by default");
    }
    // Budget charged: 100 - 3 consumed.
    assert_eq!(cs.resolve(0).unwrap().watermark, 3);
    assert_eq!(cs.get::<Frame>(1).unwrap().objref(), 0);
    assert_eq!(cs.get::<Frame>(2).unwrap().objref(), 1);
}

#[test]
fn retype_refuses_over_budget_and_wrong_type() {
    let mut cs = boot::<8>(2);
    assert_eq!(
        cs.retype(0, CapType::Frame, 1, 3, 1),
        Err(CapError::OutOfBudget)
    );
    assert_eq!(
        cs.resolve(0).unwrap().watermark,
        0,
        "refused retype charges nothing"
    );
    // slot 5 is empty → retyping from it is EmptySlot; wrong-type from a frame.
    cs.retype(0, CapType::Frame, 1, 1, 1).unwrap();
    assert_eq!(
        cs.retype(1, CapType::Frame, 1, 1, 2),
        Err(CapError::WrongType)
    );
}

#[test]
fn mint_narrows_and_refuses_widening() {
    let mut cs = boot::<16>(10);
    cs.retype(0, CapType::Frame, 1, 1, 1).unwrap(); // slot 1: RW frame
                                                    // Mint a read-only view into slot 2.
    cs.mint(1, 2, Rights::read(), 0xbeef).unwrap();
    let ro = cs.get::<Frame>(2).unwrap();
    assert_eq!(ro.rights(), Rights::read());
    assert_eq!(ro.badge(), 0xbeef);
    // Widening from the read-only cap is refused.
    assert_eq!(
        cs.mint(2, 3, Rights::read() | Rights::write(), 0),
        Err(CapError::InsufficientRights)
    );
}

#[test]
fn copy_keeps_rights_move_relocates() {
    let mut cs = boot::<16>(10);
    cs.retype(0, CapType::Frame, 1, 1, 1).unwrap();
    cs.copy(1, 2).unwrap();
    assert_eq!(cs.resolve(1).unwrap().rights, cs.resolve(2).unwrap().rights);
    cs.move_cap(2, 5).unwrap();
    assert_eq!(cs.resolve(2), Err(CapError::EmptySlot));
    assert!(cs.get::<Frame>(5).is_ok());
}

#[test]
fn revoke_destroys_all_descendants_transitively() {
    let mut cs = boot::<32>(100);
    // untyped(0) -> frames in 1,2,3; mint a child of 1 into 4; copy 2 into 5.
    cs.retype(0, CapType::Frame, 1, 3, 1).unwrap();
    cs.mint(1, 4, Rights::read(), 0).unwrap(); // child of frame 1 (grandchild of untyped)
    cs.copy(2, 5).unwrap(); // sibling of frame 2 (child of untyped)
                            // Revoke the untyped: every descendant (1,2,3,4,5) must be destroyed, untyped kept.
    cs.revoke(0).unwrap();
    for s in 1..=5 {
        assert_eq!(
            cs.resolve(s),
            Err(CapError::EmptySlot),
            "slot {s} not revoked"
        );
    }
    assert!(cs.resolve(0).is_ok(), "the untyped itself survives revoke");
    assert_eq!(
        cs.resolve(0).unwrap().watermark,
        0,
        "untyped budget reclaimed"
    );
}

#[test]
fn revoked_cap_use_fails_cleanly_not_ub() {
    let mut cs = boot::<16>(10);
    cs.retype(0, CapType::Frame, 1, 1, 1).unwrap();
    cs.mint(1, 2, Rights::read(), 0).unwrap();
    cs.revoke(1).unwrap(); // destroys the minted child (2), keeps 1
    assert_eq!(cs.resolve(2), Err(CapError::EmptySlot));
    assert_eq!(
        cs.get::<Frame>(2).err(),
        Some(CapError::EmptySlot)
    );
    assert!(cs.resolve(1).is_ok());
}

#[test]
fn out_of_bounds_and_empty_resolve_cleanly() {
    let cs = boot::<4>(10);
    assert_eq!(cs.resolve(99), Err(CapError::OutOfBounds));
    assert_eq!(cs.resolve(1), Err(CapError::EmptySlot));
    assert_eq!(
        cs.get::<CNode>(0).err(),
        Some(CapError::WrongType)
    );
}

#[test]
fn delete_last_cap_zeroes_object() {
    let mut cs = CSpace::<8>::new(ZeroLog::new());
    cs.set_root_untyped(10, 100);
    cs.retype(0, CapType::Frame, 1, 1, 1).unwrap(); // frame objref=10
    cs.copy(1, 2).unwrap(); // second cap to the same object
    let before = zeroed_sum(&cs); // ignore retype's zeroing; isolate destroy-zeroing
    cs.delete(1).unwrap(); // not the last cap → no zero yet
    assert_eq!(zeroed_sum(&cs) - before, 0, "object still referenced; not zeroed");
    cs.delete(2).unwrap(); // last cap → zero object (objref 10 -> +11)
    assert_eq!(zeroed_sum(&cs) - before, 11, "last-cap delete zeroes the object");
}

#[test]
fn untyped_is_never_copyable_or_mintable() {
    // The critical fix: duplicating an Untyped would fork its per-cap watermark, letting
    // two caps retype the SAME physical frames (double-allocation). Both are refused.
    let mut cs = boot::<16>(64);
    assert_eq!(cs.copy(0, 1), Err(CapError::InsufficientRights));
    assert_eq!(
        cs.mint(0, 1, Rights::retype(), 0),
        Err(CapError::InsufficientRights)
    );
    // The untyped remains the sole allocator; there is exactly one watermark.
    cs.retype(0, CapType::Frame, 1, 4, 1).unwrap();
    assert_eq!(cs.resolve(0).unwrap().watermark, 4);
    assert_eq!(cs.resolve(1).unwrap().cap_type, CapType::Frame); // a real Frame, not an untyped alias
}

#[test]
fn retype_refuses_degenerate_and_non_retypeable() {
    let mut cs = boot::<8>(64);
    assert_eq!(
        cs.retype(0, CapType::Frame, 0, 4, 1),
        Err(CapError::OutOfBudget)
    ); // zero size
    assert_eq!(
        cs.retype(0, CapType::Frame, 1, 0, 1),
        Err(CapError::OutOfBudget)
    ); // zero count
    assert_eq!(
        cs.retype(0, CapType::Null, 1, 1, 1),
        Err(CapError::WrongType)
    );
    assert_eq!(
        cs.retype(0, CapType::Untyped, 1, 1, 1),
        Err(CapError::WrongType)
    ); // no sub-retype
    assert_eq!(
        cs.retype(0, CapType::Reply, 1, 1, 1),
        Err(CapError::WrongType)
    ); // kernel-minted
    assert_eq!(
        cs.resolve(0).unwrap().watermark,
        0,
        "refused retypes charge nothing"
    );
}

// ---- Sched ----

fn budget_of<const N: usize>(cs: &CSpace<N>, c: Cptr) -> Budget {
    Budget::from_cap(&cs.resolve(c).unwrap())
}

#[test]
fn sched_split_conserves_budget_and_scopes_to_revoke() {
    let mut cs = CSpace::<16>::new(ZeroLog::new());
    cs.set_root_sched(0, 100, 50); // root Sched: 100 units / 50 period
    assert_eq!(cs.resolve(0).unwrap().cap_type, CapType::Sched);
    // SPLIT 30 into slot 1, then 20 into slot 2.
    cs.split(0, 1, 30).unwrap();
    cs.split(0, 2, 20).unwrap();
    assert_eq!(budget_of(&cs, 0).capacity, 50, "root debited by 30+20");
    assert_eq!(budget_of(&cs, 1).capacity, 30);
    assert_eq!(budget_of(&cs, 2).capacity, 20);
    assert_eq!(budget_of(&cs, 1).period, 50, "child inherits period");
    // Conservation across the whole tree.
    let total =
        budget_of(&cs, 0).capacity + budget_of(&cs, 1).capacity + budget_of(&cs, 2).capacity;
    assert_eq!(total, 100, "no CPU time created by splitting");
    // Each Sched is a distinct object identity.
    assert_ne!(cs.resolve(0).unwrap().objref, cs.resolve(1).unwrap().objref);
    // REVOKE the root: children destroyed, root kept — and their budget flows BACK to the
    // root (CPU-time conserved across revoke, not leaked).
    cs.revoke(0).unwrap();
    assert_eq!(cs.resolve(1), Err(CapError::EmptySlot));
    assert_eq!(cs.resolve(2), Err(CapError::EmptySlot));
    assert!(cs.resolve(0).is_ok());
    assert_eq!(
        budget_of(&cs, 0).capacity,
        100,
        "revoke reclaims child budget to the root (no CPU time lost)"
    );
}

#[test]
fn sched_revoke_reclaims_budget_transitively() {
    // root → A → B (a 2-level Sched tree). Revoking the root must funnel B's budget up
    // through A back to root, leaf-first, conserving the full 100 units.
    let mut cs = CSpace::<8>::new(ZeroLog::new());
    cs.set_root_sched(0, 100, 10);
    cs.split(0, 1, 60).unwrap(); // A ← 60 (root 40)
    cs.split(1, 2, 25).unwrap(); // B ← 25 from A (A 35)
    assert_eq!(budget_of(&cs, 0).capacity, 40);
    assert_eq!(budget_of(&cs, 1).capacity, 35);
    assert_eq!(budget_of(&cs, 2).capacity, 25);
    cs.revoke(0).unwrap();
    assert_eq!(cs.resolve(1), Err(CapError::EmptySlot));
    assert_eq!(cs.resolve(2), Err(CapError::EmptySlot));
    assert_eq!(
        budget_of(&cs, 0).capacity,
        100,
        "transitive reclaim: B→A→root conserves all CPU time"
    );
}

#[test]
fn sched_split_over_budget_is_all_or_nothing() {
    let mut cs = CSpace::<8>::new(ZeroLog::new());
    cs.set_root_sched(0, 40, 10);
    assert_eq!(cs.split(0, 1, 41), Err(CapError::OutOfBudget));
    assert_eq!(
        budget_of(&cs, 0).capacity,
        40,
        "refused split leaves root untouched"
    );
    assert_eq!(cs.resolve(1), Err(CapError::EmptySlot), "no child placed");
    // A split whose destination is occupied must not debit the source either.
    cs.split(0, 1, 10).unwrap();
    assert_eq!(cs.split(0, 1, 5), Err(CapError::SlotOccupied));
    assert_eq!(
        budget_of(&cs, 0).capacity,
        30,
        "occupied-dest split did not debit source"
    );
}

#[test]
fn sched_delegate_transfers_and_conserves() {
    let mut cs = CSpace::<8>::new(ZeroLog::new());
    cs.set_root_sched(0, 100, 10);
    cs.split(0, 1, 40).unwrap(); // slot1 has 40, root now 60
    cs.delegate(0, 1, 25).unwrap();
    assert_eq!(budget_of(&cs, 0).capacity, 35);
    assert_eq!(budget_of(&cs, 1).capacity, 65);
    assert_eq!(budget_of(&cs, 0).capacity + budget_of(&cs, 1).capacity, 100);
    // Over-available delegation refused, both untouched.
    assert_eq!(cs.delegate(0, 1, 36), Err(CapError::OutOfBudget));
    assert_eq!(budget_of(&cs, 0).capacity, 35);
    assert_eq!(budget_of(&cs, 1).capacity, 65);
    // Self-delegate is a harmless no-op (must NOT double-credit).
    cs.delegate(1, 1, 10).unwrap();
    assert_eq!(
        budget_of(&cs, 1).capacity,
        65,
        "self-delegate created no budget"
    );
}

#[test]
fn sched_is_never_duplicable_or_retypeable() {
    // Like Untyped: duplicating a Sched would fork its per-cap budget (CPU-time forgery).
    let mut cs = CSpace::<8>::new(ZeroLog::new());
    cs.set_root_sched(0, 50, 10);
    assert_eq!(cs.copy(0, 1), Err(CapError::InsufficientRights));
    assert_eq!(
        cs.mint(0, 1, Rights::derive(), 0),
        Err(CapError::InsufficientRights)
    );
    // And a Sched cannot be conjured by RETYPE (no budget argument ⇒ malformed).
    let mut cu = CSpace::<8>::new(ZeroLog::new());
    cu.set_root_untyped(0, 64);
    assert_eq!(
        cu.retype(0, CapType::Sched, 1, 1, 1),
        Err(CapError::WrongType)
    );
}

#[test]
fn sched_destroy_does_not_zero_frames() {
    // A Sched has no backing frames; destroying it must NOT invoke the frame-zeroing hook
    // (its `size` is a budget, not a frame count — zeroing would scribble memory).
    let mut cs = CSpace::<8>::new(ZeroLog::new());
    cs.set_root_sched(0, 1_000_000, 10); // huge "size" — would be catastrophic if zeroed
    cs.split(0, 1, 500_000).unwrap();
    cs.delete(1).unwrap(); // destroy a Sched
    cs.delete(0).unwrap();
    assert_eq!(cs.zero_hook().ranges().len(), 0, "Sched destruction must never zero frames");
}

// ---- IPC: single-use Reply + cross-CSpace GRANT ----

#[test]
fn reply_is_single_use_and_names_the_caller() {
    // the first reply consumes the cap; a second fails cleanly.
    let mut cs = CSpace::<8>::new(ZeroLog::new());
    cs.mint_reply(1, 0xCA11E7, 0xBADD).unwrap();
    assert_eq!(cs.resolve(1).unwrap().cap_type, CapType::Reply);
    assert_eq!(cs.resolve(1).unwrap().badge, 0xBADD);
    assert_eq!(
        cs.consume_reply(1),
        Ok(0xCA11E7),
        "reply returns the named caller"
    );
    // Second reply on the same cptr fails cleanly (slot now empty) — the single-use guarantee.
    assert_eq!(cs.consume_reply(1), Err(CapError::EmptySlot));
    assert_eq!(cs.resolve(1), Err(CapError::EmptySlot));
}

#[test]
fn reply_is_non_duplicable() {
    // A Reply must not be COPY/MINT'd (else a server hoards reply authority — the exact leak
    // single use exists to prevent).
    let mut cs = CSpace::<8>::new(ZeroLog::new());
    cs.mint_reply(1, 7, 0).unwrap();
    assert_eq!(cs.copy(1, 2), Err(CapError::InsufficientRights));
    assert_eq!(
        cs.mint(1, 2, Rights::empty(), 0),
        Err(CapError::InsufficientRights)
    );
    assert!(
        cs.resolve(1).is_ok(),
        "the reply survives the refused duplication"
    );
}

#[test]
fn reply_consume_zeroes_no_frames() {
    // The Reply's objref is a caller id, not a frame — consuming it must not call the zero hook.
    let mut cs = CSpace::<8>::new(ZeroLog::new());
    cs.mint_reply(1, 0xFFFF_FFFF, 0).unwrap(); // huge caller id — catastrophic if a frame
    cs.consume_reply(1).unwrap();
    assert_eq!(cs.zero_hook().ranges().len(), 0);
}

/// A CSpace with a GRANT-able Frame (retyped from a 64-frame untyped) at slot 1.
fn boot_with_frame<const N: usize>() -> CSpace<N> {
    let mut cs = CSpace::<N>::new(ZeroLog::new());
    cs.set_root_untyped(0, 64);
    cs.retype(0, CapType::Frame, 1, 1, 1).unwrap(); // slot 1: RW|MAP|GRANT|DERIVE Frame
    cs
}

#[test]
fn grant_move_transfers_and_narrows_monotonically() {
    // GRANT moves a cap into the receiver's CSpace with monotonic (narrowed) rights.
    let mut client = boot_with_frame::<8>();
    let mut server = CSpace::<8>::new(ZeroLog::new());
    let objref = client.resolve(1).unwrap().objref;
    grant(
        &mut client,
        1,
        &mut server,
        3,
        Rights::read(),
        0xC11E,
        GrantMode::Move,
    )
    .unwrap();
    let g = server.resolve(3).unwrap();
    assert_eq!(g.cap_type, CapType::Frame);
    assert_eq!(g.objref, objref, "same object landed in the receiver");
    assert_eq!(g.rights, Rights::read(), "rights narrowed on transfer");
    assert_eq!(g.badge, 0xC11E, "badged for the receiver's accounting");
    assert_eq!(
        client.resolve(1),
        Err(CapError::EmptySlot),
        "MOVE vacated the source"
    );
}

#[test]
fn grant_mint_keeps_source_and_refuses_widening() {
    let mut client = boot_with_frame::<8>();
    let mut server = CSpace::<8>::new(ZeroLog::new());
    grant(
        &mut client,
        1,
        &mut server,
        3,
        Rights::read() | Rights::write(),
        0,
        GrantMode::Mint,
    )
    .unwrap();
    assert!(client.resolve(1).is_ok(), "MINT-grant leaves the source");
    assert_eq!(
        server.resolve(3).unwrap().rights,
        Rights::read() | Rights::write()
    );
    // Widening beyond the source's rights is refused (monotonic), all-or-nothing.
    assert_eq!(
        grant(
            &mut client,
            1,
            &mut server,
            4,
            Rights::all(),
            0,
            GrantMode::Move
        ),
        Err(CapError::InsufficientRights)
    );
    assert!(
        client.resolve(1).is_ok(),
        "refused grant left the source untouched"
    );
    assert_eq!(
        server.resolve(4),
        Err(CapError::EmptySlot),
        "refused grant placed nothing"
    );
}

#[test]
fn grant_is_all_or_nothing_on_full_destination() {
    // If the destination slot is occupied, a MOVE-grant must NOT vacate the source — the
    // all-or-nothing property the in-flight-REVOKE atomicity leans on.
    let mut client = boot_with_frame::<8>();
    let mut server = boot_with_frame::<8>(); // server slot 1 occupied
    assert_eq!(
        grant(
            &mut client,
            1,
            &mut server,
            1,
            Rights::read(),
            0,
            GrantMode::Move
        ),
        Err(CapError::SlotOccupied)
    );
    assert!(
        client.resolve(1).is_ok(),
        "occupied-dest grant left the source intact"
    );
}

#[test]
fn grant_refuses_reply_and_ungrantable() {
    let mut a = CSpace::<8>::new(ZeroLog::new());
    let mut b = CSpace::<8>::new(ZeroLog::new());
    // A Reply is never transferable (bound to one caller).
    a.mint_reply(1, 5, 0).unwrap();
    assert_eq!(
        grant(&mut a, 1, &mut b, 2, Rights::empty(), 0, GrantMode::Move),
        Err(CapError::InsufficientRights)
    );
    // A cap without the GRANT right can't be transferred (Untyped has RETYPE only).
    let mut c = CSpace::<8>::new(ZeroLog::new());
    c.set_root_untyped(0, 64);
    assert_eq!(
        grant(&mut c, 0, &mut b, 2, Rights::retype(), 0, GrantMode::Move),
        Err(CapError::InsufficientRights)
    );
    assert!(
        c.resolve(0).is_ok(),
        "refused grant left the untyped intact"
    );
}

#[test]
fn grant_then_revoke_source_resolves_cleanly() {
    // In-flight atomicity shape at the logic level: after a MOVE-grant, the
    // source is empty, so a source-side REVOKE finds nothing to reach and the receiver keeps
    // its cap — whichever order runs, the state is consistent (never a half-transferred cap).
    let mut client = boot_with_frame::<8>();
    let mut server = CSpace::<8>::new(ZeroLog::new());
    grant(
        &mut client,
        1,
        &mut server,
        2,
        Rights::read(),
        0,
        GrantMode::Move,
    )
    .unwrap();
    // A revoke of the client's (now-empty) source slot fails cleanly, not UB.
    assert_eq!(client.revoke(1), Err(CapError::EmptySlot));
    // A revoke of the client's untyped root does NOT reach the moved cap (it left the tree).
    client.revoke(0).unwrap();
    assert!(
        server.resolve(2).is_ok(),
        "the granted (moved) cap survives a source revoke"
    );
}

#[test]
fn grant_move_refuses_a_cap_with_local_children() {
    // MOVE-grant of a cap that has MDB children would orphan them (they live in the source
    // CSpace and can't cross) — refuse it. MINT-grant (source kept) is fine.
    let mut client = boot_with_frame::<8>(); // slot 1 = Frame (RW|MAP|GRANT|DERIVE)
    client.mint(1, 2, Rights::read(), 0).unwrap(); // derive a child of the frame at slot 2
    let mut server = CSpace::<8>::new(ZeroLog::new());
    assert_eq!(
        grant(
            &mut client,
            1,
            &mut server,
            3,
            Rights::read(),
            0,
            GrantMode::Move
        ),
        Err(CapError::InsufficientRights)
    );
    assert!(
        client.resolve(1).is_ok(),
        "refused MOVE left the source + child intact"
    );
    assert!(client.resolve(2).is_ok());
    assert_eq!(
        server.resolve(3),
        Err(CapError::EmptySlot),
        "nothing placed"
    );
    // MINT-grant keeps the source, so no orphaning — allowed.
    grant(
        &mut client,
        1,
        &mut server,
        3,
        Rights::read(),
        0,
        GrantMode::Mint,
    )
    .unwrap();
    assert!(client.resolve(1).is_ok());
}

#[test]
fn revoke_racing_grant_is_atomic_in_both_orderings() {
    // in-flight atomicity — the explicit race test. On a single CPU the masked
    // grant and a REVOKE cannot interleave; this asserts that WHICHEVER wins, the state is
    // consistent (never a half-transferred or duplicated cap).
    // (1) REVOKE-then-GRANT: the source is gone ⇒ the grant fails cleanly, forging nothing.
    {
        let mut client = boot_with_frame::<8>();
        let mut server = CSpace::<8>::new(ZeroLog::new());
        client.revoke(0).unwrap(); // revoke the untyped ⇒ destroys the frame at slot 1
        assert_eq!(client.resolve(1), Err(CapError::EmptySlot));
        assert_eq!(
            grant(
                &mut client,
                1,
                &mut server,
                2,
                Rights::read(),
                0,
                GrantMode::Move
            ),
            Err(CapError::EmptySlot),
            "grant after revoke finds nothing — no half-transferred cap"
        );
        assert_eq!(server.resolve(2), Err(CapError::EmptySlot));
    }
    // (2) GRANT-then-REVOKE: the MOVE'd cap left the source tree ⇒ a source revoke can't
    // reclaim it, and exactly one consistent copy exists (in the receiver).
    {
        let mut client = boot_with_frame::<8>();
        let mut server = CSpace::<8>::new(ZeroLog::new());
        grant(
            &mut client,
            1,
            &mut server,
            2,
            Rights::read(),
            0,
            GrantMode::Move,
        )
        .unwrap();
        client.revoke(0).unwrap();
        assert!(
            server.resolve(2).is_ok(),
            "granted cap survives a post-grant source revoke"
        );
        assert_eq!(client.resolve(1), Err(CapError::EmptySlot));
    }
}
