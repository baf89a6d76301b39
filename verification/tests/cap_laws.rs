//! What holds of capability spaces, on given values.

use praesidium::cap::cap::{CapType, Endpoint, Frame, Notification, RawCap, Reply, Sched};
use praesidium::cap::cspace::{
    default_rights, grant, is_retypeable, CSpace, CapError, GrantMode,
};
use praesidium::cap::rights::{Rights, ALL_BITS};
use praesidium::cap::sched::Budget;
use praesidium::cap::zero::ZeroLog;

fn space<const N: usize>() -> CSpace<N> {
    CSpace::<N>::new(ZeroLog::new())
}

fn with_untyped<const N: usize>(base: u64, frames: u32) -> CSpace<N> {
    let mut cs = space::<N>();
    cs.set_root_untyped(base, frames);
    cs
}

#[test]
fn rights_have_the_bits_of_the_model() {
    assert_eq!(Rights::empty().bits(), 0);
    assert_eq!(Rights::read().bits(), 1);
    assert_eq!(Rights::write().bits(), 2);
    assert_eq!(Rights::execute().bits(), 4);
    assert_eq!(Rights::map().bits(), 8);
    assert_eq!(Rights::grant().bits(), 0x10);
    assert_eq!(Rights::retype().bits(), 0x20);
    assert_eq!(Rights::send().bits(), 0x40);
    assert_eq!(Rights::recv().bits(), 0x80);
    assert_eq!(Rights::signal().bits(), 0x100);
    assert_eq!(Rights::derive().bits(), 0x200);
    assert_eq!(Rights::enter().bits(), 0x400);
    assert_eq!(Rights::wait().bits(), 0x800);
    assert_eq!(Rights::all().bits(), ALL_BITS);
}

#[test]
fn rights_are_read_from_known_bits_only() {
    assert_eq!(Rights::from_bits(3), Some(Rights::read() | Rights::write()));
    assert_eq!(Rights::from_bits(ALL_BITS), Some(Rights::all()));
    assert_eq!(Rights::from_bits(ALL_BITS + 1), None);
    assert!(Rights::all().contains(Rights::grant()));
    assert!(!Rights::read().contains(Rights::read() | Rights::write()));
    assert!(Rights::read().subset_of(Rights::read() | Rights::write()));
    assert!(!Rights::execute().subset_of(Rights::read() | Rights::write()));
}

#[test]
fn a_null_capability_is_empty() {
    let c = RawCap::null();
    assert!(c.is_null());
    assert_eq!(c.cap_type, CapType::Null);
    assert_eq!((c.objref, c.size, c.watermark, c.aux, c.badge), (0, 0, 0, 0, 0));
}

#[test]
fn frames_start_without_execute() {
    let r = default_rights(CapType::Frame);
    assert!(r.contains(Rights::read() | Rights::write() | Rights::map() | Rights::grant()));
    assert!(!r.contains(Rights::execute()));
}

#[test]
fn only_objects_with_frames_are_retyped() {
    for t in [CapType::Frame, CapType::CNode, CapType::Endpoint, CapType::Notification] {
        assert!(is_retypeable(t));
    }
    for t in [CapType::Null, CapType::Untyped, CapType::Sched, CapType::Reply] {
        assert!(!is_retypeable(t));
    }
}

#[test]
fn retyped_objects_follow_each_other_and_are_cleared() {
    let mut cs = with_untyped::<16>(100, 32);
    cs.retype(0, CapType::Frame, 4, 3, 1).unwrap();
    cs.retype(0, CapType::Endpoint, 1, 2, 4).unwrap();
    let at: Vec<(u64, u32)> = (1..6).map(|s| {
        let c = cs.resolve(s).unwrap();
        (c.objref, c.size)
    }).collect();
    assert_eq!(at, vec![(100, 4), (104, 4), (108, 4), (112, 1), (113, 1)]);
    assert_eq!(cs.resolve(0).unwrap().watermark, 14);
    assert_eq!(
        cs.zero_hook().ranges(),
        &vec![(100, 4), (104, 4), (108, 4), (112, 1), (113, 1)]
    );
}

#[test]
fn retype_reports_each_refusal() {
    let mut cs = with_untyped::<4>(0, 8);
    assert_eq!(cs.retype(9, CapType::Frame, 1, 1, 1), Err(CapError::OutOfBounds));
    assert_eq!(cs.retype(2, CapType::Frame, 1, 1, 1), Err(CapError::EmptySlot));
    assert_eq!(cs.retype(0, CapType::Frame, 1, 9, 1), Err(CapError::OutOfBudget));
    assert_eq!(cs.retype(0, CapType::Frame, u32::MAX, u32::MAX, 1), Err(CapError::OutOfBudget));
    assert_eq!(cs.retype(0, CapType::Frame, 1, 4, 1), Err(CapError::OutOfBounds));
    assert_eq!(cs.retype(0, CapType::Frame, 1, 1, 0), Err(CapError::SlotOccupied));
    assert_eq!(cs.zero_hook().ranges().len(), 0);
}

#[test]
fn mint_reports_each_refusal() {
    let mut cs = with_untyped::<8>(0, 8);
    cs.retype(0, CapType::Frame, 1, 1, 1).unwrap();
    cs.mint(1, 2, Rights::read(), 0).unwrap();
    assert_eq!(cs.mint(7, 3, Rights::read(), 0), Err(CapError::EmptySlot));
    assert_eq!(cs.mint(8, 3, Rights::read(), 0), Err(CapError::OutOfBounds));
    assert_eq!(cs.mint(1, 8, Rights::read(), 0), Err(CapError::OutOfBounds));
    assert_eq!(cs.mint(1, 2, Rights::read(), 0), Err(CapError::SlotOccupied));
    // What was minted without DERIVE cannot be derived from.
    assert_eq!(cs.mint(2, 3, Rights::read(), 0), Err(CapError::InsufficientRights));
    assert_eq!(cs.copy(2, 3), Err(CapError::InsufficientRights));
}

#[test]
fn a_copy_goes_with_the_parent_of_its_source() {
    let mut cs = with_untyped::<8>(0, 8);
    cs.retype(0, CapType::Frame, 1, 1, 1).unwrap();
    cs.copy(1, 2).unwrap();
    // A copy is no descendant of its source.
    cs.revoke(1).unwrap();
    assert!(cs.resolve(2).is_ok());
    cs.revoke(0).unwrap();
    assert_eq!(cs.resolve(1), Err(CapError::EmptySlot));
    assert_eq!(cs.resolve(2), Err(CapError::EmptySlot));
}

#[test]
fn moving_keeps_descendants_and_authority() {
    let mut cs = with_untyped::<8>(0, 8);
    cs.retype(0, CapType::Frame, 1, 1, 1).unwrap();
    cs.mint(1, 2, Rights::read(), 7).unwrap();
    let before = cs.resolve(1).unwrap();
    cs.move_cap(1, 5).unwrap();
    assert_eq!(cs.resolve(5), Ok(before));
    // The minted capability is still revoked with it.
    cs.revoke(5).unwrap();
    assert_eq!(cs.resolve(2), Err(CapError::EmptySlot));
    assert_eq!(cs.move_cap(1, 3), Err(CapError::EmptySlot));
    assert_eq!(cs.move_cap(5, 0), Err(CapError::SlotOccupied));
    assert_eq!(cs.move_cap(5, 8), Err(CapError::OutOfBounds));
}

#[test]
fn the_last_capability_to_a_frame_clears_it() {
    let mut cs = with_untyped::<8>(40, 8);
    cs.retype(0, CapType::Frame, 2, 1, 1).unwrap();
    cs.copy(1, 2).unwrap();
    cs.delete(1).unwrap();
    assert_eq!(cs.zero_hook().ranges(), &vec![(40, 2)]);
    cs.delete(2).unwrap();
    assert_eq!(cs.zero_hook().ranges(), &vec![(40, 2), (40, 2)]);
    assert_eq!(cs.delete(2), Err(CapError::EmptySlot));
    assert_eq!(cs.delete(8), Err(CapError::OutOfBounds));
}

#[test]
fn a_split_off_sched_has_an_identity_of_its_own() {
    let mut cs = space::<8>();
    cs.set_root_sched(0, 100, 10);
    cs.split(0, 1, 10).unwrap();
    cs.split(0, 2, 10).unwrap();
    let ids: Vec<u64> = (0..3).map(|s| cs.resolve(s).unwrap().objref).collect();
    assert_ne!(ids[0], ids[1]);
    assert_ne!(ids[1], ids[2]);
    assert_ne!(ids[0], ids[2]);
    assert_eq!(cs.split(0, 3, 0), Err(CapError::OutOfBudget));
    assert_eq!(cs.split(3, 4, 1), Err(CapError::EmptySlot));
    assert_eq!(cs.delegate(0, 5, 1), Err(CapError::EmptySlot));
}

#[test]
fn identities_of_scheds_are_never_used_again() {
    let mut cs = space::<8>();
    cs.set_root_sched(0, 100, 10);
    cs.split(0, 1, 10).unwrap();
    let gone = cs.resolve(1).unwrap().objref;
    cs.delete(1).unwrap();
    cs.install_sched(1, 5, 5, Rights::derive());
    cs.split(1, 2, 1).unwrap();
    let mut ids: Vec<u64> = (0..3).map(|s| cs.resolve(s).unwrap().objref).collect();
    ids.push(gone);
    ids.sort();
    ids.dedup();
    assert_eq!(ids.len(), 4);
    // What is split off another root is destroyed, and the first root is not.
    cs.revoke(1).unwrap();
    assert!(cs.resolve(0).is_ok() && cs.resolve(1).is_ok());
    assert_eq!(cs.resolve(2), Err(CapError::EmptySlot));
}

#[test]
fn frames_are_not_retyped_again_after_their_capabilities_go() {
    let mut cs = with_untyped::<16>(100, 32);
    cs.retype(0, CapType::Frame, 4, 2, 1).unwrap();
    cs.mint(1, 3, Rights::read(), 7).unwrap();
    cs.revoke(1).unwrap();
    cs.delete(1).unwrap();
    cs.delete(2).unwrap();
    cs.retype(0, CapType::Frame, 2, 2, 1).unwrap();
    let at: Vec<u64> = (1..3).map(|s| cs.resolve(s).unwrap().objref).collect();
    assert_eq!(at, vec![108, 110]);
    assert_eq!(cs.resolve(0).unwrap().watermark, 12);
    // Revoking the Untyped itself gives the frames back.
    cs.revoke(0).unwrap();
    cs.retype(0, CapType::Frame, 1, 1, 5).unwrap();
    assert_eq!(cs.resolve(5).unwrap().objref, 100);
}

#[test]
fn deleting_a_sched_gives_its_time_back() {
    let mut cs = space::<8>();
    cs.set_root_sched(0, 100, 10);
    cs.split(0, 1, 60).unwrap();
    cs.split(1, 2, 25).unwrap();
    cs.delete(1).unwrap();
    let total: u32 = (0..8)
        .filter_map(|s| cs.resolve(s).ok())
        .map(|c| Budget::from_cap(&c).capacity)
        .sum();
    assert_eq!(total, 100);
}

#[test]
fn an_endpoint_is_no_sched() {
    let mut cs = with_untyped::<8>(0, 8);
    cs.retype(0, CapType::Endpoint, 1, 1, 1).unwrap();
    assert_eq!(cs.split(1, 2, 1), Err(CapError::WrongType));
    assert_eq!(cs.delegate(1, 0, 1), Err(CapError::WrongType));
    assert_eq!(cs.delegate(7, 7, 1), Ok(()));
    assert_eq!(cs.consume_reply(1), Err(CapError::WrongType));
    assert_eq!(cs.get::<Frame>(1).err(), Some(CapError::WrongType));
    assert_eq!(cs.get::<Endpoint>(1).unwrap().rights(), default_rights(CapType::Endpoint));
}

#[test]
fn replies_are_minted_once_per_slot() {
    let mut cs = space::<4>();
    cs.mint_reply(2, 9, 4).unwrap();
    assert_eq!(cs.mint_reply(2, 9, 4), Err(CapError::SlotOccupied));
    assert_eq!(cs.mint_reply(4, 9, 4), Err(CapError::OutOfBounds));
    let r = cs.get::<Reply>(2).unwrap();
    assert_eq!((r.objref(), r.badge()), (9, 4));
    assert_eq!(cs.consume_reply(4), Err(CapError::OutOfBounds));
}

#[test]
fn installed_capabilities_are_what_they_say() {
    let mut cs = space::<8>();
    cs.install_frame(1, 77, 2, Rights::read() | Rights::write());
    cs.install_shared_ro(2, 78, 1, 0x4070_0000);
    cs.install_notification(3, 5, Rights::wait());
    cs.install_sched(4, 30, 10, Rights::grant());
    cs.set_root_domain(5, 0xD0);
    let f = cs.get::<Frame>(1).unwrap().to_raw();
    assert_eq!((f.objref, f.size, f.rights.bits()), (77, 2, 3));
    let s = cs.resolve(2).unwrap();
    assert_eq!((s.cap_type, s.rights, s.objref, s.aux), (CapType::SharedRo, Rights::read(), 78, 0x4_0700));
    let n = cs.get::<Notification>(3).unwrap();
    assert_eq!((n.objref(), n.rights()), (5, Rights::wait()));
    let b = cs.get::<Sched>(4).unwrap().to_raw();
    assert_eq!(Budget::from_cap(&b), Budget::new(30, 10));
    assert_eq!(cs.enter_domain(5), Ok(0xD0));
    assert_eq!(cs.resolve(5).unwrap().rights, Rights::enter());
    assert_eq!(cs.enter_domain(1), Err(CapError::WrongType));
    assert_eq!(cs.enter_domain(0), Err(CapError::EmptySlot));
    assert_eq!(cs.enter_domain(9), Err(CapError::OutOfBounds));
}

#[test]
fn a_granted_copy_is_narrower_and_keeps_the_object() {
    let mut a = with_untyped::<8>(5, 8);
    a.retype(0, CapType::Frame, 1, 1, 1).unwrap();
    let mut b = space::<4>();
    assert_eq!(grant(&mut a, 1, &mut b, 4, Rights::read(), 0, GrantMode::Mint), Err(CapError::OutOfBounds));
    assert_eq!(grant(&mut a, 9, &mut b, 1, Rights::read(), 0, GrantMode::Mint), Err(CapError::OutOfBounds));
    grant(&mut a, 1, &mut b, 1, Rights::read(), 3, GrantMode::Mint).unwrap();
    let c = b.resolve(1).unwrap();
    assert_eq!((c.objref, c.rights, c.badge), (5, Rights::read(), 3));
    // Without GRANT it goes no further.
    let mut d = space::<4>();
    assert_eq!(
        grant(&mut b, 1, &mut d, 1, Rights::read(), 0, GrantMode::Mint),
        Err(CapError::InsufficientRights)
    );
}

#[test]
fn unique_capabilities_are_granted_by_moving_only() {
    let mut a = space::<4>();
    a.install_sched(0, 50, 10, Rights::grant() | Rights::derive());
    let mut b = space::<4>();
    assert_eq!(
        grant(&mut a, 0, &mut b, 1, Rights::derive(), 0, GrantMode::Mint),
        Err(CapError::InsufficientRights)
    );
    grant(&mut a, 0, &mut b, 1, Rights::derive(), 0, GrantMode::Move).unwrap();
    assert_eq!(a.resolve(0), Err(CapError::EmptySlot));
    assert_eq!(Budget::from_cap(&b.resolve(1).unwrap()).capacity, 50);
}

#[test]
fn revocation_clears_the_lowest_leaves_first() {
    let mut cs = with_untyped::<8>(100, 4);
    cs.retype(0, CapType::Frame, 1, 2, 1).unwrap();
    cs.mint(1, 3, Rights::read(), 0).unwrap();
    assert_eq!(cs.zero_hook().ranges(), &vec![(100, 1), (101, 1)]);
    cs.revoke(0).unwrap();
    assert_eq!(cs.zero_hook().ranges(), &vec![(100, 1), (101, 1), (101, 1), (100, 1)]);
}
