//! System calls of processes, loading, and what processes share.

use praesidium::abi::encode::{encode, encoded_len, ManifestSpec, SegmentSpec};
use praesidium::abi::invoke::{op, Invocation, InvokeError};
use praesidium::abi::pex::{
    PexError, ARCH_X86_64, MANIFEST_ENDPOINT, MANIFEST_FRAME, MANIFEST_SCHED, PERM_R, PERM_W, PERM_X,
};
use praesidium::cap::cap::CapType;
use praesidium::cap::cspace::{CSpace, CapError};
use praesidium::cap::rights::Rights;
use praesidium::cap::sched::Budget;
use praesidium::cap::zero::ZeroLog;
use praesidium::kernel::arch::Prot;
use praesidium::kernel::loader::demo::loader_authority;
use praesidium::kernel::loader::{
    load, load_from, occupied_slots, perm_to_prot, LoadError, Loaded, SegmentMap, L_ENDPOINT,
    L_SCHED, L_SCRATCH, LOADER_SLOTS, PROCESS_SLOTS,
};
use praesidium::kernel::user::{
    blob_cspace, fault, hostile_state, is_read_only, notify_has_waiter, notify_signal, pair_state,
    prepare_waiter, share_region, signal_once, syscall, take_call, take_reply, take_signal,
    waiter_state, Action, Channels, Process, Refusal, RunFailure, RunState, EP_BADGE, EP_SLOT, KILLED,
    NOTIF_SLOT, REPLY_SLOT, SHARED_SLOT, SHARED_VA,
};

fn log() -> ZeroLog {
    ZeroLog::new()
}

fn caller() -> Process<ZeroLog> {
    Process::new(blob_cspace(0x900, log(), log()).unwrap())
}

/// A process that may receive at its endpoint.
fn receiver() -> Process<ZeroLog> {
    let mut cs = CSpace::<PROCESS_SLOTS>::new(log());
    cs.set_root_untyped(0x900, 1);
    cs.retype(0, CapType::Endpoint, 1, 1, EP_SLOT).unwrap();
    Process::new(cs)
}

fn inv(cptr: usize, o: u16, word: u64) -> Invocation {
    let mut i = Invocation::new(cptr as u32, o);
    i.args[0] = word;
    i
}

#[test]
fn a_call_is_received_and_answered_once() {
    let (mut a, mut b, mut c) = (caller(), receiver(), Channels::new());
    assert_eq!(syscall(&mut a, 0, &mut c, &inv(EP_SLOT, op::ENDPOINT_CALL, 42)), Action::AwaitReply);
    assert_eq!(take_reply(&mut c), None);
    assert_eq!(syscall(&mut b, 1, &mut c, &inv(EP_SLOT, op::ENDPOINT_RECV, 0)), Action::AwaitCall);
    assert_eq!(take_call(&mut b, &mut c), Some(Action::Return(42)));
    assert_eq!(take_call(&mut b, &mut c), None);
    let r = b.cspace.resolve(REPLY_SLOT).unwrap();
    assert_eq!((r.cap_type, r.objref), (CapType::Reply, 0));
    assert_eq!(syscall(&mut b, 1, &mut c, &inv(REPLY_SLOT, op::ENDPOINT_REPLY, 43)), Action::Return(0));
    assert_eq!(take_reply(&mut c), Some(43));
    assert_eq!(take_reply(&mut c), None);
    // The second answer kills.
    assert_eq!(
        syscall(&mut b, 1, &mut c, &inv(REPLY_SLOT, op::ENDPOINT_REPLY, 44)),
        Action::Kill(Refusal::Cap(CapError::EmptySlot))
    );
    assert!(b.was_killed() && !b.exited_cleanly());
    assert_eq!(take_reply(&mut c), None);
}

#[test]
fn a_receiver_without_a_free_reply_slot_is_killed() {
    let (mut a, mut b, mut c) = (caller(), receiver(), Channels::new());
    b.cspace.install_notification(REPLY_SLOT, 1, Rights::wait());
    syscall(&mut a, 0, &mut c, &inv(EP_SLOT, op::ENDPOINT_CALL, 42));
    assert_eq!(take_call(&mut b, &mut c), Some(Action::Kill(Refusal::Cap(CapError::SlotOccupied))));
    assert_eq!(b.exit, KILLED);
}

#[test]
fn what_is_not_held_is_refused_and_kills() {
    let (mut a, mut c) = (caller(), Channels::new());
    let before = c;
    assert_eq!(
        syscall(&mut a, 0, &mut c, &inv(EP_SLOT, op::ENDPOINT_RECV, 0)),
        Action::Kill(Refusal::Invoke(InvokeError::InsufficientRights))
    );
    assert!(a.done);
    assert_eq!((a.exit, c), (KILLED, before));
    let mut a = caller();
    assert_eq!(
        syscall(&mut a, 0, &mut c, &inv(2, op::DEBUG_EMIT, 0)),
        Action::Kill(Refusal::Invoke(InvokeError::EmptySlot))
    );
    let mut a = caller();
    assert_eq!(
        syscall(&mut a, 0, &mut c, &inv(PROCESS_SLOTS, op::PROC_EXIT, 0)),
        Action::Kill(Refusal::Invoke(InvokeError::BadCptr))
    );
}

#[test]
fn a_process_speaks_and_ends() {
    let (mut a, mut c) = (caller(), Channels::new());
    assert_eq!(syscall(&mut a, 0, &mut c, &inv(EP_SLOT, op::DEBUG_EMIT, 7)), Action::Emit(7));
    assert_eq!(syscall(&mut a, 0, &mut c, &inv(EP_SLOT, op::ENDPOINT_SEND, 7)), Action::Return(EP_BADGE));
    assert!(!a.done);
    assert_eq!(syscall(&mut a, 0, &mut c, &inv(EP_SLOT, op::PROC_EXIT, 0)), Action::Exit(0));
    assert!(a.exited_cleanly());
    let mut b = caller();
    assert_eq!(fault(&mut b), Action::Exit(KILLED));
    assert!(b.was_killed());
    b.retire(3);
    assert!(b.done && !b.was_killed() && !b.exited_cleanly());
}

#[test]
fn runs_are_judged_when_they_end() {
    let (mut a, mut b) = (caller(), caller());
    assert_eq!(pair_state(&a, &b), RunState::Running);
    a.retire(0);
    assert_eq!(pair_state(&a, &b), RunState::Running);
    assert_eq!(hostile_state(&b), RunState::Running);
    assert_eq!(waiter_state(&b, true), RunState::Running);
    b.retire(0);
    assert_eq!(pair_state(&a, &b), RunState::Passed);
    assert_eq!(hostile_state(&b), RunState::Failed(RunFailure::Breach));
    assert_eq!(waiter_state(&b, true), RunState::Passed);
    assert_eq!(waiter_state(&b, false), RunState::Failed(RunFailure::NeverWaited));
    b.retire(KILLED);
    assert_eq!(pair_state(&a, &b), RunState::Failed(RunFailure::NotClean));
    assert_eq!(hostile_state(&b), RunState::Passed);
    assert_eq!(waiter_state(&b, true), RunState::Failed(RunFailure::NotClean));
}

#[test]
fn a_waiter_sleeps_until_it_is_woken() {
    let (mut a, mut c) = (caller(), Channels::new());
    notify_signal(&mut c);
    prepare_waiter(&mut a, &mut c);
    assert!(!notify_has_waiter(&c));
    assert!(!signal_once(&mut c, false));
    assert_eq!(syscall(&mut a, 2, &mut c, &inv(NOTIF_SLOT, op::NOTIFY_WAIT, 0)), Action::AwaitSignal);
    assert!(!take_signal(&mut c));
    assert!(notify_has_waiter(&c));
    assert!(signal_once(&mut c, false));
    assert!(take_signal(&mut c));
    assert!(!take_signal(&mut c));
    assert!(!notify_has_waiter(&c));
    assert!(signal_once(&mut c, true));
    assert!(!c.notify.signaled);
    // It may wait for the notification, not raise it.
    assert_eq!(
        syscall(&mut a, 2, &mut c, &inv(NOTIF_SLOT, op::NOTIFY_SIGNAL, 0)),
        Action::Kill(Refusal::Invoke(InvokeError::InsufficientRights))
    );
}

#[test]
fn a_signal_before_the_wait_is_not_lost() {
    let (mut a, mut c) = (caller(), Channels::new());
    a.cspace.install_notification(NOTIF_SLOT, 9, Rights::signal());
    assert_eq!(syscall(&mut a, 2, &mut c, &inv(NOTIF_SLOT, op::NOTIFY_SIGNAL, 0)), Action::Return(0));
    assert!(take_signal(&mut c));
}

#[test]
fn the_shared_region_is_written_by_one_and_read_by_the_other() {
    let (mut a, mut b, mut c) = (caller(), caller(), Channels::new());
    share_region(&mut a, &mut b, 0x123);
    let owner = a.cspace.resolve(SHARED_SLOT).unwrap();
    assert_eq!((owner.cap_type, owner.rights.bits(), owner.objref), (CapType::Frame, 3, 0x123));
    assert_eq!(
        syscall(&mut b, 1, &mut c, &inv(SHARED_SLOT, op::SHARED_QUERY, 0)),
        Action::Return(SHARED_VA)
    );
    assert!(is_read_only(Some((false, false))) && is_read_only(Some((false, true))));
    assert!(!is_read_only(Some((true, false))) && !is_read_only(None));
}

// ---- loading ----

struct Case {
    loader: CSpace<LOADER_SLOTS>,
    process: CSpace<PROCESS_SLOTS>,
    maps: Vec<SegmentMap>,
}

fn case() -> Case {
    Case {
        loader: loader_authority(0x400, log()).unwrap(),
        process: CSpace::new(log()),
        maps: Vec::new(),
    }
}

fn seg(vaddr: u64, pages: u64, perm: u8) -> SegmentSpec<'static> {
    SegmentSpec { vaddr, mem_size: pages * 4096, perm, data: &[] }
}

fn man(cap_type: u8, dest_slot: u16, rights: u32, param0: u64) -> ManifestSpec {
    ManifestSpec { cap_type, dest_slot, rights, param0, param1: 0 }
}

fn try_load(c: &mut Case, segs: &[SegmentSpec], man: &[ManifestSpec]) -> Result<Loaded, LoadError> {
    let mut b = vec![0u8; encoded_len(segs, man).unwrap()];
    encode(ARCH_X86_64, segs[0].vaddr, segs, man, &mut b).unwrap();
    load(&b, ARCH_X86_64, &mut c.loader, &mut c.process, 3, &mut c.maps)
}

const CODE: u64 = 0x4000_0000;

#[test]
fn a_process_gets_exactly_its_manifest() {
    let mut c = case();
    let l = try_load(
        &mut c,
        &[seg(CODE, 2, PERM_R | PERM_X), seg(CODE + 0x2000, 1, PERM_R | PERM_W)],
        &[man(MANIFEST_SCHED, 1, 0x200, 60), man(MANIFEST_ENDPOINT, 2, 0x40, 9), man(MANIFEST_FRAME, 4, 1, 1)],
    ).unwrap_or_else(|e| panic!("{:?}", e));
    assert_eq!((l.entry, l.budget, l.domain_id), (CODE, 60, 3));
    assert_eq!(occupied_slots(&c.process), 3);
    assert_eq!(Budget::from_cap(&c.process.resolve(1).unwrap()).capacity, 60);
    assert_eq!(Budget::from_cap(&c.loader.resolve(L_SCHED).unwrap()).capacity, 940);
    assert_eq!(c.process.resolve(2).unwrap().badge, 9);
    let f = c.process.resolve(4).unwrap();
    assert_eq!((f.objref, f.rights), (u64::from(c.maps[1].pfn), Rights::read()));
    assert_eq!(c.maps, vec![
        SegmentMap { index: 0, vaddr: CODE, pfn: 0x401, pages: 2, prot: Prot::Rx },
        SegmentMap { index: 1, vaddr: CODE + 0x2000, pfn: 0x403, pages: 1, prot: Prot::Rw },
    ]);
}

#[test]
fn processes_of_one_authority_share_its_endpoint() {
    let mut loader: CSpace<LOADER_SLOTS> = loader_authority(0x400, log()).unwrap();
    let mut scratch = L_SCRATCH;
    let segs = [seg(CODE, 1, PERM_R | PERM_X)];
    let caps = [man(MANIFEST_ENDPOINT, 2, 0x40, 9), man(MANIFEST_SCHED, 1, 0x200, 60)];
    let mut image = vec![0u8; encoded_len(&segs, &caps).unwrap()];
    encode(ARCH_X86_64, CODE, &segs, &caps, &mut image).unwrap();
    let mut objects = Vec::new();
    let mut maps = Vec::new();
    for domain in [1, 2] {
        let mut process: CSpace<PROCESS_SLOTS> = CSpace::new(log());
        let l = load_from(&image, ARCH_X86_64, &mut loader, &mut process, domain, &mut maps, &mut scratch)
            .unwrap_or_else(|e| panic!("{:?}", e));
        assert_eq!((l.domain_id, l.budget), (domain, 60));
        objects.push(process.resolve(2).unwrap().objref);
    }
    let shared = loader.resolve(L_ENDPOINT).unwrap().objref;
    assert_eq!(objects, vec![shared, shared]);
    assert_eq!(maps.iter().map(|m| m.pfn).collect::<Vec<_>>(), vec![0x401, 0x402]);
    assert_eq!(Budget::from_cap(&loader.resolve(L_SCHED).unwrap()).capacity, 880);
    // From the first scratch slot again: it is in use.
    let mut process: CSpace<PROCESS_SLOTS> = CSpace::new(log());
    let again = load(&image, ARCH_X86_64, &mut loader, &mut process, 3, &mut maps);
    assert_eq!(again.err(), Some(LoadError::Cap(CapError::SlotOccupied)));
}

fn refused(segs: &[SegmentSpec], man: &[ManifestSpec]) -> LoadError {
    match try_load(&mut case(), segs, man) {
        Ok(_) => panic!("loaded"),
        Err(e) => e,
    }
}

#[test]
fn each_defect_of_an_image_stops_the_load() {
    let code = seg(CODE, 1, PERM_R | PERM_X);
    assert_eq!(refused(&[seg(CODE, 1, PERM_R)], &[]), LoadError::Pex(PexError::EntryNotExecutable));
    assert_eq!(refused(&[seg(0x1000, 1, PERM_R | PERM_X)], &[]), LoadError::SegmentVaddrOutOfRange);
    assert_eq!(
        refused(&[seg(0x7fff_f000, 2, PERM_R | PERM_X)], &[]),
        LoadError::SegmentVaddrOutOfRange
    );
    assert_eq!(refused(&[seg(CODE, 64, PERM_R | PERM_X)], &[]), LoadError::Cap(CapError::OutOfBudget));
    let one = [code];
    assert_eq!(refused(&one, &[man(9, 1, 0, 0)]), LoadError::UnknownManifestType(9));
    assert_eq!(refused(&one, &[man(MANIFEST_SCHED, 16, 0, 1)]), LoadError::DestSlotOutOfRange);
    assert_eq!(refused(&one, &[man(MANIFEST_SCHED, 1, 0x1000, 1)]), LoadError::BadRights);
    assert_eq!(refused(&one, &[man(MANIFEST_FRAME, 1, 1, 1)]), LoadError::BadSegmentRef);
    assert_eq!(refused(&one, &[man(MANIFEST_FRAME, 1, 1, u64::MAX)]), LoadError::BadSegmentRef);
    assert_eq!(
        refused(&one, &[man(MANIFEST_SCHED, 1, 0x200, 1001)]),
        LoadError::Cap(CapError::OutOfBudget)
    );
    // Execute is no right of the loader's frames.
    assert_eq!(
        refused(&one, &[man(MANIFEST_FRAME, 1, 4, 0)]),
        LoadError::Cap(CapError::InsufficientRights)
    );
    assert_eq!(
        refused(&one, &[man(MANIFEST_ENDPOINT, 1, 0x40, 0), man(MANIFEST_ENDPOINT, 1, 0x40, 0)]),
        LoadError::Cap(CapError::SlotOccupied)
    );
}

#[test]
fn permissions_become_protections() {
    assert_eq!(perm_to_prot(PERM_R), Prot::Ro);
    assert_eq!(perm_to_prot(PERM_R | PERM_W), Prot::Rw);
    assert_eq!(perm_to_prot(PERM_R | PERM_X), Prot::Rx);
    assert_eq!(LoadError::from(PexError::BadMagic), LoadError::Pex(PexError::BadMagic));
    assert_eq!(LoadError::from(CapError::WrongType), LoadError::Cap(CapError::WrongType));
}
