//! The kernel's own decisions: dispatch, boot, scheduling, the checks at boot.

use praesidium::abi::invoke::{op, Invocation, InvokeError};
use praesidium::abi::pex::ARCH_X86_64;
use praesidium::cap::cap::CapType;
use praesidium::cap::cspace::{CSpace, CapError};
use praesidium::cap::rights::Rights;
use praesidium::cap::sched::Budget;
use praesidium::cap::zero::ZeroLog;
use praesidium::ipc::message::{CapXfer, Message};
use praesidium::kernel::arch::AddressSpace;
use praesidium::kernel::boot::{
    bounded_count, check_pointer, dump_row, is_aligned, kind_name, region_array, summarize, DumpRow,
    MemRegion, MemmapSummary, MemoryKind, PointerFault, RegionArray,
};
use praesidium::kernel::ipc::{
    authorize_endpoint, call, parties, recv, CallStep, EndpointRefusal, IpcWorld, RecvStep, CLIENT,
    CLIENT_EP, CLIENT_FRAME, SERVER, SERVER_EP, SERVER_RECV_BASE, SERVER_REPLY_SLOT,
};
use praesidium::kernel::isolation::verify_domain_entry_gating;
use praesidium::kernel::scheduler::{
    activate_space, bootstrap, current_proc_id, exit_current, guard_phys, kernel_stack_top, leave,
    on_tick, preempt, reap_finished, schedule, spawn, spawn_proc, yield_now, ReapedTask, Switch,
};
use praesidium::kernel::serial::{tx_step, Serial, TxStep, TX_SPIN_CAP};
use praesidium::kernel::syscall::invoke;
use praesidium::kernel::{cap, ipc, loader, sched};

const KERNEL: AddressSpace = AddressSpace { primary: 0x1000, secondary: 0 };

fn log() -> ZeroLog {
    ZeroLog::new()
}

// ---- dispatch ----

#[test]
fn an_invocation_needs_the_capability_and_the_right() {
    let mut cs = CSpace::<8>::new(log());
    cs.set_root_untyped(32, 8);
    cs.retype(0, CapType::Frame, 1, 1, 1).unwrap();
    cs.retype(0, CapType::Endpoint, 1, 1, 2).unwrap();
    cs.mint(2, 3, Rights::send(), 0xBADD).unwrap();
    cs.mint(1, 4, Rights::write(), 0).unwrap();
    cs.install_shared_ro(5, 9, 1, 0x4070_0000);
    let mut inv = Invocation::new(1, op::CAP_IDENTIFY);
    let identified = invoke(&cs, &inv).unwrap();
    assert_eq!(identified as u32, cs.resolve(1).unwrap().rights.bits());
    inv.op = op::FRAME_PROBE;
    assert_eq!(invoke(&cs, &inv), Ok(32));
    inv.cptr = 4;
    assert_eq!(invoke(&cs, &inv), Err(InvokeError::InsufficientRights));
    inv.cptr = 3;
    assert_eq!(invoke(&cs, &inv), Err(InvokeError::WrongType));
    inv.op = op::ENDPOINT_SEND;
    assert_eq!(invoke(&cs, &inv), Ok(0xBADD));
    inv.op = op::ENDPOINT_RECV;
    assert_eq!(invoke(&cs, &inv), Err(InvokeError::InsufficientRights));
    inv.op = op::DEBUG_EMIT;
    inv.args[0] = 77;
    assert_eq!(invoke(&cs, &inv), Ok(77));
    inv.cptr = 5;
    inv.op = op::SHARED_QUERY;
    assert_eq!(invoke(&cs, &inv), Ok(0x4070_0000));
    inv.op = 0x7fff;
    assert_eq!(invoke(&cs, &inv), Err(InvokeError::UnknownOp));
    inv.cptr = 6;
    assert_eq!(invoke(&cs, &inv), Err(InvokeError::EmptySlot));
    inv.cptr = 8;
    assert_eq!(invoke(&cs, &inv), Err(InvokeError::BadCptr));
}

#[test]
fn a_revoked_capability_answers_nothing() {
    let mut cs = CSpace::<8>::new(log());
    cs.set_root_untyped(0, 8);
    cs.retype(0, CapType::Endpoint, 1, 1, 2).unwrap();
    cs.mint(2, 3, Rights::send(), 1).unwrap();
    let inv = Invocation::new(3, op::ENDPOINT_SEND);
    assert_eq!(invoke(&cs, &inv), Ok(1));
    cs.revoke(2).unwrap();
    assert_eq!(invoke(&cs, &inv), Err(InvokeError::EmptySlot));
}

// ---- boot ----

fn region(base: u64, pages: u64, code: u32) -> MemRegion {
    MemRegion { base, pages, kind: MemoryKind { code } }
}

#[test]
fn kinds_have_names() {
    let want = [
        "USABLE", "RESERVED", "ACPI_RECLAIM", "ACPI_NVS", "MMIO", "BOOT_RECLAIM", "KERNEL+MODULES",
        "FRAMEBUFFER", "BAD_MEMORY", "UNKNOWN",
    ];
    for (code, name) in want.iter().enumerate() {
        assert_eq!(kind_name(MemoryKind { code: code as u32 }), *name);
    }
    assert_eq!(kind_name(MemoryKind { code: u32::MAX }), "UNKNOWN");
    assert_eq!(kind_name(MemoryKind::usable()), "USABLE");
}

#[test]
fn a_corrupt_count_is_cut_off() {
    assert_eq!(bounded_count(0), 0);
    assert_eq!(bounded_count(1024), 1024);
    assert_eq!(bounded_count(u64::MAX), 1024);
    assert_eq!(dump_row(31, 100), DumpRow::Region);
    assert_eq!(dump_row(32, 100), DumpRow::More(68));
    assert_eq!(dump_row(33, 100), DumpRow::Skip);
}

#[test]
fn pointers_are_checked_before_they_are_followed() {
    assert!(is_aligned(24, 8));
    assert!(!is_aligned(25, 8));
    assert_eq!(check_pointer(0, 8), Some(PointerFault::Null));
    assert_eq!(check_pointer(0x1004, 8), Some(PointerFault::Misaligned));
    assert_eq!(check_pointer(0x1008, 8), None);
    assert_eq!(region_array(0, 5, 0, 8), RegionArray::Empty);
    assert_eq!(region_array(0x1000, 0, 0, 8), RegionArray::Empty);
    assert_eq!(region_array(0x1004, 5, 0, 8), RegionArray::Misaligned);
    assert_eq!(
        region_array(0x1000, 5, 0xffff_8000_0000_0000, 8),
        RegionArray::At { virt: 0xffff_8000_0000_1000, walk: 5, truncated: false }
    );
    assert_eq!(
        region_array(0x1000, 1025, u64::MAX - 0xfff, 8),
        RegionArray::At { virt: 0, walk: 1024, truncated: true }
    );
}

#[test]
fn usable_memory_adds_up() {
    let map = [region(0, 256, 0), region(0x10_0000, 10, 1), region(0x20_0000, 512, 0)];
    assert_eq!(summarize(&map), MemmapSummary { usable_pages: 768, usable_mib: 3 });
    let huge = [region(0, u64::MAX, 0), region(0, 5, 0)];
    assert_eq!(
        summarize(&huge),
        MemmapSummary { usable_pages: u64::MAX, usable_mib: u64::MAX / 1048576 }
    );
}

// ---- scheduling ----

#[test]
fn tasks_take_turns() {
    let mut s = bootstrap(KERNEL);
    assert_eq!(schedule(&mut s, 0), None);
    assert_eq!(spawn(&mut s, 0x10_0000, Budget::new(2, 10), KERNEL), 1);
    let own = AddressSpace { primary: 0x9000, secondary: 0 };
    assert_eq!(spawn_proc(&mut s, 0x20_0000, Budget::new(1, 10), 7, 3, own), 2);
    assert_eq!(current_proc_id(&s), None);
    assert_eq!(
        yield_now(&mut s, 0x1000),
        Some(Switch { from: 0, to: 1, kernel_stack: Some(0x10_0000 + 0x1000 + 32768), domain: None, space: KERNEL })
    );
    assert_eq!(
        preempt(&mut s, 0),
        Some(Switch { from: 1, to: 2, kernel_stack: Some(0x20_0000 + 32768), domain: Some(3), space: own })
    );
    assert_eq!(current_proc_id(&s), Some(7));
    assert_eq!(kernel_stack_top(&s, 0, 0), None);
    // Its only unit is used up: it is passed over from now on.
    assert!(on_tick(&mut s));
    assert_eq!(schedule(&mut s, 0).unwrap().to, 0);
    assert_eq!(schedule(&mut s, 0).unwrap().to, 1);
    assert_eq!(schedule(&mut s, 0).unwrap().to, 0);
}

#[test]
fn nobody_is_picked_but_another_ready_task() {
    let mut s = bootstrap(KERNEL);
    assert_eq!(s.pick_next(), None);
    // A task without budget is not ready, and the running one is not picked for it.
    spawn(&mut s, 0x10_0000, Budget::new(0, 10), KERNEL);
    assert_eq!(s.pick_next(), None);
    assert_eq!(yield_now(&mut s, 0), None);
    assert_eq!(preempt(&mut s, 0), None);
    spawn(&mut s, 0x20_0000, Budget::new(1, 10), KERNEL);
    assert_eq!(s.pick_next(), Some(2));
    assert_eq!(yield_now(&mut s, 0).unwrap().to, 2);
    assert_eq!(s.pick_next(), Some(0));
}

#[test]
fn a_task_that_ends_is_reaped_once() {
    let mut s = bootstrap(KERNEL);
    let own = AddressSpace { primary: 0x9000, secondary: 0 };
    spawn_proc(&mut s, 0x20_0000, Budget::new(5, 5), 1, 1, own);
    assert_eq!(reap_finished(&mut s, 1), None);
    assert_eq!(schedule(&mut s, 0).unwrap().to, 1);
    assert_eq!(exit_current(&mut s, 0).unwrap().to, 0);
    assert_eq!(schedule(&mut s, 0), None);
    assert!(!on_tick(&mut s));
    assert_eq!(reap_finished(&mut s, 2), None);
    assert_eq!(reap_finished(&mut s, 1), Some(ReapedTask { block: Some(0x20_0000), space: own }));
    assert_eq!(reap_finished(&mut s, 1), None);
    assert_eq!(kernel_stack_top(&s, 1, 0), None);
}

#[test]
fn without_a_ready_task_there_is_nobody_to_go_on() {
    let mut s = bootstrap(KERNEL);
    assert_eq!(exit_current(&mut s, 0), None);
    assert_eq!(leave(&mut s, 0), None);
    spawn(&mut s, 0x10_0000, Budget::new(1, 1), KERNEL);
    assert_eq!(leave(&mut s, 0).unwrap().to, 1);
}

#[test]
fn the_guard_page_is_below_the_stack() {
    assert_eq!(guard_phys(0x10_0000), 0x10_0000 + 12288);
    let mut active = KERNEL;
    assert!(!activate_space(&mut active, KERNEL));
    let own = AddressSpace { primary: 0x1000, secondary: 5 };
    assert!(activate_space(&mut active, own));
    assert_eq!(active, own);
}

// ---- the console ----

#[test]
fn line_feeds_get_a_carriage_return() {
    assert_eq!(Serial.encode(b"a\nb\n"), b"a\r\nb\r\n".to_vec());
    assert_eq!(Serial.encode(b""), Vec::<u8>::new());
    assert_eq!(tx_step(true, 0), TxStep::Send);
    assert_eq!(tx_step(false, 0), TxStep::Wait);
    assert_eq!(tx_step(false, TX_SPIN_CAP - 2), TxStep::Wait);
    assert_eq!(tx_step(false, TX_SPIN_CAP - 1), TxStep::Drop);
    assert_eq!(tx_step(false, u32::MAX), TxStep::Drop);
}

// ---- the checks at boot ----

#[test]
fn the_capability_check_passes() {
    let (r, cs) = cap::run(0x500, log()).unwrap_or_else(|e| panic!("{:?}", e));
    assert_eq!(r.used, 4);
    assert_eq!(r.first_frame, 0x500);
    assert_eq!(r.badge, 0xF00D);
    assert_eq!(r.widened, Err(CapError::InsufficientRights));
    assert_eq!(r.survivors, 0);
    assert_eq!(r.revoked, Some(CapError::EmptySlot));
    assert_eq!(r.used_after, 0);
    let frames: Vec<u64> = cs.zero_hook().ranges().iter().map(|(frame, _)| *frame).collect();
    assert_eq!(frames, vec![0x500, 0x501, 0x502, 0x503, 0x502, 0x503, 0x500, 0x501]);
}

#[test]
fn the_scheduling_check_passes() {
    let (r, cs) = sched::demo_sched_caps(log()).unwrap();
    assert_eq!(r.after_split, (50, 30, 20));
    assert_eq!(r.after_delegate, (50, 20, 30));
    assert!(sched::conserved(r.after_split, 100) && sched::conserved(r.after_delegate, 100));
    assert!(!sched::conserved((u32::MAX, u32::MAX, 0), 100));
    assert!(!r.child_left);
    assert_eq!(r.reclaimed, 100);
    assert_eq!(sched::cap_units(&cs, 0), Ok(100));
    assert_eq!(sched::cap_units(&cs, 1), Err(CapError::EmptySlot));
    assert_eq!(cs.zero_hook().ranges().len(), 0);
}

#[test]
fn only_the_domain_capability_enters_a_domain() {
    let r = verify_domain_entry_gating(log());
    assert_eq!(r.with_domain, Ok(0xD0));
    assert_eq!(r.with_other, Err(CapError::WrongType));
    assert_eq!(r.with_nothing, Err(CapError::EmptySlot));
}

#[test]
fn the_round_trip_check_passes() {
    let (r, client, server) = ipc::run(0x800, log(), log()).unwrap_or_else(|e| panic!("{:?}", e));
    assert_eq!(r.response.data(), &[0x00C0_FFEF]);
    assert_eq!((r.granted.cap_type, r.granted.objref), (CapType::Frame, 0x800));
    assert_eq!(r.granted.rights, Rights::read());
    assert!(!r.client_holds);
    assert_eq!(r.second_reply, Err(CapError::EmptySlot));
    assert_eq!((r.client_left, r.server_left), (70, 0));
    assert_eq!(client.zero_hook().ranges(), &vec![(0x800, 1), (0x801, 1)]);
    assert_eq!(server.zero_hook().ranges().len(), 0);
    assert_eq!(client.resolve(0).unwrap().size, ipc::FRAMES);
}

#[test]
fn the_load_check_passes() {
    let (r, spaces) = loader::demo::run(ARCH_X86_64, 0x400, log(), log(), log())
        .unwrap_or_else(|e| panic!("{:?}", e));
    assert_eq!(spaces.authority.zero_hook().ranges(), &vec![(0x400, 1), (0x401, 1), (0x402, 1)]);
    assert_eq!(spaces.process.zero_hook().ranges().len(), 0);
    assert_eq!(loader::occupied_slots(&spaces.process), 4);
    assert_eq!(loader::occupied_slots(&spaces.other), 0);
    assert_eq!((r.loaded.entry, r.loaded.budget, r.loaded.domain_id), (0x4000_0000, 100, 0x50));
    assert_eq!(r.held, 4);
    assert_eq!(r.identified, Ok(loader::demo::FRAME_READ_ONLY));
    assert_eq!(loader::demo::FRAME_READ_ONLY, 0x2_0000_0001);
    assert_eq!(r.probed, Ok(0x401));
    assert_eq!(r.refused, Err(InvokeError::InsufficientRights));
    assert_eq!(r.sent, Ok(0xBADD));
    assert_eq!(r.wrong_type, Err(InvokeError::WrongType));
    assert_eq!(r.empty_slot, Err(InvokeError::EmptySlot));
    assert_eq!(r.bad_cptr, Err(InvokeError::BadCptr));
    assert_eq!(r.maps.len(), 2);
}

// ---- calls and replies between two parties ----

fn world() -> IpcWorld<ZeroLog> {
    let (client, server) = parties(0x800, log(), log()).unwrap();
    assert_eq!(authorize_endpoint(&client, CLIENT_EP, Rights::send()), Ok(()));
    assert_eq!(authorize_endpoint(&server, SERVER_EP, Rights::recv()), Ok(()));
    assert_eq!(
        authorize_endpoint(&server, SERVER_EP, Rights::grant()),
        Err(EndpointRefusal::NoRight)
    );
    assert_eq!(
        authorize_endpoint(&client, CLIENT_FRAME, Rights::read()),
        Err(EndpointRefusal::NoRight)
    );
    assert_eq!(
        authorize_endpoint(&server, 9, Rights::recv()),
        Err(EndpointRefusal::Cap(CapError::EmptySlot))
    );
    IpcWorld::new(client, server)
}

#[test]
fn a_waiting_receiver_is_woken_by_the_call() {
    let mut w = world();
    let mut r = recv(SERVER);
    assert!(matches!(w.poll_recv(&mut r), Ok(RecvStep::Pending)));
    let mut c = call(CLIENT, Message::with_data(1, &[5]));
    match w.poll_call(&mut c) {
        CallStep::Pending { wake } => assert_eq!(wake, Some(SERVER)),
        CallStep::Ready { .. } => panic!("nobody has answered"),
    }
    match w.poll_recv(&mut r) {
        Ok(RecvStep::Ready { request, reply_slot }) => {
            assert_eq!(request.data(), &[5]);
            assert_eq!(request.badge, CLIENT);
            assert_eq!(reply_slot, SERVER_REPLY_SLOT);
        }
        _ => panic!("the request is here"),
    }
    assert_eq!(w.do_reply(SERVER_REPLY_SLOT, Message::with_data(2, &[6])), Some(CLIENT));
    // The reply is used up.
    assert_eq!(w.do_reply(SERVER_REPLY_SLOT, Message::with_data(2, &[7])), None);
    match w.poll_call(&mut c) {
        CallStep::Ready { response } => assert_eq!(response.data(), &[6]),
        CallStep::Pending { .. } => panic!("the response is here"),
    }
}

#[test]
fn a_call_before_the_receiver_comes_waits_for_it() {
    let mut w = world();
    let mut c = call(CLIENT, Message::with_data(1, &[5]));
    match w.poll_call(&mut c) {
        CallStep::Pending { wake } => assert_eq!(wake, None),
        CallStep::Ready { .. } => panic!("nobody has answered"),
    }
    let mut r = recv(SERVER);
    assert!(matches!(w.poll_recv(&mut r), Ok(RecvStep::Ready { .. })));
}

#[test]
fn a_transfer_of_nothing_is_refused() {
    let mut w = world();
    let mut m = Message::empty(0);
    m.info.n_caps = 1;
    m.caps[0] = CapXfer { src: 9, ..CapXfer::none() };
    assert_eq!(w.on_request(CLIENT, m).err(), Some(CapError::EmptySlot));
    assert!(SERVER_RECV_BASE < SERVER_REPLY_SLOT);
}
