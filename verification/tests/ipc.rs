//! Endpoints, messages and notifications.

use praesidium::ipc::endpoint::{EndpointState, RecvOutcome, SendOutcome};
use praesidium::ipc::message::{Message, MessageInfo, MsgError, MAX_CAPS, MSG_REGS};
use praesidium::ipc::notification::{NotificationState, SignalOutcome, WaitOutcome};
use praesidium::ipc::PartyId;

const CLIENT: PartyId = 1;
const SERVER: PartyId = 2;

fn matched_send(o: SendOutcome) -> (PartyId, Message) {
    match o {
        SendOutcome::Delivered { receiver, msg } => (receiver, msg),
        SendOutcome::Queued => panic!("expected Delivered"),
    }
}
fn matched_recv(o: RecvOutcome) -> (PartyId, Message) {
    match o {
        RecvOutcome::Received { sender, msg } => (sender, msg),
        RecvOutcome::Queued => panic!("expected Received"),
    }
}

#[test]
fn recv_then_send_delivers_to_the_waiting_receiver() {
    let mut ep = EndpointState::new();
    assert!(matches!(ep.recv(SERVER), RecvOutcome::Queued));
    let (receiver, msg) = matched_send(ep.send(CLIENT, Message::with_data(7, &[42])));
    assert_eq!(receiver, SERVER);
    assert_eq!(msg.data(), &[42]);
    assert!(ep.is_idle(), "both sides matched, nothing left queued");
}

#[test]
fn send_then_recv_hands_the_message_to_the_receiver() {
    let mut ep = EndpointState::new();
    assert!(matches!(
        ep.send(CLIENT, Message::with_data(7, &[99])),
        SendOutcome::Queued
    ));
    let (sender, msg) = matched_recv(ep.recv(SERVER));
    assert_eq!(sender, CLIENT);
    assert_eq!(msg.data(), &[99]);
    assert!(ep.is_idle());
}

#[test]
fn senders_are_matched_fifo() {
    let mut ep = EndpointState::new();
    ep.send(10, Message::with_data(0, &[1]));
    ep.send(11, Message::with_data(0, &[2]));
    let (first, m1) = matched_recv(ep.recv(SERVER));
    let (second, m2) = matched_recv(ep.recv(SERVER));
    assert_eq!((first, m1.data()[0]), (10, 1));
    assert_eq!((second, m2.data()[0]), (11, 2));
}

#[test]
fn endpoint_cancel_removes_a_blocked_waiter() {
    // A blocked caller that is revoked/times-out is removed and never matched.
    let mut ep = EndpointState::new();
    ep.send(CLIENT, Message::empty(0));
    assert!(ep.cancel(CLIENT), "the queued sender was removed");
    assert!(!ep.cancel(CLIENT), "cancelling again removes nothing");
    // A later recv finds no sender (the cancelled call is gone) and queues instead.
    assert!(matches!(ep.recv(SERVER), RecvOutcome::Queued));
}

#[test]
fn encode_decode_roundtrips() {
    let mi = MessageInfo::new(0xABCD, 3, 1).unwrap();
    assert_eq!(MessageInfo::decode(mi.encode()), Ok(mi));
}

#[test]
fn decode_rejects_oversized_counts() {
    // A hostile word claiming 255 regs / 255 caps must be refused, not trusted.
    assert_eq!(MessageInfo::decode(0x00FF), Err(MsgError::TooManyRegs));
    assert_eq!(MessageInfo::decode(0xFF00), Err(MsgError::TooManyCaps));
    // Exactly at the limit is fine; one over is not.
    assert!(MessageInfo::decode(u64::from(MSG_REGS as u8)).is_ok());
    assert_eq!(
        MessageInfo::decode(u64::from(MSG_REGS as u8) + 1),
        Err(MsgError::TooManyRegs)
    );
}

#[test]
fn decode_is_total_and_panic_free() {
    // Sweep a range of hostile words: every one yields Ok(valid) or a clean Err — never panics
    // and never returns counts out of range (the fuzz target asserts this exhaustively).
    for w in 0u64..100_000 {
        match MessageInfo::decode(w.wrapping_mul(0x9E37_79B9_7F4A_7C15)) {
            Ok(mi) => {
                assert!(usize::from(mi.n_regs) <= MSG_REGS);
                assert!(usize::from(mi.n_caps) <= MAX_CAPS);
            }
            Err(_) => {}
        }
    }
}

#[test]
fn with_data_truncates_and_reports_length() {
    let m = Message::with_data(1, &[10, 20, 30, 40, 50, 60]); // 6 > MSG_REGS
    assert_eq!(m.info.n_regs as usize, MSG_REGS);
    assert_eq!(m.data(), &[10, 20, 30, 40]);
    assert!(m.transfers().is_empty());
}

#[test]
fn accessors_clamp_a_malformed_count() {
    // A Message whose info counts were set out of range (a hand-built / hostile descriptor
    // bypassing new()/decode) must not index past the fixed arrays — the accessors clamp.
    let mut m = Message::empty(0);
    m.info.n_regs = 250;
    m.info.n_caps = 99;
    assert_eq!(m.data().len(), MSG_REGS, "data clamps to the array size");
    assert_eq!(
        m.transfers().len(),
        MAX_CAPS,
        "transfers clamps to the array size"
    );
}

#[test]
fn wait_then_signal_wakes_the_waiter() {
    let mut n = NotificationState::new();
    assert!(matches!(n.wait(5), WaitOutcome::Queued));
    assert!(matches!(n.signal(), SignalOutcome::Woke(5)));
}

#[test]
fn signal_then_wait_is_ready_and_consumes_the_pending_bit() {
    let mut n = NotificationState::new();
    assert!(matches!(n.signal(), SignalOutcome::Latched));
    assert!(matches!(n.wait(5), WaitOutcome::Ready), "pending consumed");
    // The pending bit is one-shot: a second wait finds nothing and queues.
    assert!(matches!(n.wait(6), WaitOutcome::Queued));
}

#[test]
fn notification_cancel_removes_a_blocked_waiter() {
    let mut n = NotificationState::new();
    n.wait(9);
    assert!(n.cancel(9));
    assert!(!n.cancel(9));
    // Signalling now latches (the cancelled waiter is gone).
    assert!(matches!(n.signal(), SignalOutcome::Latched));
}
