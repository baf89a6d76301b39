//! Bytes, images, messages and invocations, on given values.

use praesidium::abi::encode::{encode, encoded_len, ManifestSpec, SegmentSpec};
use praesidium::abi::invoke::{op, sys, Invocation, InvokeError};
use praesidium::abi::pex::{
    Pex, PexError, ARCH_AARCH64, ARCH_X86_64, HEADER_LEN, MANIFEST_ENDPOINT, MANIFEST_FRAME,
    MANIFEST_LEN, MAX_MANIFEST, MAX_SEGMENTS, MAX_SEGMENT_PAGES, PERM_R, PERM_W, PERM_X,
    SEGMENT_LEN,
};
use praesidium::bytes::{get_le, put_le};
use praesidium::cap::cspace::GrantMode;
use praesidium::cap::rights::Rights;
use praesidium::ipc::endpoint::{EndpointState, RecvOutcome, SendOutcome};
use praesidium::ipc::message::{CapXfer, Message, MessageInfo, MsgError, MAX_CAPS};
use praesidium::ipc::notification::{NotificationState, SignalOutcome, WaitOutcome};

#[test]
fn little_endian_words_read_back() {
    let mut b = vec![0xffu8; 12];
    put_le(&mut b, 2, 0x1122_3344_5566_7788, 8);
    assert_eq!(b, vec![0xff, 0xff, 0x88, 0x77, 0x66, 0x55, 0x44, 0x33, 0x22, 0x11, 0xff, 0xff]);
    assert_eq!(get_le(&b, 2, 8), 0x1122_3344_5566_7788);
    put_le(&mut b, 0, 0xabcd, 2);
    assert_eq!(get_le(&b, 0, 2), 0xabcd);
    assert_eq!(get_le(&b, 1, 1), 0xab);
}

fn image(segs: &[SegmentSpec], man: &[ManifestSpec], entry: u64) -> Vec<u8> {
    let mut buf = vec![0u8; encoded_len(segs, man).unwrap()];
    assert_eq!(encode(ARCH_AARCH64, entry, segs, man, &mut buf), Some(buf.len()));
    buf
}

#[test]
fn an_image_has_its_parts_one_behind_the_other() {
    let code = [1u8, 2, 3];
    let data = [4u8; 5];
    let segs = [
        SegmentSpec { vaddr: 0x1000, mem_size: 0x2000, perm: PERM_R | PERM_X, data: &code },
        SegmentSpec { vaddr: 0x4000, mem_size: 0x1000, perm: PERM_R | PERM_W, data: &data },
    ];
    let man = [
        ManifestSpec { cap_type: MANIFEST_FRAME, dest_slot: 3, rights: 1, param0: 1, param1: 0 },
        ManifestSpec { cap_type: MANIFEST_ENDPOINT, dest_slot: 2, rights: 0x40, param0: 9, param1: 8 },
    ];
    let b = image(&segs, &man, 0x1002);
    assert_eq!(b.len(), HEADER_LEN + 2 * SEGMENT_LEN + 2 * MANIFEST_LEN + 3 + 5);
    let p = Pex::parse(&b, ARCH_AARCH64).unwrap();
    assert_eq!((p.entry(), p.segment_count(), p.manifest_count()), (0x1002, 2, 2));
    assert_eq!(p.segment_data(0), &code);
    assert_eq!(p.segment_data(1), &data);
    let s = p.segment(1);
    assert_eq!((s.vaddr, s.mem_size, s.file_size), (0x4000, 0x1000, 5));
    assert!(s.is_write() && !s.is_exec());
    let m = p.manifest(1);
    assert_eq!((m.cap_type, m.dest_slot, m.rights, m.param0, m.param1), (MANIFEST_ENDPOINT, 2, 0x40, 9, 8));
    assert_eq!(Pex::parse(&b, ARCH_X86_64), Err(PexError::ArchMismatch));
}

#[test]
fn an_image_is_not_written_where_there_is_no_room() {
    let code = [1u8; 4];
    let segs = [SegmentSpec { vaddr: 0x1000, mem_size: 0x1000, perm: PERM_R | PERM_X, data: &code }];
    let n = encoded_len(&segs, &[]).unwrap();
    let mut small = vec![7u8; n - 1];
    assert_eq!(encode(ARCH_X86_64, 0x1000, &segs, &[], &mut small), None);
}

fn one_segment() -> Vec<u8> {
    let code = [0x90u8; 16];
    let segs = [SegmentSpec { vaddr: 0x1000, mem_size: 0x1000, perm: PERM_R | PERM_X, data: &code }];
    image(&segs, &[], 0x1000)
}

fn patched(at: usize, v: u64, n: usize) -> Result<(), PexError> {
    let mut b = one_segment();
    put_le(&mut b, at, v, n);
    Pex::parse(&b, ARCH_AARCH64).map(|_| ())
}

#[test]
fn each_defect_of_an_image_has_its_error() {
    assert_eq!(patched(48, 64, 4), Ok(()));
    // A segment that takes more of the file than of memory.
    assert_eq!(patched(48 + 4, 0x1001, 4), Err(PexError::BadMemSize));
    // A segment whose end is beyond the address space.
    assert_eq!(patched(48 + 8, 0xffff_ffff_ffff_f000, 8), Err(PexError::Unaligned));
    // One page too many.
    assert_eq!(patched(48 + 16, (MAX_SEGMENT_PAGES + 1) * 4096, 8), Err(PexError::SegmentTooLarge));
    assert_eq!(patched(48 + 16, 0x1001, 8), Err(PexError::Unaligned));
    // Undefined permissions.
    assert_eq!(patched(48 + 24, 8 | 1, 1), Err(PexError::BadPermission));
}

#[test]
fn images_hold_a_limited_number_of_parts() {
    let data = [0u8; 0];
    let segs: Vec<SegmentSpec> = (0..MAX_SEGMENTS + 1)
        .map(|i| SegmentSpec { vaddr: 0x1000 * (i as u64 + 1), mem_size: 0x1000, perm: PERM_R | PERM_X, data: &data })
        .collect();
    let man: Vec<ManifestSpec> = (0..MAX_MANIFEST + 1)
        .map(|_| ManifestSpec { cap_type: 1, dest_slot: 0, rights: 0, param0: 0, param1: 0 })
        .collect();
    assert_eq!(encoded_len(&segs, &man[..1]), None);
    assert_eq!(encoded_len(&segs[..1], &man), None);
    let b = image(&segs[..MAX_SEGMENTS], &man[..MAX_MANIFEST], 0x1000);
    assert!(Pex::parse(&b, ARCH_AARCH64).is_ok());
    // The header's counts and tables.
    assert_eq!(patched(24, MAX_SEGMENTS as u64 + 1, 2), Err(PexError::TooManyRecords));
    assert_eq!(patched(26, MAX_MANIFEST as u64 + 1, 2), Err(PexError::TooManyRecords));
    assert_eq!(patched(24, 16, 2), Err(PexError::TableOutOfBounds));
    assert_eq!(patched(20, 0xffff_ffff, 4), Err(PexError::TableOutOfBounds));
    assert_eq!(patched(36, 1 << 31, 4), Err(PexError::TableOutOfBounds));
    assert_eq!(patched(24, 0, 2), Err(PexError::EntryNotExecutable));
}

#[test]
fn whatever_parses_is_sound() {
    let base = one_segment();
    for at in 0..base.len() {
        for flip in [1u8, 0x80, 0xff] {
            let mut b = base.clone();
            b[at] ^= flip;
            if let Ok(p) = Pex::parse(&b, ARCH_AARCH64) {
                let mut entered = false;
                for i in 0..p.segment_count() {
                    let s = p.segment(i);
                    assert_eq!(p.segment_data(i).len(), s.file_size as usize);
                    assert!(!(s.is_write() && s.is_exec()));
                    assert!(u64::from(s.file_size) <= s.mem_size);
                    entered |= s.is_exec() && s.vaddr <= p.entry() && p.entry() < s.vaddr + s.mem_size;
                }
                assert!(entered);
            }
        }
    }
}

#[test]
fn operations_and_errors_have_fixed_numbers() {
    assert_eq!(sys::INVOKE, 0);
    assert_eq!(op::CAP_IDENTIFY, 1);
    assert_eq!(op::FRAME_PROBE, 2);
    assert_eq!(op::ENDPOINT_SEND, 3);
    assert_eq!(InvokeError::BadCptr.code(), 1);
    assert_eq!(InvokeError::EmptySlot.code(), 2);
    assert_eq!(InvokeError::WrongType.code(), 3);
    assert_eq!(InvokeError::InsufficientRights.code(), 4);
    assert_eq!(InvokeError::UnknownOp.code(), 5);
    let inv = Invocation::new(7, op::FRAME_PROBE);
    assert_eq!((inv.cptr, inv.op, inv.args), (7, op::FRAME_PROBE, [0; 4]));
}

#[test]
fn descriptors_pack_label_and_counts() {
    let mi = MessageInfo::new(0xABCD, 3, 1).unwrap();
    assert_eq!(mi.encode(), 0xABCD_0103);
    assert_eq!(MessageInfo::decode(0xABCD_0103), Ok(mi));
    assert_eq!(MessageInfo::new(0, 5, 0), Err(MsgError::TooManyRegs));
    assert_eq!(MessageInfo::new(0, 4, 3), Err(MsgError::TooManyCaps));
    assert_eq!(MessageInfo::new(0, 5, 3), Err(MsgError::TooManyRegs));
}

#[test]
fn messages_carry_words_and_transfers() {
    let x = CapXfer::none();
    assert_eq!((x.src, x.rights, x.mode), (0, Rights::empty(), GrantMode::Move));
    let mut m = Message::with_data(9, &[5, 6]);
    assert_eq!((m.info.label, m.info.n_regs, m.info.n_caps), (9, 2, 0));
    m.info.n_caps = 1;
    m.caps[0] = CapXfer { src: 4, rights: Rights::read(), mode: GrantMode::Move };
    assert_eq!(m.transfers(), &[CapXfer { src: 4, rights: Rights::read(), mode: GrantMode::Move }]);
    m.info.n_caps = 200;
    assert_eq!(m.transfers().len(), MAX_CAPS);
}

#[test]
fn receivers_are_matched_in_turn() {
    let mut ep = EndpointState::new();
    assert!(ep.is_idle());
    ep.recv(1);
    ep.recv(2);
    assert!(!ep.is_idle());
    for want in [1, 2] {
        match ep.send(9, Message::empty(0)) {
            SendOutcome::Delivered { receiver, .. } => assert_eq!(receiver, want),
            SendOutcome::Queued => panic!("a receiver waits"),
        }
    }
    assert!(matches!(ep.send(9, Message::empty(0)), SendOutcome::Queued));
}

#[test]
fn a_cancelled_party_is_matched_nowhere() {
    let mut ep = EndpointState::new();
    ep.send(1, Message::with_data(0, &[1]));
    ep.send(2, Message::with_data(0, &[2]));
    ep.send(1, Message::with_data(0, &[3]));
    assert!(ep.cancel(1));
    assert!(!ep.cancel(1));
    match ep.recv(5) {
        RecvOutcome::Received { sender, msg } => assert_eq!((sender, msg.data()[0]), (2, 2)),
        RecvOutcome::Queued => panic!("a sender waits"),
    }
    assert!(ep.is_idle());
}

#[test]
fn signals_are_latched_once() {
    let mut n = NotificationState::new();
    assert!(matches!(n.signal(), SignalOutcome::Latched));
    assert!(matches!(n.signal(), SignalOutcome::Latched));
    assert!(matches!(n.wait(1), WaitOutcome::Ready));
    assert!(matches!(n.wait(1), WaitOutcome::Queued));
    assert!(matches!(n.wait(2), WaitOutcome::Queued));
    assert!(matches!(n.signal(), SignalOutcome::Woke(1)));
    assert!(matches!(n.signal(), SignalOutcome::Woke(2)));
}
