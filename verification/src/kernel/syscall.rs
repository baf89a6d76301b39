//! The invocation dispatch: resolve the invoked cptr in the caller's CSpace, check the right that
//! the operation needs, and answer. Without a capability there is no object, and without the right
//! the operation is refused.

use crate::abi::invoke::op;
use crate::abi::invoke::{Invocation, InvokeError};
use crate::cap::cap::{CapType, RawCap};
use crate::cap::cspace::{CSpace, CapError, Cptr};
use crate::cap::model::CSpaceView;
use crate::cap::rights::Rights;
use crate::cap::zero::ZeroFrames;
use vstd::prelude::*;

verus! {

/// What an operation needs of the capability it is invoked on: its type and a right. `None` where
/// any capability will do, or there is no such operation.
pub open spec fn needs(o: u16) -> Option<(CapType, Rights)> {
    if o == op::FRAME_PROBE {
        Some((CapType::Frame, Rights { bits: 1 }))
    } else if o == op::ENDPOINT_SEND || o == op::DEBUG_EMIT || o == op::PROC_EXIT || o
        == op::ENDPOINT_CALL {
        Some((CapType::Endpoint, Rights { bits: 0x40 }))
    } else if o == op::ENDPOINT_RECV {
        Some((CapType::Endpoint, Rights { bits: 0x80 }))
    } else if o == op::SHARED_QUERY {
        Some((CapType::SharedRo, Rights { bits: 1 }))
    } else if o == op::NOTIFY_WAIT {
        Some((CapType::Notification, Rights { bits: 0x800 }))
    } else if o == op::NOTIFY_SIGNAL {
        Some((CapType::Notification, Rights { bits: 0x100 }))
    } else {
        None
    }
}

/// Why the operation is refused on this capability.
pub open spec fn op_error(cap: RawCap, o: u16) -> Option<InvokeError> {
    match needs(o) {
        Some((t, r)) => if cap.cap_type != t {
            Some(InvokeError::WrongType)
        } else if !cap.rights.includes(r) {
            Some(InvokeError::InsufficientRights)
        } else {
            None
        },
        None => if o == op::CAP_IDENTIFY {
            None
        } else {
            Some(InvokeError::UnknownOp)
        },
    }
}

/// Why the invocation is refused.
pub open spec fn invoke_error(v: CSpaceView, inv: Invocation) -> Option<InvokeError> {
    match v.resolve_error(inv.cptr as Cptr) {
        Some(CapError::OutOfBounds) => Some(InvokeError::BadCptr),
        Some(_) => Some(InvokeError::EmptySlot),
        None => op_error(v.cap(inv.cptr as int), inv.op),
    }
}

/// The answer to an invocation that is not refused.
pub open spec fn invoke_answer(cap: RawCap, inv: Invocation) -> int {
    if inv.op == op::CAP_IDENTIFY {
        (cap.cap_type as u8) * 0x1_0000_0000 + cap.rights.bits
    } else if inv.op == op::FRAME_PROBE {
        cap.objref as int
    } else if inv.op == op::DEBUG_EMIT || inv.op == op::PROC_EXIT {
        inv.args@[0] as int
    } else if inv.op == op::SHARED_QUERY {
        cap.aux * 4096
    } else {
        cap.badge as int
    }
}

/// Does the capability have this type and right?
fn check(cap: &RawCap, t: CapType, right: Rights) -> (r: Result<(), InvokeError>)
    ensures
        r == (if cap.cap_type != t {
            Err(InvokeError::WrongType)
        } else if !cap.rights.includes(right) {
            Err(InvokeError::InsufficientRights)
        } else {
            Ok::<(), InvokeError>(())
        }),
{
    if cap.cap_type != t {
        return Err(InvokeError::WrongType);
    }
    if !cap.rights.contains(right) {
        return Err(InvokeError::InsufficientRights);
    }
    Ok(())
}

/// Dispatch an invocation against the caller's CSpace: the answer word, or why it is refused.
pub fn invoke<const N: usize, Z: ZeroFrames>(cs: &CSpace<N, Z>, inv: &Invocation) -> (r: Result<
    u64,
    InvokeError,
>)
    requires
        cs.wf(),
    ensures
        match r {
            Ok(answer) => {
                &&& invoke_error(cs@, *inv) is None
                &&& answer == invoke_answer(cs@.cap(inv.cptr as int), *inv)
            },
            Err(e) => invoke_error(cs@, *inv) == Some(e),
        },
{
    let cap = match cs.resolve(inv.cptr as usize) {
        Err(CapError::OutOfBounds) => {
            return Err(InvokeError::BadCptr);
        },
        Err(_) => {
            return Err(InvokeError::EmptySlot);
        },
        Ok(cap) => cap,
    };
    match inv.op {
        op::CAP_IDENTIFY => {
            let t: u64 = (cap.cap_type as u8) as u64;
            let bits: u64 = cap.rights.bits() as u64;
            assert((t << 32) | bits == t * 0x1_0000_0000 + bits) by (bit_vector)
                requires
                    t <= 0xff,
                    bits <= 0xffff_ffff,
            ;
            Ok((t << 32) | bits)
        },
        op::FRAME_PROBE => match check(&cap, CapType::Frame, Rights::read()) {
            Err(e) => Err(e),
            Ok(()) => Ok(cap.objref),
        },
        op::ENDPOINT_SEND | op::ENDPOINT_CALL => match check(
            &cap,
            CapType::Endpoint,
            Rights::send(),
        ) {
            Err(e) => Err(e),
            Ok(()) => Ok(cap.badge),
        },
        op::DEBUG_EMIT | op::PROC_EXIT => match check(&cap, CapType::Endpoint, Rights::send()) {
            Err(e) => Err(e),
            Ok(()) => Ok(inv.args[0]),
        },
        op::ENDPOINT_RECV => match check(&cap, CapType::Endpoint, Rights::recv()) {
            Err(e) => Err(e),
            Ok(()) => Ok(cap.badge),
        },
        op::SHARED_QUERY => match check(&cap, CapType::SharedRo, Rights::read()) {
            Err(e) => Err(e),
            Ok(()) => {
                let aux: u64 = cap.aux as u64;
                assert(aux << 12 == aux * 4096) by (bit_vector)
                    requires
                        aux <= 0xffff_ffff,
                ;
                Ok(aux << 12)
            },
        },
        op::NOTIFY_WAIT => match check(&cap, CapType::Notification, Rights::wait()) {
            Err(e) => Err(e),
            Ok(()) => Ok(cap.badge),
        },
        op::NOTIFY_SIGNAL => match check(&cap, CapType::Notification, Rights::signal()) {
            Err(e) => Err(e),
            Ok(()) => Ok(cap.badge),
        },
        _ => Err(InvokeError::UnknownOp),
    }
}

/// There is no ambient authority: an operation other than identification succeeds only on a
/// capability that is there, of the right type, and carries the right.
pub proof fn law_no_ambient_authority(v: CSpaceView, inv: Invocation)
    requires
        invoke_error(v, inv) is None,
    ensures
        inv.cptr < v.slots.len(),
        v.cap(inv.cptr as int).cap_type != CapType::Null,
        inv.op != op::CAP_IDENTIFY ==> match needs(inv.op) {
            Some((t, right)) => {
                &&& v.cap(inv.cptr as int).cap_type == t
                &&& v.cap(inv.cptr as int).rights.includes(right)
            },
            None => false,
        },
{
}

/// A slot that a revocation emptied answers no invocation.
pub proof fn law_revoked_capability_is_refused(
    before: CSpaceView,
    c: Cptr,
    after: CSpaceView,
    inv: Invocation,
)
    requires
        before.wf(),
        after.wf(),
        before.resolve_error(c) is None,
        before.revokes_to(c, after),
        crate::cap::mdb::derived_from(before.slots, inv.cptr as int, c as int),
    ensures
        invoke_error(after, inv) == Some(InvokeError::EmptySlot),
{
    crate::cap::laws::law_revoke_is_complete(before, c, after);
    assert(crate::cap::mdb::derived_from(before.slots, inv.cptr as usize as int, c as int));
}

/// Each operation needs a capability of its type with its right: to send, to call, to emit and to
/// exit an `Endpoint` with SEND, to receive one with RECV, to wait a `Notification` with WAIT and to
/// raise it one with SIGNAL, to probe a `Frame` with READ, to ask for a window a `SharedRo` with
/// READ. Any capability can be identified, and there are no other operations.
pub proof fn law_operations_need_their_right(v: CSpaceView, inv: Invocation)
    requires
        invoke_error(v, inv) is None,
    ensures
        ({
            let cap = v.slots[inv.cptr as int].cap;
            &&& inv.cptr < v.slots.len()
            &&& cap.cap_type != CapType::Null
            &&& inv.op == 1 || inv.op == 2 || inv.op == 3 || inv.op == 0x10 || inv.op == 0x11
                || inv.op == 0x20 || inv.op == 0x21 || inv.op == 0x30 || inv.op == 0x40 || inv.op
                == 0x41
            &&& inv.op == 2 ==> cap.cap_type == CapType::Frame && cap.rights.bits & 1 == 1
            &&& inv.op == 3 ==> cap.cap_type == CapType::Endpoint && cap.rights.bits & 0x40 == 0x40
            &&& inv.op == 0x10 ==> cap.cap_type == CapType::Endpoint && cap.rights.bits & 0x40
                == 0x40
            &&& inv.op == 0x11 ==> cap.cap_type == CapType::Endpoint && cap.rights.bits & 0x40
                == 0x40
            &&& inv.op == 0x20 ==> cap.cap_type == CapType::Endpoint && cap.rights.bits & 0x40
                == 0x40
            &&& inv.op == 0x21 ==> cap.cap_type == CapType::Endpoint && cap.rights.bits & 0x80
                == 0x80
            &&& inv.op == 0x30 ==> cap.cap_type == CapType::SharedRo && cap.rights.bits & 1 == 1
            &&& inv.op == 0x40 ==> cap.cap_type == CapType::Notification && cap.rights.bits & 0x800
                == 0x800
            &&& inv.op == 0x41 ==> cap.cap_type == CapType::Notification && cap.rights.bits & 0x100
                == 0x100
        }),
{
}

/// An operation is let through for whoever holds what it needs, and refused for a reason that holds:
/// there is no such slot, it is empty, there is no such operation, or the capability is of another
/// type or lacks the right.
pub proof fn law_invocations_are_refused_for_cause(v: CSpaceView, inv: Invocation)
    ensures
        ({
            let cap = v.slots[inv.cptr as int].cap;
            let endpoint = inv.op == 3 || inv.op == 0x10 || inv.op == 0x11 || inv.op == 0x20
                || inv.op == 0x21;
            let notification = inv.op == 0x40 || inv.op == 0x41;
            let known = endpoint || notification || inv.op == 1 || inv.op == 2 || inv.op == 0x30;
            let typed = inv.op == 1 || (endpoint && cap.cap_type == CapType::Endpoint) || (
            notification && cap.cap_type == CapType::Notification) || (inv.op == 2
                && cap.cap_type == CapType::Frame) || (inv.op == 0x30 && cap.cap_type
                == CapType::SharedRo);
            let right: u32 = if inv.op == 1 {
                0
            } else if inv.op == 2 || inv.op == 0x30 {
                1
            } else if inv.op == 0x21 {
                0x80
            } else if inv.op == 0x40 {
                0x800
            } else if inv.op == 0x41 {
                0x100
            } else {
                0x40
            };
            invoke_error(v, inv) == (if inv.cptr >= v.slots.len() {
                Some(InvokeError::BadCptr)
            } else if cap.cap_type == CapType::Null {
                Some(InvokeError::EmptySlot)
            } else if !known {
                Some(InvokeError::UnknownOp)
            } else if !typed {
                Some(InvokeError::WrongType)
            } else if inv.op != 1 && cap.rights.bits & right != right {
                Some(InvokeError::InsufficientRights)
            } else {
                None
            })
        }),
{
}

/// What is answered: a frame is named by its number and an endpoint or a notification by the badge of
/// the capability, a window by its address; what is emitted and the exit code are the first argument;
/// and an identified capability tells its type and its rights.
pub proof fn law_answers_tell_of_the_capability(v: CSpaceView, inv: Invocation)
    requires
        invoke_error(v, inv) is None,
    ensures
        ({
            let cap = v.slots[inv.cptr as int].cap;
            let answer = invoke_answer(cap, inv);
            &&& inv.op == 1 ==> answer / 0x1_0000_0000 == cap.cap_type as u8 && answer
                % 0x1_0000_0000 == cap.rights.bits
            &&& inv.op == 2 ==> answer == cap.objref
            &&& inv.op == 3 || inv.op == 0x20 || inv.op == 0x21 || inv.op == 0x40 || inv.op == 0x41
                ==> answer == cap.badge
            &&& inv.op == 0x10 || inv.op == 0x11 ==> answer == inv.args@[0]
            &&& inv.op == 0x30 ==> answer == cap.aux * 4096
        }),
{
}

} // verus!
