//! Operation selectors.

use vstd::prelude::*;

verus! {

/// Return the capability's type and rights.
pub const CAP_IDENTIFY: u16 = 1;

/// Return the object of a `Frame`; needs READ.
pub const FRAME_PROBE: u16 = 2;

/// Send on an `Endpoint`; needs SEND.
pub const ENDPOINT_SEND: u16 = 3;

/// Emit the first argument on the console; needs SEND on an `Endpoint`.
pub const DEBUG_EMIT: u16 = 0x10;

/// Terminate with the exit code in the first argument; needs SEND on an `Endpoint`.
pub const PROC_EXIT: u16 = 0x11;

/// Call on an `Endpoint` and wait for the reply; needs SEND.
pub const ENDPOINT_CALL: u16 = 0x20;

/// Wait for a call on an `Endpoint`, and get a `Reply` for it; needs RECV.
pub const ENDPOINT_RECV: u16 = 0x21;

/// Answer the caller that a `Reply` names, which is used up.
pub const ENDPOINT_REPLY: u16 = 0x22;

/// Return the address of the window that a `SharedRo` stands for; needs READ.
pub const SHARED_QUERY: u16 = 0x30;

/// Wait for a `Notification`; needs WAIT.
pub const NOTIFY_WAIT: u16 = 0x40;

/// Raise a `Notification`; needs SIGNAL.
pub const NOTIFY_SIGNAL: u16 = 0x41;

} // verus!
