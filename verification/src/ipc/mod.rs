//! Synchronous capability IPC: the endpoint rendezvous, the register message and the
//! notification. Pure decisions: who pairs with whom and what a message means. Whoever drives
//! them copies registers, grants capabilities and wakes tasks.

pub mod endpoint;
pub mod message;
pub mod notification;

use vstd::prelude::*;

verus! {

/// A party that can block.
pub type PartyId = u64;

} // verus!
