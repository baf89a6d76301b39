//! A capability kernel's core.

pub mod abi;
pub mod bytes;
pub mod cap;
pub mod ipc;
pub mod kernel;
pub mod mem;
