//! The kernel's decisions: system calls, scheduling, memory, loading, page tables.

pub mod arch;
pub mod boot;
pub mod cap;
pub mod ipc;
pub mod isolation;
pub mod loader;
pub mod memory;
pub mod sched;
pub mod scheduler;
pub mod serial;
pub mod syscall;
pub mod user;
