//! What is particular to x86-64.

pub mod context;
pub mod paging;
pub mod pku;
pub mod timer;
pub mod trap;
