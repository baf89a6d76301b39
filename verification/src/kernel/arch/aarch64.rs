//! What is particular to aarch64.

pub mod context;
pub mod mte;
pub mod paging;
pub mod timer;
pub mod trap;
