//! The contract between kernel and user space: the invocation ABI and the `.pex` executable
//! format.

pub mod encode;
pub mod invoke;
pub mod laws;
pub mod pex;
pub mod reading;
