//! Capabilities: records, rights, CPU-time budgets and the capability space.

pub mod cap;
pub mod cspace;
pub mod history;
pub mod laws;
pub mod mdb;
pub mod model;
pub mod outcomes;
pub mod revoke;
pub mod rights;
pub mod sched;
pub mod zero;
