//! System call selectors. There is one: every system call is an invocation.

use vstd::prelude::*;

verus! {

/// Perform a capability invocation.
pub const INVOKE: u64 = 0;

} // verus!
