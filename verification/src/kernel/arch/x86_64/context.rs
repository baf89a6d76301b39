//! The saved state of a task.

use vstd::prelude::*;

verus! {

/// A task that does not run: its stack pointer. The registers that it needs are on its stack.
#[derive(Clone, Copy, PartialEq, Eq, Structural, Debug)]
pub struct Context {
    pub sp: usize,
}

impl Context {
    /// A context to be filled in.
    pub fn empty() -> (c: Context)
        ensures
            c.sp == 0,
    {
        Context { sp: 0 }
    }
}

/// The context of a task that has not run, with a stack that ends at `stack_top`, and the words at
/// its stack pointer: six registers, and where it starts.
pub fn context_init(stack_top: usize, trampoline: usize) -> (r: (Context, [usize; 7]))
    requires
        stack_top >= 80,
    ensures
        r.0.sp == stack_top - stack_top % 16 - 56,
        r.1@ == seq![0usize, 0, 0, 0, 0, 0, trampoline],
{
    let sp: usize = stack_top - stack_top % 16 - 56;
    let words: [usize; 7] = [0, 0, 0, 0, 0, 0, trampoline];
    assert(words@ =~= seq![0usize, 0, 0, 0, 0, 0, trampoline]);
    (Context { sp }, words)
}

} // verus!
