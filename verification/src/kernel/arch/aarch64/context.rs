//! The saved state of a task.

use vstd::prelude::*;

verus! {

/// A task that does not run: its stack pointer. The registers that it needs are on its stack.
#[derive(Clone, Copy, PartialEq, Eq, Structural, Debug)]
pub struct Context {
    pub sp: usize,
}

impl Context {
    /// A context to be filled in.
    pub fn empty() -> (c: Context)
        ensures
            c.sp == 0,
    {
        Context { sp: 0 }
    }
}

/// The context of a task that has not run, with a stack that ends at `stack_top`, and the words at
/// its stack pointer: twelve registers, of which the link register says where it starts.
pub fn context_init(stack_top: usize, trampoline: usize) -> (r: (Context, [usize; 12]))
    requires
        stack_top >= 112,
    ensures
        r.0.sp == stack_top - stack_top % 16 - 96,
        r.1@ == Seq::new(
            12,
            |i: int|
                if i == 1 {
                    trampoline
                } else {
                    0
                },
        ),
{
    let sp: usize = stack_top - stack_top % 16 - 96;
    let mut words: [usize; 12] = [0; 12];
    words[1] = trampoline;
    assert(words@ =~= Seq::new(
        12,
        |i: int|
            if i == 1 {
                trampoline
            } else {
                0
            },
    ));
    (Context { sp }, words)
}

} // verus!
