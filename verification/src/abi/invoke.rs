//! The capability-invocation ABI: every system call performs an operation on a capability of the
//! caller's CSpace.

pub mod op;
pub mod sys;

use vstd::prelude::*;

verus! {

/// The number of argument registers.
pub const MSG_REGS: usize = 4;

/// "Perform `op` on the capability at `cptr` with `args`."
#[derive(Clone, Copy, Debug, PartialEq, Eq)]
pub struct Invocation {
    /// The slot of the invoked capability in the caller's CSpace.
    pub cptr: u32,
    /// The operation.
    pub op: u16,
    /// The arguments.
    pub args: [u64; MSG_REGS],
}

impl Invocation {
    /// An invocation of `op` on `cptr` with zero arguments.
    #[must_use]
    pub fn new(cptr: u32, op: u16) -> (inv: Invocation)
        ensures
            inv.cptr == cptr,
            inv.op == op,
            inv.args@ == Seq::new(MSG_REGS as nat, |i: int| 0u64),
    {
        let inv = Invocation { cptr, op, args: [0; MSG_REGS] };
        assert(inv.args@ =~= Seq::new(MSG_REGS as nat, |i: int| 0u64));
        inv
    }
}

/// Why an invocation is refused.
#[derive(Clone, Copy, PartialEq, Eq, Structural, Debug)]
pub enum InvokeError {
    /// The cptr is outside the caller's CSpace.
    BadCptr,
    /// The caller holds no capability there.
    EmptySlot,
    /// The operation is not defined for the capability's type.
    WrongType,
    /// The capability does not carry the right that the operation needs.
    InsufficientRights,
    /// There is no such operation.
    UnknownOp,
}

impl InvokeError {
    /// The wire value, as a number of the model.
    pub open spec fn code_spec(self) -> i32 {
        match self {
            InvokeError::BadCptr => 1,
            InvokeError::EmptySlot => 2,
            InvokeError::WrongType => 3,
            InvokeError::InsufficientRights => 4,
            InvokeError::UnknownOp => 5,
        }
    }

    /// The value that user space observes.
    pub fn code(self) -> (c: i32)
        ensures
            c == self.code_spec(),
    {
        match self {
            InvokeError::BadCptr => 1,
            InvokeError::EmptySlot => 2,
            InvokeError::WrongType => 3,
            InvokeError::InsufficientRights => 4,
            InvokeError::UnknownOp => 5,
        }
    }
}


/// Every error has a value of its own, from 1 to 5; 0 is none.
pub proof fn law_errors_are_told_apart(a: InvokeError, b: InvokeError)
    ensures
        1 <= a.code_spec() <= 5,
        a.code_spec() == b.code_spec() ==> a == b,
        a.code_spec() == (if a == InvokeError::BadCptr {
            1i32
        } else if a == InvokeError::EmptySlot {
            2
        } else if a == InvokeError::WrongType {
            3
        } else if a == InvokeError::InsufficientRights {
            4
        } else {
            5
        }),
{
}

} // verus!
