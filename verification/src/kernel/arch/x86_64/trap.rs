//! What the processor's traps mean: system calls, the page faults that a probe expects, and the rest.

use crate::abi::invoke::sys;
use crate::abi::invoke::{Invocation, MSG_REGS};
use vstd::prelude::*;

verus! {

/// The number of saved registers of a system call: selector, cptr, operation, arguments, and where
/// to go on.
pub const FRAME_WORDS: usize = 10;

/// What the registers of a system call ask for; an unknown selector is handed back.
pub fn decode_syscall(frame: &[u64]) -> (r: Result<Invocation, u64>)
    requires
        frame@.len() >= FRAME_WORDS,
    ensures
        match r {
            Ok(inv) => {
                &&& frame@[0] == sys::INVOKE
                &&& inv.cptr == frame@[1] % 0x1_0000_0000
                &&& inv.op == frame@[2] % 0x1_0000
                &&& inv.args@ == frame@.subrange(3, 3 + MSG_REGS)
            },
            Err(selector) => frame@[0] != sys::INVOKE && selector == frame@[0],
        },
{
    let selector: u64 = frame[0];
    if selector != sys::INVOKE {
        return Err(selector);
    }
    let inv = Invocation {
        cptr: (frame[1] % 0x1_0000_0000) as u32,
        op: (frame[2] % 0x1_0000) as u16,
        args: [frame[3], frame[4], frame[5], frame[6]],
    };
    assert(inv.args@ =~= frame@.subrange(3, 3 + MSG_REGS));
    Ok(inv)
}

/// A page fault that a probe expects, once.
#[derive(Clone, Copy, PartialEq, Eq, Structural, Debug)]
pub struct ExpectedFault {
    /// The address; 0 if none is expected.
    pub addr: u64,
    /// Where to go on.
    pub resume: u64,
}

impl ExpectedFault {
    /// A fault at `addr` is expected.
    pub open spec fn forgives(self, addr: u64) -> bool {
        self.addr != 0 && self.addr == addr
    }

    /// No fault is expected.
    pub fn none() -> (e: ExpectedFault)
        ensures
            e == (ExpectedFault { addr: 0, resume: 0 }),
    {
        ExpectedFault { addr: 0, resume: 0 }
    }

    /// Expect a fault at `addr`, and go on at `resume` then.
    pub fn arm(&mut self, addr: u64, resume: u64)
        ensures
            *final(self) == (ExpectedFault { addr, resume }),
    {
        self.resume = resume;
        self.addr = addr;
    }

    /// Expect no fault any more.
    pub fn disarm(&mut self)
        ensures
            *final(self) == (ExpectedFault { addr: 0, ..*old(self) }),
    {
        self.addr = 0;
    }

    /// Where to go on after a fault at `addr`, if it was expected; no other is expected then.
    pub fn expected_fault_resume(&mut self, addr: u64) -> (r: Option<u64>)
        ensures
            r == (if old(self).forgives(addr) {
                Some(old(self).resume)
            } else {
                None
            }),
            *final(self) == (if r is Some {
                ExpectedFault { addr: 0, ..*old(self) }
            } else {
                *old(self)
            }),
    {
        if self.addr != 0 && addr == self.addr {
            self.addr = 0;
            return Some(self.resume);
        }
        None
    }
}

/// **Law:** an expected fault is forgiven once; no fault at all is, until another is expected.
pub proof fn law_faults_are_forgiven_once(e: ExpectedFault, addr: u64)
    ensures
        !(ExpectedFault { addr: 0, ..e }).forgives(addr),
{
}


/// **Law:** the fault that is expected is forgiven and no other; none is expected at address 0.
pub proof fn law_only_the_expected_fault_is_forgiven(e: ExpectedFault, addr: u64)
    ensures
        e.forgives(addr) ==> addr == e.addr && addr != 0,
        addr == e.addr && addr != 0 ==> e.forgives(addr),
{
}

} // verus!
