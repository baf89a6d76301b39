//! What the processor's exceptions mean: system calls and faults of EL0, and interrupts.

use crate::abi::invoke::sys;
use crate::abi::invoke::{Invocation, MSG_REGS};
use vstd::prelude::*;

verus! {

/// The number of saved registers.
pub const FRAME_WORDS: usize = 31;

/// The interrupt of the timer.
pub const TIMER_INTID: u32 = 30;

/// What the interrupt controller says if no interrupt is pending.
pub const SPURIOUS: u32 = 1023;

/// What brought EL0 into the kernel.
#[derive(Clone, Copy, PartialEq, Eq, Debug)]
pub enum El0Event {
    /// An invocation.
    Syscall(Invocation),
    /// A system call with an unknown selector.
    BadSelector(u64),
    /// An access to data at this address that is not allowed.
    DataAbort(u64),
    /// An execution at this address that is not allowed.
    InstructionAbort(u64),
    /// An exception of another class.
    Unexpected(u64),
}

/// What the exception with this syndrome and fault address means, and these registers.
pub fn el0_sync_event(esr: u64, far: u64, frame: &[u64]) -> (e: El0Event)
    requires
        frame@.len() >= FRAME_WORDS,
    ensures
        ({
            let class = esr as int / 0x400_0000;
            match e {
                El0Event::Syscall(inv) => {
                    &&& class == 0x15
                    &&& frame@[8] == sys::INVOKE
                    &&& inv.cptr == frame@[0] % 0x1_0000_0000
                    &&& inv.op == frame@[1] % 0x1_0000
                    &&& inv.args@ == frame@.subrange(2, 2 + MSG_REGS)
                },
                El0Event::BadSelector(selector) => {
                    &&& class == 0x15
                    &&& frame@[8] != sys::INVOKE
                    &&& selector == frame@[8]
                },
                El0Event::DataAbort(addr) => class == 0x24 && addr == far,
                El0Event::InstructionAbort(addr) => class == 0x20 && addr == far,
                El0Event::Unexpected(c) => {
                    &&& class != 0x15 && class != 0x24 && class != 0x20
                    &&& c == class
                },
            }
        }),
{
    let class: u64 = esr / 0x400_0000;
    if class == 0x15 {
        let selector: u64 = frame[8];
        if selector != sys::INVOKE {
            return El0Event::BadSelector(selector);
        }
        let inv = Invocation {
            cptr: (frame[0] % 0x1_0000_0000) as u32,
            op: (frame[1] % 0x1_0000) as u16,
            args: [frame[2], frame[3], frame[4], frame[5]],
        };
        assert(inv.args@ =~= frame@.subrange(2, 2 + MSG_REGS));
        El0Event::Syscall(inv)
    } else if class == 0x24 {
        El0Event::DataAbort(far)
    } else if class == 0x20 {
        El0Event::InstructionAbort(far)
    } else {
        El0Event::Unexpected(class)
    }
}

/// What an interrupt asks for.
#[derive(Clone, Copy, PartialEq, Eq, Structural, Debug)]
pub enum IrqAction {
    /// The timer has fired: set it again, end the interrupt, and charge the running task.
    Tick,
    /// End the interrupt and go on.
    End(u32),
    /// Nothing: no interrupt is pending.
    Nothing,
}

/// What the interrupt asks for that the acknowledge register names.
pub fn irq_action(iar: u32) -> (a: IrqAction)
    ensures
        a == ({
            let intid = iar % 1024;
            if intid == TIMER_INTID {
                IrqAction::Tick
            } else if intid < SPURIOUS {
                IrqAction::End(intid)
            } else {
                IrqAction::Nothing
            }
        }),
{
    let intid: u32 = iar % 1024;
    if intid == TIMER_INTID {
        IrqAction::Tick
    } else if intid < SPURIOUS {
        IrqAction::End(intid)
    } else {
        IrqAction::Nothing
    }
}

/// The offset of the enable register for interrupt `intid`, and its bit there.
pub fn enable_bit(intid: u32) -> (r: (u32, u32))
    requires
        intid < 1024,
    ensures
        r.0 == 0x100 + intid / 32 * 4,
        r.1 == 1u32 << (intid % 32),
{
    (0x100 + intid / 32 * 4, 1u32 << (intid % 32))
}

} // verus!
