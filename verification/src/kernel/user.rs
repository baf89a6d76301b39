//! User processes: what a process's system calls do, and how processes meet at an endpoint and wait
//! for a notification. A call that has to wait is answered in steps; between them the processor goes
//! to somebody else.

use crate::abi::invoke::op;
use crate::abi::invoke::{Invocation, InvokeError};
use crate::cap::cap::{CapType, RawCap};
use crate::cap::cspace::{grant, CSpace, CapError, Cptr, GrantMode};
use crate::cap::mdb;
use crate::cap::mdb::NIL;
use crate::cap::model;
use crate::cap::model::CSpaceView;
use crate::cap::rights::Rights;
use crate::cap::zero::ZeroFrames;
use crate::kernel::loader::PROCESS_SLOTS;
use crate::kernel::syscall;
use crate::kernel::syscall::invoke;
use vstd::prelude::*;

verus! {

/// The number of processes at a time.
pub const MAX_PROCS: usize = 4;

/// The slot that the `Reply` for a received call is put in.
pub const REPLY_SLOT: Cptr = 3;

/// The slot of a process's endpoint.
pub const EP_SLOT: Cptr = 1;

/// The badge of that endpoint.
pub const EP_BADGE: u64 = 0xB1;

/// The slot of the shared region.
pub const SHARED_SLOT: Cptr = 4;

/// The slot of the notification.
pub const NOTIF_SLOT: Cptr = 5;

/// The notification.
pub const NOTIF_ID: u64 = 0x0090_7117;

/// Where the shared region is mapped, in every process that has it.
pub const SHARED_VA: u64 = 0x4070_0000;

/// A page that no process may read.
pub const FAULT_PROBE_VA: u64 = 0x4012_0000;

/// The exit code of a process that was killed.
pub const KILLED: u64 = u64::MAX;

/// A process: its capabilities, and how it ended.
pub struct Process<Z: ZeroFrames> {
    /// What it may invoke.
    pub cspace: CSpace<PROCESS_SLOTS, Z>,
    /// It has left user mode for good.
    pub done: bool,
    /// Its exit code.
    pub exit: u64,
}

/// The meeting point of callers and receivers.
#[derive(Clone, Copy, PartialEq, Eq, Structural, Debug)]
pub struct Rdv {
    /// Whose message waits to be received.
    pub caller: Option<usize>,
    /// The message.
    pub msg: u64,
    /// The answer that waits for the caller.
    pub reply: Option<u64>,
}

/// The state of the notification.
#[derive(Clone, Copy, PartialEq, Eq, Structural, Debug)]
pub struct Notify {
    /// It was raised, and nobody has woken by it yet.
    pub signaled: bool,
    /// The process that waits for it.
    pub waiter: Option<usize>,
}

/// What processes share.
#[derive(Clone, Copy, PartialEq, Eq, Structural, Debug)]
pub struct Channels {
    /// The meeting point.
    pub rdv: Rdv,
    /// The notification.
    pub notify: Notify,
}

/// Why a process is killed.
#[derive(Clone, Copy, PartialEq, Eq, Structural, Debug)]
pub enum Refusal {
    /// It may not perform the operation.
    Invoke(InvokeError),
    /// The capability operation behind it failed.
    Cap(CapError),
}

/// What becomes of a system call.
#[derive(Clone, Copy, PartialEq, Eq, Structural, Debug)]
pub enum Action {
    /// The process goes on with this value.
    Return(u64),
    /// The value goes to the console, and the process goes on with 0.
    Emit(u64),
    /// The process has ended with this exit code.
    Exit(u64),
    /// The process has been killed.
    Kill(Refusal),
    /// The process waits for the answer to its call: [`take_reply`].
    AwaitReply,
    /// The process waits for a call: [`take_call`].
    AwaitCall,
    /// The process waits for the notification: [`take_signal`].
    AwaitSignal,
}

/// Why a run of processes has failed.
#[derive(Clone, Copy, PartialEq, Eq, Structural, Debug)]
pub enum RunFailure {
    /// A process did not end by itself with exit code 0.
    NotClean,
    /// A process read what it may not, and was not killed for it.
    Breach,
    /// A process ended without having waited.
    NeverWaited,
}

/// How a run of processes stands.
#[derive(Clone, Copy, PartialEq, Eq, Structural, Debug)]
pub enum RunState {
    /// A process has not ended yet.
    Running,
    /// Every process has ended, as it should.
    Passed,
    /// Every process has ended, but not as it should.
    Failed(RunFailure),
}

impl Channels {
    /// Nobody has called, and nothing was raised.
    pub fn new() -> (c: Channels)
        ensures
            c == Channels::quiet(),
    {
        Channels {
            rdv: Rdv { caller: None, msg: 0, reply: None },
            notify: Notify { signaled: false, waiter: None },
        }
    }

    /// Nobody has called, and nothing was raised.
    pub open spec fn quiet() -> Channels {
        Channels {
            rdv: Rdv { caller: None, msg: 0, reply: None },
            notify: Notify { signaled: false, waiter: None },
        }
    }

    /// After process `id` has called with `msg`.
    pub open spec fn called(self, id: usize, msg: u64) -> Channels {
        Channels { rdv: Rdv { caller: Some(id), msg, reply: None }, ..self }
    }

    /// After the call was received.
    pub open spec fn received(self) -> Channels {
        Channels { rdv: Rdv { caller: None, ..self.rdv }, ..self }
    }

    /// After the call was answered with `word`.
    pub open spec fn replied(self, word: u64) -> Channels {
        Channels { rdv: Rdv { reply: Some(word), ..self.rdv }, ..self }
    }

    /// After the caller has taken the answer.
    pub open spec fn answered(self) -> Channels {
        Channels { rdv: Rdv { caller: None, reply: None, ..self.rdv }, ..self }
    }

    /// After process `id` has started to wait for the notification.
    pub open spec fn waiting(self, id: usize) -> Channels {
        Channels { notify: Notify { waiter: Some(id), ..self.notify }, ..self }
    }

    /// After the notification was raised.
    pub open spec fn raised(self) -> Channels {
        Channels { notify: Notify { signaled: true, ..self.notify }, ..self }
    }

    /// After the waiter has woken.
    pub open spec fn woken(self) -> Channels {
        Channels { notify: Notify { signaled: false, waiter: None }, ..self }
    }
}

/// What becomes of an invocation by a process with these capabilities.
pub open spec fn action(v: CSpaceView, inv: Invocation) -> Action {
    if inv.op == op::ENDPOINT_REPLY {
        match v.reply_error(inv.cptr as Cptr) {
            Some(e) => Action::Kill(Refusal::Cap(e)),
            None => Action::Return(0),
        }
    } else {
        match syscall::invoke_error(v, inv) {
            Some(e) => Action::Kill(Refusal::Invoke(e)),
            None => {
                let answer = syscall::invoke_answer(v.cap(inv.cptr as int), inv) as u64;
                if inv.op == op::ENDPOINT_CALL {
                    Action::AwaitReply
                } else if inv.op == op::ENDPOINT_RECV {
                    Action::AwaitCall
                } else if inv.op == op::NOTIFY_WAIT {
                    Action::AwaitSignal
                } else if inv.op == op::NOTIFY_SIGNAL {
                    Action::Return(0)
                } else if inv.op == op::DEBUG_EMIT {
                    Action::Emit(answer)
                } else if inv.op == op::PROC_EXIT {
                    Action::Exit(answer)
                } else {
                    Action::Return(answer)
                }
            },
        }
    }
}

/// What processes share after process `id`, with these capabilities, has made the invocation.
pub open spec fn channels_after(
    c: Channels,
    id: usize,
    v: CSpaceView,
    inv: Invocation,
) -> Channels {
    if action(v, inv) is Kill {
        c
    } else if inv.op == op::ENDPOINT_CALL {
        c.called(id, inv.args@[0])
    } else if inv.op == op::ENDPOINT_REPLY {
        c.replied(inv.args@[0])
    } else if inv.op == op::NOTIFY_WAIT {
        c.waiting(id)
    } else if inv.op == op::NOTIFY_SIGNAL {
        c.raised()
    } else {
        c
    }
}

/// The capabilities of a process after the invocation: a `Reply` is used up.
pub open spec fn cspace_after(v: CSpaceView, inv: Invocation) -> CSpaceView {
    if inv.op == op::ENDPOINT_REPLY && v.reply_error(inv.cptr as Cptr) is None {
        v.vacated(inv.cptr as int)
    } else {
        v
    }
}

impl<Z: ZeroFrames> Process<Z> {
    /// The capabilities are sound.
    pub open spec fn wf(&self) -> bool {
        self.cspace.wf()
    }

    /// A process that has not run yet.
    pub fn new(cspace: CSpace<PROCESS_SLOTS, Z>) -> (p: Process<Z>)
        requires
            cspace.wf(),
        ensures
            p.wf(),
            p.cspace@ == cspace@,
            !p.done,
            p.exit == 0,
    {
        Process { cspace, done: false, exit: 0 }
    }

    /// The process has ended with this exit code.
    pub fn retire(&mut self, code: u64)
        ensures
            final(self).cspace == old(self).cspace,
            final(self).done,
            final(self).exit == code,
    {
        self.exit = code;
        self.done = true;
    }

    /// The process has ended, by itself and with exit code 0?
    pub fn exited_cleanly(&self) -> (b: bool)
        ensures
            b == (self.done && self.exit == 0),
    {
        self.done && self.exit == 0
    }

    /// The process was killed?
    pub fn was_killed(&self) -> (b: bool)
        ensures
            b == (self.done && self.exit == KILLED),
    {
        self.done && self.exit == KILLED
    }
}

/// A system call of process `id`. It is refused, and the process killed, unless the process holds
/// a capability that allows it.
pub fn syscall<Z: ZeroFrames>(
    p: &mut Process<Z>,
    id: usize,
    channels: &mut Channels,
    inv: &Invocation,
) -> (a: Action)
    requires
        old(p).wf(),
    ensures
        final(p).wf(),
        a == action(old(p).cspace@, *inv),
        *final(channels) == channels_after(*old(channels), id, old(p).cspace@, *inv),
        final(p).cspace@ == cspace_after(old(p).cspace@, *inv),
        match a {
            Action::Exit(code) => final(p).done && final(p).exit == code,
            Action::Kill(_) => final(p).done && final(p).exit == KILLED,
            _ => final(p).done == old(p).done && final(p).exit == old(p).exit,
        },
{
    if inv.op == op::ENDPOINT_REPLY {
        return reply(p, channels, inv);
    }
    match invoke(&p.cspace, inv) {
        Err(e) => {
            p.retire(KILLED);
            Action::Kill(Refusal::Invoke(e))
        },
        Ok(answer) => match inv.op {
            op::ENDPOINT_CALL => {
                channels.rdv = Rdv { caller: Some(id), msg: inv.args[0], reply: None };
                Action::AwaitReply
            },
            op::ENDPOINT_RECV => Action::AwaitCall,
            op::NOTIFY_WAIT => {
                channels.notify.waiter = Some(id);
                Action::AwaitSignal
            },
            op::NOTIFY_SIGNAL => {
                channels.notify.signaled = true;
                Action::Return(0)
            },
            op::DEBUG_EMIT => Action::Emit(answer),
            op::PROC_EXIT => {
                p.retire(answer);
                Action::Exit(answer)
            },
            _ => Action::Return(answer),
        },
    }
}

/// Answer a call, with the `Reply` that the invocation names.
fn reply<Z: ZeroFrames>(p: &mut Process<Z>, channels: &mut Channels, inv: &Invocation) -> (a: Action)
    requires
        old(p).wf(),
        inv.op == op::ENDPOINT_REPLY,
    ensures
        final(p).wf(),
        a == action(old(p).cspace@, *inv),
        *final(channels) == channels_after(*old(channels), 0, old(p).cspace@, *inv),
        final(p).cspace@ == cspace_after(old(p).cspace@, *inv),
        match a {
            Action::Kill(_) => final(p).done && final(p).exit == KILLED,
            _ => final(p).done == old(p).done && final(p).exit == old(p).exit,
        },
{
    match p.cspace.consume_reply(inv.cptr as usize) {
        Err(e) => {
            p.retire(KILLED);
            Action::Kill(Refusal::Cap(e))
        },
        Ok(_caller) => {
            channels.rdv.reply = Some(inv.args[0]);
            Action::Return(0)
        },
    }
}

/// The answer to the call that a process waits on, if there is one yet.
pub fn take_reply(channels: &mut Channels) -> (r: Option<u64>)
    ensures
        r == old(channels).rdv.reply,
        *final(channels) == (if r is Some {
            old(channels).answered()
        } else {
            *old(channels)
        }),
{
    match channels.rdv.reply {
        Some(v) => {
            channels.rdv.reply = None;
            channels.rdv.caller = None;
            Some(v)
        },
        None => None,
    }
}

/// The message of a caller, if there is one yet. The receiver gets a `Reply` that names the caller,
/// and is killed if it has no place for it.
pub fn take_call<Z: ZeroFrames>(p: &mut Process<Z>, channels: &mut Channels) -> (r: Option<Action>)
    requires
        old(p).wf(),
    ensures
        final(p).wf(),
        match old(channels).rdv.caller {
            None => {
                &&& r is None
                &&& *final(channels) == *old(channels)
                &&& final(p).cspace@ == old(p).cspace@
                &&& final(p).done == old(p).done && final(p).exit == old(p).exit
            },
            Some(caller) => {
                &&& *final(channels) == old(channels).received()
                &&& match old(p).cspace@.place_error(REPLY_SLOT) {
                    None => {
                        &&& r == Some(Action::Return(old(channels).rdv.msg))
                        &&& final(p).cspace@ == old(p).cspace@.placed(
                            REPLY_SLOT as int,
                            CSpaceView::reply_cap(caller as u64, 0),
                            NIL,
                        )
                        &&& final(p).done == old(p).done && final(p).exit == old(p).exit
                    },
                    Some(e) => {
                        &&& r == Some(Action::Kill(Refusal::Cap(e)))
                        &&& final(p).cspace@ == old(p).cspace@
                        &&& final(p).done && final(p).exit == KILLED
                    },
                }
            },
        },
{
    match channels.rdv.caller {
        None => None,
        Some(caller) => {
            channels.rdv.caller = None;
            match p.cspace.mint_reply(REPLY_SLOT, caller as u64, 0) {
                Err(e) => {
                    p.retire(KILLED);
                    Some(Action::Kill(Refusal::Cap(e)))
                },
                Ok(()) => Some(Action::Return(channels.rdv.msg)),
            }
        },
    }
}

/// Whether the notification that a process waits for was raised; if so, the process wakes by it.
pub fn take_signal(channels: &mut Channels) -> (woke: bool)
    ensures
        woke == old(channels).notify.signaled,
        *final(channels) == (if woke {
            old(channels).woken()
        } else {
            *old(channels)
        }),
{
    if channels.notify.signaled {
        channels.notify.signaled = false;
        channels.notify.waiter = None;
        true
    } else {
        false
    }
}

/// Raise the notification, from the kernel.
pub fn notify_signal(channels: &mut Channels)
    ensures
        *final(channels) == old(channels).raised(),
{
    channels.notify.signaled = true;
}

/// Whether a process waits for the notification.
pub fn notify_has_waiter(channels: &Channels) -> (b: bool)
    ensures
        b == (channels.notify.waiter is Some),
{
    channels.notify.waiter.is_some()
}

/// Raise the notification once, as soon as a process waits for it. Returns whether it was raised by
/// now.
pub fn signal_once(channels: &mut Channels, signalled: bool) -> (r: bool)
    ensures
        r == (signalled || old(channels).notify.waiter is Some),
        *final(channels) == (if !signalled && old(channels).notify.waiter is Some {
            old(channels).raised()
        } else {
            *old(channels)
        }),
{
    if !signalled && notify_has_waiter(channels) {
        notify_signal(channels);
        true
    } else {
        signalled
    }
}

/// A process touched what it may not, or did what it cannot: it is killed.
pub fn fault<Z: ZeroFrames>(p: &mut Process<Z>) -> (a: Action)
    ensures
        a == Action::Exit(KILLED),
        final(p).cspace == old(p).cspace,
        final(p).done,
        final(p).exit == KILLED,
{
    p.retire(KILLED);
    Action::Exit(KILLED)
}

/// The capabilities of a process that is brought up without an image: one endpoint, to send on, out
/// of frame `frame`.
pub fn blob_cspace<Y: ZeroFrames, Z: ZeroFrames>(frame: u64, zero: Y, own: Z) -> (r: Result<
    CSpace<PROCESS_SLOTS, Z>,
    CapError,
>)
    ensures
        r is Ok,
        r matches Ok(cs) ==> {
            &&& cs.wf()
            &&& cs@.zeroed == own.zeroed()
            &&& forall|i: int|
                0 <= i < PROCESS_SLOTS && i != EP_SLOT ==> cs@.vacant(i)
            &&& cs@.cap(EP_SLOT as int) == (RawCap {
                cap_type: CapType::Endpoint,
                rights: Rights { bits: 0x40 },
                objref: frame,
                size: 1,
                watermark: 0,
                aux: 0,
                badge: EP_BADGE,
            })
        },
{
    let mut authority: CSpace<4, Y> = CSpace::new(zero);
    proof {
        assert(!mdb::has_child(authority@.slots, 0)) by {
            if mdb::has_child(authority@.slots, 0) {
                let i = choose|i: int| mdb::child_of(authority@.slots, i, 0);
                assert(!mdb::live(authority@.slots, i));
            }
        }
    }
    authority.set_root_untyped(frame, 1);
    proof {
        assert forall|i: int| 1 <= i < 2 implies !#[trigger] mdb::live(authority@.slots, i) by {}
        model::lemma_default_rights();
    }
    match authority.retype(0, CapType::Endpoint, 1, 1, 1) {
        Err(e) => {
            return Err(e);
        },
        Ok(()) => {},
    }
    let mut cs: CSpace<PROCESS_SLOTS, Z> = CSpace::new(own);
    match grant(
        &mut authority,
        1,
        &mut cs,
        EP_SLOT,
        Rights::send(),
        EP_BADGE,
        GrantMode::Mint,
    ) {
        Err(e) => {
            return Err(e);
        },
        Ok(()) => {},
    }
    Ok(cs)
}

/// Give two processes the region of `frame`: the owner to read and write, the peer to read.
pub fn share_region<Y: ZeroFrames, Z: ZeroFrames>(
    owner: &mut Process<Y>,
    peer: &mut Process<Z>,
    frame: u64,
)
    requires
        old(owner).wf(),
        old(peer).wf(),
        old(owner).cspace@.vacant(SHARED_SLOT as int),
        old(peer).cspace@.vacant(SHARED_SLOT as int),
    ensures
        final(owner).wf(),
        final(owner).done == old(owner).done && final(owner).exit == old(owner).exit,
        final(owner).cspace@ == old(owner).cspace@.placed(
            SHARED_SLOT as int,
            RawCap {
                cap_type: CapType::Frame,
                rights: Rights { bits: 1u32 | 2u32 },
                objref: frame,
                size: 1,
                watermark: 0,
                aux: 0,
                badge: 0,
            },
            NIL,
        ),
        final(peer).wf(),
        final(peer).done == old(peer).done && final(peer).exit == old(peer).exit,
        final(peer).cspace@ == old(peer).cspace@.placed(
            SHARED_SLOT as int,
            shared_window(frame),
            NIL,
        ),
{
    owner.cspace.install_frame(SHARED_SLOT, frame, 1, Rights::read() | Rights::write());
    peer.cspace.install_shared_ro(SHARED_SLOT, frame, 1, SHARED_VA);
}

/// How a run of two processes that ought to end cleanly stands.
pub fn pair_state<Y: ZeroFrames, Z: ZeroFrames>(a: &Process<Y>, b: &Process<Z>) -> (r: RunState)
    ensures
        r == (if !(a.done && b.done) {
            RunState::Running
        } else if a.exit == 0 && b.exit == 0 {
            RunState::Passed
        } else {
            RunState::Failed(RunFailure::NotClean)
        }),
{
    if !(a.done && b.done) {
        RunState::Running
    } else if a.exited_cleanly() && b.exited_cleanly() {
        RunState::Passed
    } else {
        RunState::Failed(RunFailure::NotClean)
    }
}

/// How a run of a process that ought to be killed for what it reads stands.
pub fn hostile_state<Z: ZeroFrames>(p: &Process<Z>) -> (r: RunState)
    ensures
        r == (if !p.done {
            RunState::Running
        } else if p.exit == KILLED {
            RunState::Passed
        } else {
            RunState::Failed(RunFailure::Breach)
        }),
{
    if !p.done {
        RunState::Running
    } else if p.was_killed() {
        RunState::Passed
    } else {
        RunState::Failed(RunFailure::Breach)
    }
}

/// How a run of a process that ought to wait for the notification stands, `signalled` being whether
/// it was raised while the process waited.
pub fn waiter_state<Z: ZeroFrames>(p: &Process<Z>, signalled: bool) -> (r: RunState)
    ensures
        r == (if !p.done {
            RunState::Running
        } else if !signalled {
            RunState::Failed(RunFailure::NeverWaited)
        } else if p.exit != 0 {
            RunState::Failed(RunFailure::NotClean)
        } else {
            RunState::Passed
        }),
{
    if !p.done {
        RunState::Running
    } else if !signalled {
        RunState::Failed(RunFailure::NeverWaited)
    } else if p.exited_cleanly() {
        RunState::Passed
    } else {
        RunState::Failed(RunFailure::NotClean)
    }
}

/// Give a process the notification, to wait for it and no more. It was not raised before.
pub fn prepare_waiter<Z: ZeroFrames>(p: &mut Process<Z>, channels: &mut Channels)
    requires
        old(p).wf(),
        old(p).cspace@.vacant(NOTIF_SLOT as int),
    ensures
        final(p).wf(),
        final(p).done == old(p).done && final(p).exit == old(p).exit,
        final(p).cspace@ == with_notification(old(p).cspace@),
        *final(channels) == old(channels).woken(),
{
    p.cspace.install_notification(NOTIF_SLOT, NOTIF_ID, Rights::wait());
    channels.notify = Notify { signaled: false, waiter: None };
}

/// The capabilities of a process that may wait for the notification, besides those that it had.
pub open spec fn with_notification(v: CSpaceView) -> CSpaceView {
    v.placed(
        NOTIF_SLOT as int,
        RawCap {
            cap_type: CapType::Notification,
            rights: Rights { bits: 0x800 },
            objref: NOTIF_ID,
            size: 0,
            watermark: 0,
            aux: 0,
            badge: 0,
        },
        NIL,
    )
}

/// The capability of a process that may read the region of `frame`.
pub open spec fn shared_window(frame: u64) -> RawCap {
    RawCap {
        cap_type: CapType::SharedRo,
        rights: Rights { bits: 1 },
        objref: frame,
        size: 1,
        watermark: 0,
        aux: 0x4_0700,
        badge: 0,
    }
}

/// Whether a page with these permissions (writable, executable) is mapped, and only to be read.
pub fn is_read_only(prot: Option<(bool, bool)>) -> (b: bool)
    ensures
        b == (prot matches Some(p) && !p.0),
{
    match prot {
        Some((false, _)) => true,
        _ => false,
    }
}

/// **Law:** a process that does what it holds no capability for is killed, and nothing else
/// changes: neither what processes share nor what it holds.
pub proof fn law_refused_calls_change_nothing(
    v: CSpaceView,
    inv: Invocation,
    c: Channels,
    id: usize,
)
    requires
        action(v, inv) is Kill,
    ensures
        channels_after(c, id, v, inv) == c,
        cspace_after(v, inv) == v,
{
}

/// **Law:** a call brings its message to the receiver and the receiver's answer to the caller. The
/// caller has no answer before that.
pub proof fn law_calls_are_answered(c: Channels, caller: usize, msg: u64, word: u64)
    ensures
        c.called(caller, msg).rdv.caller == Some(caller),
        c.called(caller, msg).rdv.msg == msg,
        c.called(caller, msg).rdv.reply is None,
        c.called(caller, msg).received().rdv.reply is None,
        c.called(caller, msg).received().replied(word).rdv.reply == Some(word),
{
}

/// **Law:** a call is received once, and its answer is taken once.
pub proof fn law_calls_are_received_once(c: Channels)
    ensures
        c.received().rdv.caller is None,
        c.answered().rdv.reply is None,
        c.answered().rdv.caller is None,
{
}

/// **Law:** a receiver answers each call once: whoever uses a `Reply` again is killed.
pub proof fn law_replies_are_used_once(v: CSpaceView, inv: Invocation)
    requires
        inv.op == op::ENDPOINT_REPLY,
        action(v, inv) == Action::Return(0),
    ensures
        action(cspace_after(v, inv), inv) == Action::Kill(Refusal::Cap(CapError::EmptySlot)),
{
}

/// **Law:** the `Reply` that a receiver gets names the caller, and answering with it is allowed.
pub proof fn law_received_calls_can_be_answered(v: CSpaceView, caller: usize, inv: Invocation)
    requires
        v.place_error(REPLY_SLOT) is None,
        inv.op == op::ENDPOINT_REPLY,
        inv.cptr == REPLY_SLOT,
    ensures
        ({
            let after = v.placed(REPLY_SLOT as int, CSpaceView::reply_cap(caller as u64, 0), NIL);
            &&& after.cap(REPLY_SLOT as int).objref == caller
            &&& action(after, inv) == Action::Return(0)
        }),
{
}

/// **Law:** a notification that is raised before anybody waits is not lost, and wakes once.
pub proof fn law_signals_are_not_lost(c: Channels, id: usize)
    ensures
        c.raised().waiting(id).notify.signaled,
        c.waiting(id).raised().notify.signaled,
        !c.woken().notify.signaled,
{
}

/// **Law:** a process that was given the notification may wait for it, and may not raise it.
pub proof fn law_waiters_may_only_wait(v: CSpaceView, inv: Invocation)
    requires
        v.vacant(NOTIF_SLOT as int),
        inv.cptr == NOTIF_SLOT,
    ensures
        inv.op == op::NOTIFY_WAIT ==> action(with_notification(v), inv) == Action::AwaitSignal,
        inv.op == op::NOTIFY_SIGNAL ==> action(with_notification(v), inv) == Action::Kill(
            Refusal::Invoke(InvokeError::InsufficientRights),
        ),
{
    assert(0x800u32 & 0x800u32 == 0x800u32 && 0x800u32 & 0x100u32 != 0x100u32) by (bit_vector);
}

/// **Law:** a process that was given the shared region to read can ask where it is, and gets the
/// address that it is mapped at.
pub proof fn law_readers_find_the_region(v: CSpaceView, frame: u64, inv: Invocation)
    requires
        v.vacant(SHARED_SLOT as int),
        inv.cptr == SHARED_SLOT,
        inv.op == op::SHARED_QUERY,
    ensures
        action(v.placed(SHARED_SLOT as int, shared_window(frame), NIL), inv) == Action::Return(
            SHARED_VA,
        ),
{
    model::lemma_default_rights();
}

/// **Law:** what becomes of a system call, by the number of its operation. A call, a receive and a
/// wait go on waiting; what is emitted, the exit code and what is answered are those of the
/// capability and the arguments; and whoever holds too little is killed for the reason.
pub proof fn law_calls_do_what_they_name(v: CSpaceView, inv: Invocation)
    ensures
        ({
            let cap = v.slots[inv.cptr as int].cap;
            let refused = syscall::invoke_error(v, inv);
            &&& inv.op != 0x22 && refused is Some ==> action(v, inv) == Action::Kill(
                Refusal::Invoke(refused->0),
            )
            &&& inv.op != 0x22 && refused is None ==> action(v, inv) == (if inv.op == 0x20 {
                Action::AwaitReply
            } else if inv.op == 0x21 {
                Action::AwaitCall
            } else if inv.op == 0x40 {
                Action::AwaitSignal
            } else if inv.op == 0x41 {
                Action::Return(0)
            } else if inv.op == 0x10 {
                Action::Emit(inv.args@[0])
            } else if inv.op == 0x11 {
                Action::Exit(inv.args@[0])
            } else if inv.op == 3 {
                Action::Return(cap.badge)
            } else if inv.op == 2 {
                Action::Return(cap.objref)
            } else if inv.op == 0x30 {
                Action::Return((cap.aux * 4096) as u64)
            } else {
                Action::Return(((cap.cap_type as u8) * 0x1_0000_0000 + cap.rights.bits) as u64)
            })
            &&& inv.op == 0x22 ==> action(v, inv) == (if inv.cptr >= v.slots.len() {
                Action::Kill(Refusal::Cap(CapError::OutOfBounds))
            } else if cap.cap_type == CapType::Null {
                Action::Kill(Refusal::Cap(CapError::EmptySlot))
            } else if cap.cap_type != CapType::Reply {
                Action::Kill(Refusal::Cap(CapError::WrongType))
            } else {
                Action::Return(0)
            })
        }),
{
    if inv.op != 0x22 && syscall::invoke_error(v, inv) is None {
        syscall::law_answers_tell_of_the_capability(v, inv);
        syscall::law_operations_need_their_right(v, inv);
    }
}

/// **Law:** of what processes share, a call changes the meeting point, an answer the reply there, a
/// wait the waiter and a signal whether it was raised; nothing else changes by them, and nothing at
/// all by any other call.
pub proof fn law_calls_change_only_their_channel(
    v: CSpaceView,
    inv: Invocation,
    c: Channels,
    id: usize,
)
    requires
        action(v, inv) !is Kill,
    ensures
        ({
            let d = channels_after(c, id, v, inv);
            &&& d.rdv.caller == (if inv.op == 0x20 {
                Some(id)
            } else {
                c.rdv.caller
            })
            &&& d.rdv.msg == (if inv.op == 0x20 {
                inv.args@[0]
            } else {
                c.rdv.msg
            })
            &&& d.rdv.reply == (if inv.op == 0x20 {
                None
            } else if inv.op == 0x22 {
                Some(inv.args@[0])
            } else {
                c.rdv.reply
            })
            &&& d.notify.waiter == (if inv.op == 0x40 {
                Some(id)
            } else {
                c.notify.waiter
            })
            &&& d.notify.signaled == (c.notify.signaled || inv.op == 0x41)
        }),
{
}

/// **Law:** the only capability that a system call takes from a process is the `Reply` that it
/// answers with.
pub proof fn law_only_replies_are_used_up(v: CSpaceView, inv: Invocation, i: int)
    requires
        0 <= i < v.slots.len(),
    ensures
        cspace_after(v, inv).slots.len() == v.slots.len(),
        cspace_after(v, inv).zeroed == v.zeroed,
        cspace_after(v, inv).next_obj == v.next_obj,
        cspace_after(v, inv).slots[i] != v.slots[i] ==> inv.op == 0x22 && i == inv.cptr
            && v.slots[i].cap.cap_type == CapType::Reply,
        inv.op == 0x22 && i == inv.cptr && v.slots[i].cap.cap_type == CapType::Reply
            ==> cspace_after(v, inv).slots[i].cap.cap_type == CapType::Null,
{
}

/// **Law:** receiving and answering change the meeting point alone, waking the notification alone.
/// A message stays where it is until the next call, and an answer until it is taken.
pub proof fn law_steps_keep_the_rest(c: Channels, word: u64, id: usize, msg: u64)
    ensures
        c.called(id, msg).notify == c.notify,
        c.received().notify == c.notify,
        c.received().rdv.msg == c.rdv.msg,
        c.received().rdv.reply == c.rdv.reply,
        c.replied(word).notify == c.notify,
        c.replied(word).rdv.caller == c.rdv.caller,
        c.replied(word).rdv.msg == c.rdv.msg,
        c.answered().notify == c.notify,
        c.answered().rdv.msg == c.rdv.msg,
        c.waiting(id).rdv == c.rdv,
        c.waiting(id).notify.signaled == c.notify.signaled,
        c.waiting(id).notify.waiter == Some(id),
        c.raised().rdv == c.rdv,
        c.raised().notify.signaled,
        c.raised().notify.waiter == c.notify.waiter,
        c.woken().rdv == c.rdv,
        !c.woken().notify.signaled,
        c.woken().notify.waiter is None,
        Channels::quiet().rdv.caller is None,
        Channels::quiet().rdv.reply is None,
        Channels::quiet().rdv.msg == 0,
        !Channels::quiet().notify.signaled,
        Channels::quiet().notify.waiter is None,
{
}

/// **Law:** the notification and the shared region are given with the one right they are for, in a
/// slot of their own; whatever else the process holds stays.
pub proof fn law_gifts_are_narrow(v: CSpaceView, frame: u64, i: int)
    requires
        v.slots.len() > 5,
        0 <= i < v.slots.len(),
    ensures
        with_notification(v).slots[5].cap.cap_type == CapType::Notification,
        with_notification(v).slots[5].cap.rights.bits == 0x800,
        with_notification(v).slots[5].cap.objref == 0x0090_7117,
        i != 5 ==> with_notification(v).slots[i] == v.slots[i],
        shared_window(frame).cap_type == CapType::SharedRo,
        shared_window(frame).rights.bits == 1,
        shared_window(frame).objref == frame,
        shared_window(frame).size == 1,
        shared_window(frame).aux * 4096 == 0x4070_0000,
{
}

} // verus!
