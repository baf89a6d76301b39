//! Capability IPC between a client and a server: a call waits for its reply, carries capabilities
//! along, and is served on the caller's CPU time. A party that has to wait is polled again once it
//! is woken.

pub mod laws;

use crate::cap::cap::{CapType, RawCap};
use crate::cap::cspace::{grant, CSpace, CapError, Cptr, GrantMode};
use crate::cap::mdb;
use crate::cap::mdb::NIL;
use crate::cap::model;
use crate::cap::model::CSpaceView;
use crate::cap::rights::Rights;
use crate::cap::sched::Budget;
use crate::cap::zero::ZeroFrames;
use crate::ipc::endpoint::{EndpointState, EndpointView, RecvOutcome, SendOutcome};
use crate::ipc::message::{at_most, CapXfer, Message, MAX_CAPS, MSG_REGS};
use crate::ipc::PartyId;
use std::collections::BTreeMap;
use vstd::prelude::*;

verus! {

broadcast use vstd::laws_cmp::group_laws_cmp;

/// The number of slots of either party.
pub const SLOTS: usize = 16;

/// The client.
pub const CLIENT: PartyId = 1;

/// The server.
pub const SERVER: PartyId = 2;

/// The slot of the client's `Untyped`.
pub const CLIENT_UNTYPED: Cptr = 0;

/// The frames of that `Untyped`.
pub const FRAMES: u32 = 16;

/// The slot of the client's frame, which goes to the server.
pub const CLIENT_FRAME: Cptr = 1;

/// The slot of the client's endpoint.
pub const CLIENT_EP: Cptr = 2;

/// The slot of the server's endpoint.
pub const SERVER_EP: Cptr = 1;

/// The first slot that received capabilities go to.
pub const SERVER_RECV_BASE: Cptr = 5;

/// The slot that the server gets its `Reply` in.
pub const SERVER_REPLY_SLOT: Cptr = 10;

/// The client's CPU time.
pub const CLIENT_BUDGET: u32 = 100;

/// What the client lends the server for a call.
pub const CALL_DELEGATE: u32 = 50;

/// What the server takes for a call.
pub const WORK_UNITS: u32 = 30;

/// The word that the client sends.
pub const REQ_WORD: u64 = 0x00C0_FFEE;

/// The method that the client calls.
pub const LABEL: u32 = 0xABCD;

/// What the parties share.
pub struct IpcWorld<Z: ZeroFrames> {
    /// Where they meet.
    endpoint: EndpointState,
    /// What the client holds.
    client_cs: CSpace<SLOTS, Z>,
    /// What the server holds.
    server_cs: CSpace<SLOTS, Z>,
    /// The client's CPU time.
    client_budget: Budget,
    /// The server's CPU time.
    server_budget: Budget,
    /// The request for a receiver that waited, and who sent it.
    delivered: BTreeMap<PartyId, (PartyId, Message)>,
    /// The response for a caller that waits.
    responses: BTreeMap<PartyId, Message>,
}

/// The state of an [`IpcWorld`].
#[verifier::ext_equal]
pub struct WorldView {
    pub endpoint: EndpointView,
    pub client: CSpaceView,
    pub server: CSpaceView,
    pub client_budget: Budget,
    pub server_budget: Budget,
    pub delivered: Map<PartyId, (PartyId, Message)>,
    pub responses: Map<PartyId, Message>,
}

impl<Z: ZeroFrames> View for IpcWorld<Z> {
    type V = WorldView;

    closed spec fn view(&self) -> WorldView {
        WorldView {
            endpoint: self.endpoint@,
            client: self.client_cs@,
            server: self.server_cs@,
            client_budget: self.client_budget,
            server_budget: self.server_budget,
            delivered: self.delivered@,
            responses: self.responses@,
        }
    }
}

/// The transfers of a message that count.
pub open spec fn transfers_of(msg: Message) -> Seq<CapXfer> {
    msg.caps@.take(at_most(msg.info.n_caps as int, MAX_CAPS as int))
}

/// What client and server hold after the first `n` transfers, and the error that stopped them. The
/// capabilities go to the server's slots one after the other, with the badge of the message.
pub open spec fn transferred(
    client: CSpaceView,
    server: CSpaceView,
    xs: Seq<CapXfer>,
    badge: u64,
    n: int,
) -> (CSpaceView, CSpaceView, Option<CapError>)
    decreases n,
{
    if n <= 0 {
        (client, server, None)
    } else {
        let (c, s, e) = transferred(client, server, xs, badge, n - 1);
        let x = xs[n - 1];
        let dest = (SERVER_RECV_BASE + (n - 1)) as usize;
        if e is Some {
            (c, s, e)
        } else {
            match model::grant_error(c, x.src, s, dest, x.rights, x.mode) {
                Some(e) => (c, s, Some(e)),
                None => (
                    if x.mode == GrantMode::Move {
                        c.vacated(x.src as int)
                    } else {
                        c
                    },
                    s.placed(
                        dest as int,
                        RawCap { rights: x.rights, badge, ..c.cap(x.src as int) },
                        NIL,
                    ),
                    None,
                ),
            }
        }
    }
}

impl WorldView {
    /// The client and the server after a request of `sender` was taken in, and why that failed. The
    /// server gets a `Reply` that names the sender, and then the transfers of the message.
    pub open spec fn requested(self, sender: PartyId, msg: Message) -> (WorldView, Option<
        CapError,
    >) {
        match self.server.place_error(SERVER_REPLY_SLOT) {
            Some(e) => (self, Some(e)),
            None => {
                let xs = transfers_of(msg);
                let (c, s, e) = transferred(
                    self.client,
                    self.server.placed(
                        SERVER_REPLY_SLOT as int,
                        CSpaceView::reply_cap(sender, sender),
                        NIL,
                    ),
                    xs,
                    sender,
                    xs.len() as int,
                );
                (WorldView { client: c, server: s, ..self }, e)
            },
        }
    }

    /// After `party` has sent `msg`: a waiting receiver has it, or the endpoint.
    pub open spec fn sent(self, party: PartyId, msg: Message) -> WorldView {
        if self.endpoint.receivers.len() > 0 {
            WorldView {
                endpoint: EndpointView {
                    receivers: self.endpoint.receivers.drop_first(),
                    ..self.endpoint
                },
                delivered: self.delivered.insert(self.endpoint.receivers[0], (party, msg)),
                ..self
            }
        } else {
            WorldView {
                endpoint: EndpointView {
                    senders: self.endpoint.senders.push((party, msg)),
                    ..self.endpoint
                },
                ..self
            }
        }
    }
}

/// A call in progress.
pub struct Call {
    party: PartyId,
    msg: Message,
    sent: bool,
}

/// What polling a call leads to.
pub enum CallStep {
    /// The caller waits. The receiver that its message went to is to be woken.
    Pending { wake: Option<PartyId> },
    /// The response is here.
    Ready { response: Message },
}

/// A receive in progress.
pub struct Recv {
    party: PartyId,
    tried: bool,
}

/// What polling a receive leads to.
pub enum RecvStep {
    /// The receiver waits.
    Pending,
    /// A request is here, with the slot of its `Reply`.
    Ready { request: Message, reply_slot: Cptr },
}

impl Call {
    /// Who calls, with what, and whether the message is on its way.
    pub closed spec fn state(&self) -> (PartyId, Message, bool) {
        (self.party, self.msg, self.sent)
    }
}

impl Recv {
    /// Who receives, and whether it has come to the endpoint.
    pub closed spec fn state(&self) -> (PartyId, bool) {
        (self.party, self.tried)
    }
}

/// A call of `party`, which sends `msg` when it is polled first.
pub fn call(party: PartyId, msg: Message) -> (c: Call)
    ensures
        c.state() == (party, msg, false),
{
    Call { party, msg, sent: false }
}

/// A receive by `party`.
pub fn recv(party: PartyId) -> (r: Recv)
    ensures
        r.state() == (party, false),
{
    Recv { party, tried: false }
}

impl<Z: ZeroFrames> IpcWorld<Z> {
    /// The parties' capabilities and the endpoint are sound.
    pub closed spec fn wf(&self) -> bool {
        &&& self.endpoint.wf()
        &&& self.client_cs.wf()
        &&& self.server_cs.wf()
    }

    /// Two parties that have not met, with what they hold. The server has no CPU time of its own.
    pub fn new(client_cs: CSpace<SLOTS, Z>, server_cs: CSpace<SLOTS, Z>) -> (w: IpcWorld<Z>)
        requires
            client_cs.wf(),
            server_cs.wf(),
        ensures
            w.wf(),
            w@ == (WorldView {
                endpoint: EndpointView { senders: Seq::empty(), receivers: Seq::empty() },
                client: client_cs@,
                server: server_cs@,
                client_budget: Budget { capacity: CLIENT_BUDGET, consumed: 0, period: CLIENT_BUDGET },
                server_budget: Budget { capacity: 0, consumed: 0, period: CLIENT_BUDGET },
                delivered: Map::empty(),
                responses: Map::empty(),
            }),
    {
        IpcWorld {
            endpoint: EndpointState::new(),
            client_cs,
            server_cs,
            client_budget: Budget::new(CLIENT_BUDGET, CLIENT_BUDGET),
            server_budget: Budget::new(0, CLIENT_BUDGET),
            delivered: BTreeMap::new(),
            responses: BTreeMap::new(),
        }
    }

    /// Take in a request of `sender` for the server: it is stamped with the sender, the server gets
    /// its single-use `Reply`, and the capabilities are handed over.
    pub fn on_request(&mut self, sender: PartyId, msg: Message) -> (r: Result<
        (Message, Cptr),
        CapError,
    >)
        requires
            old(self).wf(),
        ensures
            final(self).wf(),
            final(self)@ == old(self)@.requested(sender, msg).0,
            match r {
                Ok((m, slot)) => {
                    &&& old(self)@.requested(sender, msg).1 is None
                    &&& m == (Message { badge: sender, ..msg })
                    &&& slot == SERVER_REPLY_SLOT
                    &&& forall|k: int|
                        0 <= k < msg.info.n_caps && k < MAX_CAPS ==> {
                            let x = #[trigger] msg.caps@[k];
                            let from = old(self)@.client.cap(x.src as int);
                            &&& final(self)@.server.cap(SERVER_RECV_BASE + k) == (RawCap {
                                rights: x.rights,
                                badge: sender,
                                ..from
                            })
                            &&& x.mode == GrantMode::Move ==> final(self)@.client.vacant(
                                x.src as int,
                            )
                        }
                },
                Err(e) => old(self)@.requested(sender, msg).1 == Some(e),
            },
    {
        let mut stamped: Message = msg;
        stamped.badge = sender;
        match self.server_cs.mint_reply(SERVER_REPLY_SLOT, sender, sender) {
            Err(e) => {
                return Err(e);
            },
            Ok(()) => {},
        }
        let ghost c0 = self.client_cs@;
        let ghost s0 = self.server_cs@;
        let ghost xs = transfers_of(msg);
        let transfers: &[CapXfer] = stamped.transfers();
        let n: usize = transfers.len();
        let mut i: usize = 0;
        while i < n
            invariant
                i <= n,
                n == xs.len(),
                n <= MAX_CAPS,
                transfers@ == xs,
                self.wf(),
                self@ == (WorldView { client: self@.client, server: self@.server, ..old(self)@ }),
                transferred(c0, s0, xs, sender, i as int) == (
                    self@.client,
                    self@.server,
                    None::<CapError>,
                ),
                xs == transfers_of(msg),
                c0 == old(self)@.client,
                old(self)@.server.place_error(SERVER_REPLY_SLOT) is None,
                s0 == old(self)@.server.placed(
                    SERVER_REPLY_SLOT as int,
                    CSpaceView::reply_cap(sender, sender),
                    NIL,
                ),
            decreases n - i,
        {
            let x: CapXfer = transfers[i];
            match grant(
                &mut self.client_cs,
                x.src,
                &mut self.server_cs,
                SERVER_RECV_BASE + i,
                x.rights,
                sender,
                x.mode,
            ) {
                Err(e) => {
                    proof {
                        lemma_stopped(c0, s0, xs, sender, i + 1, n as int);
                    }
                    return Err(e);
                },
                Ok(()) => {},
            }
            i = i + 1;
        }
        proof {
            assert forall|k: int| 0 <= k < msg.info.n_caps && k < MAX_CAPS implies {
                let x = #[trigger] msg.caps@[k];
                let from = old(self)@.client.cap(x.src as int);
                &&& self@.server.cap(SERVER_RECV_BASE + k) == (RawCap {
                    rights: x.rights,
                    badge: sender,
                    ..from
                })
                &&& x.mode == GrantMode::Move ==> self@.client.vacant(x.src as int)
            } by {
                laws::law_request_hands_over_every_capability(old(self)@, sender, msg, k);
                laws::law_request_changes_nothing_else(old(self)@, sender, msg, 0);
            }
        }
        Ok((stamped, SERVER_REPLY_SLOT))
    }

    /// Answer with the `Reply` in `reply_slot`, which is used up: the caller that it names gets
    /// `resp`, and is to be woken. `None` if there is no `Reply` there.
    pub fn do_reply(&mut self, reply_slot: Cptr, resp: Message) -> (caller: Option<PartyId>)
        requires
            old(self).wf(),
        ensures
            final(self).wf(),
            match old(self)@.server.reply_error(reply_slot) {
                None => {
                    let who = old(self)@.server.cap(reply_slot as int).objref;
                    &&& caller == Some(who)
                    &&& final(self)@ == (WorldView {
                        server: old(self)@.server.vacated(reply_slot as int),
                        responses: old(self)@.responses.insert(who, resp),
                        ..old(self)@
                    })
                },
                Some(_) => caller is None && final(self)@ == old(self)@,
            },
    {
        match self.server_cs.consume_reply(reply_slot) {
            Ok(who) => {
                self.responses.insert(who, resp);
                Some(who)
            },
            Err(_) => None,
        }
    }

    /// One step of a call: send the message, and then look for the response.
    pub fn poll_call(&mut self, c: &mut Call) -> (step: CallStep)
        requires
            old(self).wf(),
        ensures
            final(self).wf(),
            final(c).state() == (old(c).state().0, old(c).state().1, true),
            ({
                let (party, msg, sent) = old(c).state();
                if !sent {
                    &&& final(self)@ == old(self)@.sent(party, msg)
                    &&& step == (CallStep::Pending {
                        wake: if old(self)@.endpoint.receivers.len() > 0 {
                            Some(old(self)@.endpoint.receivers[0])
                        } else {
                            None
                        },
                    })
                } else if old(self)@.responses.contains_key(party) {
                    &&& step == (CallStep::Ready { response: old(self)@.responses[party] })
                    &&& final(self)@ == (WorldView {
                        responses: old(self)@.responses.remove(party),
                        ..old(self)@
                    })
                } else {
                    &&& step == (CallStep::Pending { wake: None })
                    &&& final(self)@ == old(self)@
                }
            }),
    {
        if !c.sent {
            c.sent = true;
            match self.endpoint.send(c.party, c.msg) {
                SendOutcome::Delivered { receiver, msg } => {
                    self.delivered.insert(receiver, (c.party, msg));
                    CallStep::Pending { wake: Some(receiver) }
                },
                SendOutcome::Queued => CallStep::Pending { wake: None },
            }
        } else {
            match self.responses.remove(&c.party) {
                Some(response) => CallStep::Ready { response },
                None => {
                    assert(self.responses@ =~= old(self).responses@);
                    CallStep::Pending { wake: None }
                },
            }
        }
    }

    /// One step of a receive: take a request that was delivered meanwhile, or one that waits at the
    /// endpoint.
    pub fn poll_recv(&mut self, r: &mut Recv) -> (step: Result<RecvStep, CapError>)
        requires
            old(self).wf(),
        ensures
            final(self).wf(),
            final(r).state().0 == old(r).state().0,
            ({
                let (party, tried) = old(r).state();
                let v = old(self)@;
                if v.delivered.contains_key(party) {
                    let (sender, msg) = v.delivered[party];
                    let taken = WorldView { delivered: v.delivered.remove(party), ..v };
                    &&& final(r).state().1 == tried
                    &&& final(self)@ == taken.requested(sender, msg).0
                    &&& step == received(taken, sender, msg)
                } else if !tried && v.endpoint.senders.len() > 0 {
                    let (sender, msg) = v.endpoint.senders[0];
                    let taken = WorldView {
                        endpoint: EndpointView {
                            senders: v.endpoint.senders.drop_first(),
                            ..v.endpoint
                        },
                        ..v
                    };
                    &&& final(r).state().1
                    &&& final(self)@ == taken.requested(sender, msg).0
                    &&& step == received(taken, sender, msg)
                } else {
                    &&& final(r).state().1
                    &&& step == Ok::<RecvStep, CapError>(RecvStep::Pending)
                    &&& final(self)@ == (if tried {
                        v
                    } else {
                        WorldView {
                            endpoint: EndpointView {
                                receivers: v.endpoint.receivers.push(party),
                                ..v.endpoint
                            },
                            ..v
                        }
                    })
                }
            }),
    {
        match self.delivered.remove(&r.party) {
            Some((sender, msg)) => {
                return match self.on_request(sender, msg) {
                    Err(e) => Err(e),
                    Ok((request, reply_slot)) => Ok(RecvStep::Ready { request, reply_slot }),
                };
            },
            None => {
                assert(self.delivered@ =~= old(self).delivered@);
            },
        }
        if !r.tried {
            r.tried = true;
            match self.endpoint.recv(r.party) {
                RecvOutcome::Received { sender, msg } => {
                    return match self.on_request(sender, msg) {
                        Err(e) => Err(e),
                        Ok((request, reply_slot)) => Ok(RecvStep::Ready { request, reply_slot }),
                    };
                },
                RecvOutcome::Queued => {},
            }
        }
        Ok(RecvStep::Pending)
    }
}

/// Why a party may not use the endpoint.
#[derive(Clone, Copy, PartialEq, Eq, Structural, Debug)]
pub enum EndpointRefusal {
    /// It holds nothing there.
    Cap(CapError),
    /// It holds no endpoint with the right.
    NoRight,
}

/// Why a party that holds `v` may not use the endpoint in slot `c` for what needs `right`.
pub open spec fn endpoint_refusal(v: CSpaceView, c: Cptr, right: Rights) -> Option<
    EndpointRefusal,
> {
    match v.resolve_error(c) {
        Some(e) => Some(EndpointRefusal::Cap(e)),
        None => if v.cap(c as int).cap_type != CapType::Endpoint || !v.cap(
            c as int,
        ).rights.includes(right) {
            Some(EndpointRefusal::NoRight)
        } else {
            None
        },
    }
}

/// Whether the party that holds `cs` may use the endpoint in `ep_slot` for what needs `right`.
pub fn authorize_endpoint<Z: ZeroFrames>(cs: &CSpace<SLOTS, Z>, ep_slot: Cptr, right: Rights) -> (r:
    Result<(), EndpointRefusal>)
    requires
        cs.wf(),
    ensures
        r == (match endpoint_refusal(cs@, ep_slot, right) {
            Some(e) => Err(e),
            None => Ok::<(), EndpointRefusal>(()),
        }),
{
    match cs.resolve(ep_slot) {
        Err(e) => Err(EndpointRefusal::Cap(e)),
        Ok(ep) => if ep.cap_type != CapType::Endpoint || !ep.rights.contains(right) {
            Err(EndpointRefusal::NoRight)
        } else {
            Ok(())
        },
    }
}

/// The request: a word, and the client's frame, to be read.
pub open spec fn is_request(msg: Message) -> bool {
    &&& msg.info.label == LABEL
    &&& msg.words() == seq![REQ_WORD]
    &&& transfers_of(msg) == seq![
        CapXfer { src: CLIENT_FRAME, rights: Rights { bits: 1 }, mode: GrantMode::Move },
    ]
    &&& forall|i: int| 1 <= i < MSG_REGS ==> #[trigger] msg.regs@[i] == 0
    &&& forall|k: int| 1 <= k < MAX_CAPS ==> #[trigger] msg.caps@[k] == CapXfer::none_spec()
    &&& msg.badge == 0
}

/// The answer to a request: the same method, and the word after the first one of the request.
pub open spec fn is_answer(resp: Message, req: Message) -> bool {
    let word = req.words()[0];
    &&& resp.info.label == req.info.label
    &&& resp.words() == seq![
        if word == u64::MAX {
            0u64
        } else {
            (word + 1) as u64
        },
    ]
    &&& transfers_of(resp).len() == 0
    &&& forall|i: int| 1 <= i < MSG_REGS ==> #[trigger] resp.regs@[i] == 0
    &&& forall|k: int| 0 <= k < MAX_CAPS ==> #[trigger] resp.caps@[k] == CapXfer::none_spec()
    &&& resp.badge == 0
}

/// CPU time after `amount` of it was lent.
pub open spec fn lent(from: Budget, to: Budget, amount: u32) -> (Budget, Budget) {
    if from.can_give(amount) && to.capacity + amount <= u32::MAX {
        (
            Budget { capacity: (from.capacity - amount) as u32, ..from },
            Budget { capacity: (to.capacity + amount) as u32, ..to },
        )
    } else {
        (from, to)
    }
}

/// The server's CPU time after it has worked.
pub open spec fn worked(b: Budget) -> Budget {
    Budget {
        consumed: if b.consumed + WORK_UNITS > u32::MAX {
            u32::MAX
        } else {
            (b.consumed + WORK_UNITS) as u32
        },
        ..b
    }
}

impl<Z: ZeroFrames> IpcWorld<Z> {
    /// The client's part of a call: it lends the server CPU time and writes the request.
    pub fn request(&mut self) -> (msg: Message)
        requires
            old(self).wf(),
        ensures
            final(self).wf(),
            is_request(msg),
            ({
                let (c, s) = lent(old(self)@.client_budget, old(self)@.server_budget, CALL_DELEGATE);
                final(self)@ == (WorldView { client_budget: c, server_budget: s, ..old(self)@ })
            }),
    {
        let _moved: bool = self.client_budget.delegate(&mut self.server_budget, CALL_DELEGATE);
        let words: [u64; 1] = [REQ_WORD];
        let mut msg = Message::with_data(LABEL, &words);
        msg.info.n_caps = 1;
        msg.caps[0] = CapXfer { src: CLIENT_FRAME, rights: Rights::read(), mode: GrantMode::Move };
        proof {
            assert(msg.words() =~= seq![REQ_WORD]);
            assert(transfers_of(msg) =~= seq![msg.caps@[0]]);
        }
        msg
    }

    /// The server's part: it works on the CPU time that the caller lent it, answers, and gives back
    /// what it did not use. Whom to wake.
    pub fn serve(&mut self, req: &Message, reply_slot: Cptr) -> (caller: Option<PartyId>)
        requires
            old(self).wf(),
            req.words().len() > 0,
        ensures
            final(self).wf(),
            ({
                let v = old(self)@;
                let work = worked(v.server_budget);
                let (s, c) = lent(work, v.client_budget, work.available() as u32);
                match v.server.reply_error(reply_slot) {
                    None => {
                        let who = v.server.cap(reply_slot as int).objref;
                        let resp = final(self)@.responses[who];
                        &&& caller == Some(who)
                        &&& is_answer(resp, *req)
                        &&& final(self)@ == (WorldView {
                            server: v.server.vacated(reply_slot as int),
                            responses: v.responses.insert(who, resp),
                            client_budget: c,
                            server_budget: s,
                            ..v
                        })
                    },
                    Some(_) => {
                        &&& caller is None
                        &&& final(self)@ == (WorldView { client_budget: c, server_budget: s, ..v })
                    },
                }
            }),
    {
        let word: u64 = req.data()[0];
        let words: [u64; 1] = [word.wrapping_add(1)];
        let resp = Message::with_data(req.info.label, &words);
        proof {
            assert(resp.words() =~= seq![words@[0]]);
        }
        self.server_budget.charge(WORK_UNITS);
        let caller: Option<PartyId> = self.do_reply(reply_slot, resp);
        let unused: u32 = self.server_budget.remaining();
        let _moved: bool = self.server_budget.delegate(&mut self.client_budget, unused);
        caller
    }
}

/// What a receiver gets of a request.
pub open spec fn received(v: WorldView, sender: PartyId, msg: Message) -> Result<
    RecvStep,
    CapError,
> {
    match v.requested(sender, msg).1 {
        None => Ok(
            RecvStep::Ready {
                request: Message { badge: sender, ..msg },
                reply_slot: SERVER_REPLY_SLOT,
            },
        ),
        Some(e) => Err(e),
    }
}

/// Transfers that were stopped stay stopped.
proof fn lemma_stopped(
    client: CSpaceView,
    server: CSpaceView,
    xs: Seq<CapXfer>,
    badge: u64,
    i: int,
    n: int,
)
    requires
        0 <= i <= n,
        transferred(client, server, xs, badge, i).2 is Some,
    ensures
        transferred(client, server, xs, badge, n) == transferred(client, server, xs, badge, i),
    decreases n - i,
{
    if i < n {
        assert(transferred(client, server, xs, badge, i + 1) == transferred(
            client,
            server,
            xs,
            badge,
            i,
        ));
        lemma_stopped(client, server, xs, badge, i + 1, n);
    }
}

/// The client of the round trip: an `Untyped` over the frames from `base` on, of which one has become
/// a frame and one the endpoint.
pub open spec fn is_client(v: CSpaceView, base: u64) -> bool {
    &&& v.slots.len() == SLOTS
    &&& v.cap(CLIENT_FRAME as int) == (RawCap {
        cap_type: CapType::Frame,
        rights: model::default_rights_spec(CapType::Frame),
        objref: base,
        size: 1,
        watermark: 0,
        aux: 0,
        badge: 0,
    })
    &&& !mdb::has_child(v.slots, CLIENT_FRAME as int)
    &&& v.cap(CLIENT_EP as int) == (RawCap {
        cap_type: CapType::Endpoint,
        rights: model::default_rights_spec(CapType::Endpoint),
        objref: (base + 1) as u64,
        size: 1,
        watermark: 0,
        aux: 0,
        badge: 0,
    })
}

/// The server of the round trip: the endpoint, to receive on, and nothing else.
pub open spec fn is_server(v: CSpaceView, base: u64) -> bool {
    &&& v.slots.len() == SLOTS
    &&& v.cap(SERVER_EP as int) == (RawCap {
        cap_type: CapType::Endpoint,
        rights: Rights { bits: 0x80 },
        objref: (base + 1) as u64,
        size: 1,
        watermark: 0,
        aux: 0,
        badge: 0,
    })
    &&& forall|i: int| 0 <= i < SLOTS && i != SERVER_EP ==> v.vacant(i)
}

/// The frames that making the parties clears: that of the client's frame, and that of the endpoint.
pub open spec fn parties_cleared(base: u64) -> Seq<(u64, u32)> {
    seq![(base, 1u32), ((base + 1) as u64, 1u32)]
}

/// The two parties of the round trip, over the frames from `base` on. The server gets its endpoint
/// from the client, to receive on alone.
pub fn parties<Z: ZeroFrames>(base: u64, client_zero: Z, server_zero: Z) -> (r: Result<
    (CSpace<SLOTS, Z>, CSpace<SLOTS, Z>),
    CapError,
>)
    requires
        base < u64::MAX,
    ensures
        r is Ok,
        r matches Ok((client, server)) ==> {
            &&& client.wf()
            &&& server.wf()
            &&& is_client(client@, base)
            &&& is_server(server@, base)
            &&& client@.zeroed == client_zero.zeroed() + parties_cleared(base)
            &&& server@.zeroed == server_zero.zeroed()
        },
{
    let mut client: CSpace<SLOTS, Z> = CSpace::new(client_zero);
    proof {
        model::lemma_default_rights();
        if mdb::has_child(client@.slots, 0) {
            let i = choose|i: int| mdb::child_of(client@.slots, i, 0);
            assert(!mdb::live(client@.slots, i));
        }
    }
    client.set_root_untyped(base, FRAMES);
    match client.retype(CLIENT_UNTYPED, CapType::Frame, 1, 1, CLIENT_FRAME) {
        Err(e) => {
            return Err(e);
        },
        Ok(()) => {},
    }
    match client.retype(CLIENT_UNTYPED, CapType::Endpoint, 1, 1, CLIENT_EP) {
        Err(e) => {
            return Err(e);
        },
        Ok(()) => {},
    }
    proof {
        if mdb::has_child(client@.slots, CLIENT_FRAME as int) {
            let i = choose|i: int| mdb::child_of(client@.slots, i, CLIENT_FRAME as int);
            assert(mdb::live(client@.slots, i));
        }
    }
    let mut server: CSpace<SLOTS, Z> = CSpace::new(server_zero);
    match grant(
        &mut client,
        CLIENT_EP,
        &mut server,
        SERVER_EP,
        Rights::recv(),
        0,
        GrantMode::Mint,
    ) {
        Err(e) => {
            return Err(e);
        },
        Ok(()) => {},
    }
    assert(client@.zeroed =~= client_zero.zeroed() + parties_cleared(base));
    Ok((client, server))
}

/// What a round trip came to.
pub struct IpcReport {
    /// The words of the response.
    pub response: Message,
    /// What the server holds of the client's frame.
    pub granted: RawCap,
    /// Whether the client still holds it.
    pub client_holds: bool,
    /// What a second answer came to.
    pub second_reply: Result<u64, CapError>,
    /// The CPU time that the client has left.
    pub client_left: u32,
    /// The CPU time that the server has left.
    pub server_left: u32,
}

/// Why a round trip failed.
#[derive(Clone, Copy, PartialEq, Eq, Structural, Debug)]
pub enum IpcFailure {
    /// A capability operation was refused.
    Cap(CapError),
    /// A party may not use the endpoint.
    Endpoint(EndpointRefusal),
    /// No request came to the server, or no response to the client.
    NoMatch,
}

/// A call with its reply, from end to end: the client calls, the server serves, the client has its
/// response. Whatever the frames, it succeeds: the response is the word after the one that was
/// sent; the frame has moved to the server, to be read; the `Reply` is used up; and the client has
/// paid for the work, as the server has no CPU time of its own. The frames of the client's frame
/// and of the endpoint are cleared, and no others.
pub fn run<Z: ZeroFrames>(base: u64, client_zero: Z, server_zero: Z) -> (r: Result<
    (IpcReport, CSpace<SLOTS, Z>, CSpace<SLOTS, Z>),
    IpcFailure,
>)
    requires
        base < u64::MAX,
    ensures
        r is Ok,
        r matches Ok((rep, client, server)) ==> {
            &&& rep.response.words() == seq![(REQ_WORD + 1) as u64]
            &&& rep.response.info.label == LABEL
            &&& rep.response.badge == 0
            &&& rep.granted == (RawCap {
                cap_type: CapType::Frame,
                rights: Rights { bits: 1 },
                objref: base,
                size: 1,
                watermark: 0,
                aux: 0,
                badge: CLIENT,
            })
            &&& !rep.client_holds
            &&& rep.second_reply == Err::<u64, CapError>(CapError::EmptySlot)
            &&& rep.client_left == CLIENT_BUDGET - WORK_UNITS
            &&& rep.server_left == 0
            &&& client@.zeroed == client_zero.zeroed() + parties_cleared(base)
            &&& server@.zeroed == server_zero.zeroed()
        },
{
    proof {
        model::lemma_default_rights();
    }
    let mut w: IpcWorld<Z> = match parties(base, client_zero, server_zero) {
        Err(e) => {
            return Err(IpcFailure::Cap(e));
        },
        Ok((client, server)) => IpcWorld::new(client, server),
    };
    match authorize_endpoint(&w.client_cs, CLIENT_EP, Rights::send()) {
        Err(e) => {
            return Err(IpcFailure::Endpoint(e));
        },
        Ok(()) => {},
    }
    let msg: Message = w.request();
    let mut c: Call = call(CLIENT, msg);
    let _first = w.poll_call(&mut c);
    match authorize_endpoint(&w.server_cs, SERVER_EP, Rights::recv()) {
        Err(e) => {
            return Err(IpcFailure::Endpoint(e));
        },
        Ok(()) => {},
    }
    let ghost before = w@;
    proof {
        lemma_request_taken(before, base, msg);
    }
    let mut r: Recv = recv(SERVER);
    match w.poll_recv(&mut r) {
        Err(e) => {
            return Err(IpcFailure::Cap(e));
        },
        Ok(RecvStep::Pending) => {
            return Err(IpcFailure::NoMatch);
        },
        Ok(RecvStep::Ready { request, reply_slot }) => {
            assert(request.words() == msg.words());
            let _caller = w.serve(&request, reply_slot);
        },
    }
    let response: Message = match w.poll_call(&mut c) {
        CallStep::Pending { wake: _ } => {
            return Err(IpcFailure::NoMatch);
        },
        CallStep::Ready { response } => response,
    };
    let granted: RawCap = match w.server_cs.resolve(SERVER_RECV_BASE) {
        Err(e) => {
            return Err(IpcFailure::Cap(e));
        },
        Ok(cap) => cap,
    };
    let client_holds: bool = w.client_cs.resolve(CLIENT_FRAME).is_ok();
    let second_reply: Result<u64, CapError> = w.server_cs.consume_reply(SERVER_REPLY_SLOT);
    let report = IpcReport {
        response,
        granted,
        client_holds,
        second_reply,
        client_left: w.client_budget.remaining(),
        server_left: w.server_budget.remaining(),
    };
    Ok((report, w.client_cs, w.server_cs))
}

/// Taking in the request of the round trip succeeds.
proof fn lemma_request_taken(v: WorldView, base: u64, msg: Message)
    requires
        is_client(v.client, base),
        is_server(v.server, base),
        is_request(msg),
    ensures
        ({
            let taken = WorldView {
                endpoint: EndpointView { senders: Seq::empty(), receivers: Seq::empty() },
                ..v
            };
            let (after, e) = taken.requested(CLIENT, msg);
            &&& e is None
            &&& after == (WorldView {
                client: v.client.vacated(CLIENT_FRAME as int),
                server: v.server.placed(
                    SERVER_REPLY_SLOT as int,
                    CSpaceView::reply_cap(CLIENT, CLIENT),
                    NIL,
                ).placed(
                    SERVER_RECV_BASE as int,
                    RawCap {
                        rights: Rights { bits: 1 },
                        badge: CLIENT,
                        ..v.client.cap(CLIENT_FRAME as int)
                    },
                    NIL,
                ),
                ..taken
            })
        }),
{
    model::lemma_default_rights();
    let xs = transfers_of(msg);
    let s = v.server.placed(
        SERVER_REPLY_SLOT as int,
        CSpaceView::reply_cap(CLIENT, CLIENT),
        NIL,
    );
    assert(v.server.vacant(SERVER_REPLY_SLOT as int));
    assert(v.server.vacant(SERVER_RECV_BASE as int));
    assert(xs.len() == 1);
    reveal_with_fuel(transferred, 2);
    assert(s.place_error(SERVER_RECV_BASE) is None);
}

} // verus!
