//! What a call does to those who take part in it.

use crate::cap::cap::{CapType, RawCap};
use crate::cap::cspace::{CapError, Cptr, GrantMode};
use crate::cap::mdb;
use crate::cap::mdb::NIL;
use crate::cap::model;
use crate::cap::model::CSpaceView;
use crate::cap::outcomes;
use crate::cap::rights::Rights;
use crate::cap::sched::Budget;
use crate::ipc::message::{CapXfer, Message};
use crate::ipc::PartyId;
use crate::kernel::ipc;
use crate::kernel::ipc::{EndpointRefusal, RecvStep, WorldView};
use vstd::prelude::*;

verus! {

/// The smaller of two numbers.
pub open spec fn least(a: int, b: int) -> int {
    if a <= b {
        a
    } else {
        b
    }
}

/// Of the transfers of a message the first ones count, as many as it says and two at most.
pub proof fn law_transfers_that_count(msg: Message)
    ensures
        ipc::transfers_of(msg).len() == (if msg.info.n_caps <= 2 {
            msg.info.n_caps as int
        } else {
            2
        }),
        forall|k: int|
            0 <= k < msg.info.n_caps && k < 2 ==> #[trigger] ipc::transfers_of(msg)[k]
                == msg.caps@[k],
{
}

/// The client's slot `i` is the source of one of the first `n` transfers that move.
pub open spec fn moves_out(xs: Seq<CapXfer>, n: int, i: int) -> bool {
    exists|k: int| 0 <= k < n && (#[trigger] xs[k]).src == i && xs[k].mode == GrantMode::Move
}

/// `cap` is what `x` makes of `from`: its rights, the badge of the message, and otherwise the same.
pub open spec fn handed_over(from: RawCap, x: CapXfer, badge: u64, cap: RawCap) -> bool {
    &&& cap.cap_type == from.cap_type
    &&& cap.objref == from.objref
    &&& cap.size == from.size
    &&& cap.watermark == from.watermark
    &&& cap.aux == from.aux
    &&& cap.rights.bits == x.rights.bits
    &&& cap.badge == badge
}

/// What the first `n` transfers leave.
proof fn lemma_transferred(
    client: CSpaceView,
    server: CSpaceView,
    xs: Seq<CapXfer>,
    badge: u64,
    n: int,
)
    requires
        0 <= n <= xs.len(),
        n <= 1000,
        ipc::transferred(client, server, xs, badge, n).2 is None,
    ensures
        ({
            let (c, s, e) = ipc::transferred(client, server, xs, badge, n);
            &&& c.slots.len() == client.slots.len()
            &&& c.next_obj == client.next_obj
            &&& c.zeroed == client.zeroed
            &&& s.slots.len() == server.slots.len()
            &&& s.next_obj == server.next_obj
            &&& s.zeroed == server.zeroed
            &&& forall|k: int|
                0 <= k < n ==> {
                    let x = #[trigger] xs[k];
                    &&& x.src < client.slots.len()
                    &&& client.cap(x.src as int).cap_type != CapType::Null
                    &&& client.cap(x.src as int).rights.includes(x.rights)
                    &&& 5 + k < server.slots.len()
                    &&& server.cap(5 + k).cap_type == CapType::Null
                    &&& handed_over(client.cap(x.src as int), x, badge, s.cap(5 + k))
                    &&& s.slots[5 + k].parent == NIL
                }
            &&& forall|i: int|
                0 <= i < server.slots.len() && !(5 <= i < 5 + n) ==> #[trigger] s.slots[i]
                    == server.slots[i]
            &&& forall|i: int|
                0 <= i < client.slots.len() ==> if moves_out(xs, n, i) {
                    outcomes::cleared(c, i)
                } else {
                    #[trigger] c.slots[i] == client.slots[i]
                }
        }),
    decreases n,
{
    if n > 0 {
        let (c0, s0, e0) = ipc::transferred(client, server, xs, badge, n - 1);
        let (c, s, e) = ipc::transferred(client, server, xs, badge, n);
        lemma_transferred(client, server, xs, badge, n - 1);
        let x = xs[n - 1];
        let src = x.src as int;
        assert(model::grant_error(c0, x.src, s0, (5 + (n - 1)) as usize, x.rights, x.mode) is None);
        assert(0 <= src < client.slots.len());
        assert(c0.slots[src] == c0.slots[src]);
        assert(!moves_out(xs, n - 1, src));
        assert(c0.cap(src) == client.cap(src));
        assert forall|i: int| 0 <= i < client.slots.len() implies if moves_out(xs, n, i) {
            outcomes::cleared(c, i)
        } else {
            #[trigger] c.slots[i] == client.slots[i]
        } by {
            assert(c0.slots[i] == c0.slots[i]);
            if moves_out(xs, n - 1, i) {
                let k = choose|k: int|
                    0 <= k < n - 1 && (#[trigger] xs[k]).src == i && xs[k].mode == GrantMode::Move;
                assert(0 <= k < n && xs[k].src == i);
                assert(moves_out(xs, n, i));
                assert(i != src);
            } else if moves_out(xs, n, i) {
                let k = choose|k: int|
                    0 <= k < n && (#[trigger] xs[k]).src == i && xs[k].mode == GrantMode::Move;
                assert(k == n - 1);
            } else if i == src {
                assert(xs[n - 1].src == i);
                assert(x.mode != GrantMode::Move);
            }
        }
    } else {
        assert forall|i: int| 0 <= i < client.slots.len() implies !moves_out(xs, n, i) by {}
    }
}

/// A request that is taken in hands over each capability that it names: what the client held there
/// is in the server's next slot from the sixth on, with the rights of the transfer and the sender
/// as badge, and no longer with the client if it moves.
pub proof fn law_request_hands_over_every_capability(
    v: WorldView,
    sender: PartyId,
    msg: Message,
    k: int,
)
    requires
        v.requested(sender, msg).1 is None,
        0 <= k < msg.info.n_caps,
        k < 2,
    ensures
        ({
            let after = v.requested(sender, msg).0;
            let x = msg.caps@[k];
            let from = v.client.slots[x.src as int].cap;
            let got = after.server.slots[5 + k].cap;
            &&& x.src < v.client.slots.len()
            &&& from.cap_type != CapType::Null
            &&& from.rights.bits & x.rights.bits == x.rights.bits
            &&& v.server.slots[5 + k].cap.cap_type == CapType::Null
            &&& got.cap_type == from.cap_type
            &&& got.objref == from.objref
            &&& got.size == from.size
            &&& got.watermark == from.watermark
            &&& got.aux == from.aux
            &&& got.rights.bits == x.rights.bits
            &&& got.badge == sender
            &&& after.server.slots[5 + k].parent == NIL
            &&& x.mode == GrantMode::Move ==> outcomes::cleared(after.client, x.src as int)
            &&& x.mode == GrantMode::Move ==> after.client.slots[x.src as int].cap.cap_type
                == CapType::Null
        }),
{
    let xs = ipc::transfers_of(msg);
    let s0 = v.server.placed(10, CSpaceView::reply_cap(sender, sender), NIL);
    lemma_transferred(v.client, s0, xs, sender, xs.len() as int);
    let x = xs[k];
    let after = v.requested(sender, msg).0;
    assert(s0.cap(5 + k).cap_type == CapType::Null);
    if x.mode == GrantMode::Move {
        assert(moves_out(xs, xs.len() as int, x.src as int));
        assert(after.client.slots[x.src as int] == after.client.slots[x.src as int]);
    }
}

/// A request that is taken in gives the server a single-use `Reply` that names the sender, and
/// changes nothing but that slot, those of the transfers, and the slots of the client that are moved
/// out of.
pub proof fn law_request_changes_nothing_else(v: WorldView, sender: PartyId, msg: Message, i: int)
    requires
        v.requested(sender, msg).1 is None,
    ensures
        ({
            let after = v.requested(sender, msg).0;
            let n = least(msg.info.n_caps as int, 2);
            let reply = after.server.slots[10].cap;
            &&& v.server.slots.len() > 10
            &&& v.server.slots[10].cap.cap_type == CapType::Null
            &&& reply.cap_type == CapType::Reply
            &&& reply.objref == sender
            &&& reply.badge == sender
            &&& reply.rights.bits == 0
            &&& after.server.slots[10].parent == NIL
            &&& after.server.slots.len() == v.server.slots.len()
            &&& 0 <= i < v.server.slots.len() && i != 10 && !(5 <= i < 5 + n)
                ==> after.server.slots[i] == v.server.slots[i]
            &&& after.client.slots.len() == v.client.slots.len()
            &&& 0 <= i < v.client.slots.len() && !moves_out(msg.caps@, n, i)
                ==> after.client.slots[i] == v.client.slots[i]
            &&& after.client.zeroed == v.client.zeroed
            &&& after.client.next_obj == v.client.next_obj
            &&& after.server.zeroed == v.server.zeroed
            &&& after.server.next_obj == v.server.next_obj
            &&& after.endpoint == v.endpoint
            &&& after.client_budget == v.client_budget
            &&& after.server_budget == v.server_budget
            &&& after.delivered == v.delivered
            &&& after.responses == v.responses
        }),
{
    let xs = ipc::transfers_of(msg);
    let n = xs.len() as int;
    let s0 = v.server.placed(10, CSpaceView::reply_cap(sender, sender), NIL);
    lemma_transferred(v.client, s0, xs, sender, n);
    let after = v.requested(sender, msg).0;
    assert(after.server.slots[10] == s0.slots[10]);
    if 0 <= i < v.client.slots.len() && moves_out(xs, n, i) {
        let k = choose|k: int|
            0 <= k < n && (#[trigger] xs[k]).src == i && xs[k].mode == GrantMode::Move;
        assert(msg.caps@[k] == xs[k]);
        assert(moves_out(msg.caps@, n, i));
    }
}

/// A request is taken in exactly if the slot of its `Reply` is free and each transfer in turn can be
/// granted; the error is that of the first that cannot. Until then the `Reply` and the capabilities
/// before it are handed over, and without a slot for the `Reply` nothing is.
pub proof fn law_request_stops_at_the_first_refusal(v: WorldView, sender: PartyId, msg: Message)
    ensures
        ({
            let (after, e) = v.requested(sender, msg);
            let n = least(msg.info.n_caps as int, 2);
            &&& v.server.slots.len() <= 10 ==> e == Some(CapError::OutOfBounds) && after == v
            &&& v.server.slots.len() > 10 && v.server.slots[10].cap.cap_type != CapType::Null
                ==> e == Some(CapError::SlotOccupied) && after == v
            &&& v.server.slots.len() > 10 && v.server.slots[10].cap.cap_type == CapType::Null
                ==> after.server.slots[10].cap.cap_type == CapType::Reply
                && after.server.slots[10].cap.objref == sender && {
                ||| e is None
                ||| exists|k: int| 0 <= k < n && #[trigger] refused_at(v, after, msg, k, e)
            }
        }),
{
    if v.server.place_error(10) is None {
        let xs = ipc::transfers_of(msg);
        let n = xs.len() as int;
        let s0 = v.server.placed(10, CSpaceView::reply_cap(sender, sender), NIL);
        let (after, e) = v.requested(sender, msg);
        if e is Some {
            let k = lemma_stop(v.client, s0, xs, sender, n);
            lemma_transferred(v.client, s0, xs, sender, k);
            assert(after.server.slots[10] == s0.slots[10]);
            assert(msg.caps@[k] == xs[k]);
            assert(refused_at(v, after, msg, k, e));
        } else {
            lemma_transferred(v.client, s0, xs, sender, n);
            assert(after.server.slots[10] == s0.slots[10]);
        }
    }
}

/// The `k`th transfer of `msg` cannot be granted from what there is then, for `e`.
pub open spec fn refused_at(
    v: WorldView,
    after: WorldView,
    msg: Message,
    k: int,
    e: Option<CapError>,
) -> bool {
    let x = msg.caps@[k];
    &&& e is Some
    &&& model::grant_error(
        after.client,
        x.src,
        after.server,
        (5 + k) as usize,
        x.rights,
        x.mode,
    ) == e
    &&& forall|i: int|
        k <= i < 2 && 5 + i < v.server.slots.len() ==> #[trigger] after.server.slots[5 + i]
            == v.server.slots[5 + i]
}

/// The transfer that stops the others.
proof fn lemma_stop(
    client: CSpaceView,
    server: CSpaceView,
    xs: Seq<CapXfer>,
    badge: u64,
    n: int,
) -> (k: int)
    requires
        0 <= n <= xs.len(),
        ipc::transferred(client, server, xs, badge, n).2 is Some,
    ensures
        0 <= k < n,
        ipc::transferred(client, server, xs, badge, k).2 is None,
        ({
            let (c, s, e) = ipc::transferred(client, server, xs, badge, k);
            let after = ipc::transferred(client, server, xs, badge, n);
            &&& after.0 == c
            &&& after.1 == s
            &&& after.2 == model::grant_error(
                c,
                xs[k].src,
                s,
                (5 + k) as usize,
                xs[k].rights,
                xs[k].mode,
            )
        }),
    decreases n,
{
    if ipc::transferred(client, server, xs, badge, n - 1).2 is Some {
        lemma_stop(client, server, xs, badge, n - 1)
    } else {
        n - 1
    }
}

/// A request is taken in if its `Reply` and its capabilities have free slots to go to and the client
/// can grant each of them, none twice.
pub proof fn law_sound_requests_are_taken_in(v: WorldView, sender: PartyId, msg: Message)
    requires
        v.server.slots.len() > 10,
        v.server.slots[10].cap.cap_type == CapType::Null,
        forall|k: int|
            0 <= k < msg.info.n_caps && k < 2 ==> model::grant_error(
                v.client,
                (#[trigger] msg.caps@[k]).src,
                v.server,
                (5 + k) as usize,
                msg.caps@[k].rights,
                msg.caps@[k].mode,
            ) is None,
        msg.info.n_caps >= 2 ==> msg.caps@[0].src != msg.caps@[1].src,
        v.client.wf(),
    ensures
        v.requested(sender, msg).1 is None,
{
    let xs = ipc::transfers_of(msg);
    let s0 = v.server.placed(10, CSpaceView::reply_cap(sender, sender), NIL);
    reveal_with_fuel(ipc::transferred, 3);
    assert(v.server.place_error(10) is None);
    if xs.len() >= 1 {
        assert(xs[0] == msg.caps@[0]);
        assert(s0.place_error(5) == v.server.place_error(5));
    }
    if xs.len() >= 2 {
        assert(xs[1] == msg.caps@[1]);
        assert(s0.place_error(6) == v.server.place_error(6));
        let (c, s, e) = ipc::transferred(v.client, s0, xs, sender, 1);
        assert(e is None);
        assert(s.place_error(6) == s0.place_error(6));
        let b = xs[1].src as int;
        assert(c.slots[b] == v.client.slots[b]);
        if mdb::has_child(c.slots, b) {
            let i = choose|i: int| mdb::child_of(c.slots, i, b);
            assert(i != xs[0].src || xs[0].mode != GrantMode::Move);
            assert(mdb::child_of(v.client.slots, i, b));
        }
        assert(model::grant_error(c, xs[1].src, s, 6, xs[1].rights, xs[1].mode) is None);
    }
}

/// Sending a message gives it to the receiver that has waited longest and no other; where none
/// waits, it goes behind those that wait at the endpoint. Nothing else changes.
pub proof fn law_sending_is_first_come_first_served(v: WorldView, party: PartyId, msg: Message)
    ensures
        ({
            let after = v.sent(party, msg);
            let n = v.endpoint.receivers.len() as int;
            let m = v.endpoint.senders.len() as int;
            &&& n > 0 ==> {
                &&& after.endpoint.receivers.len() == n - 1
                &&& forall|i: int|
                    0 <= i < n - 1 ==> #[trigger] after.endpoint.receivers[i]
                        == v.endpoint.receivers[i + 1]
                &&& after.endpoint.senders == v.endpoint.senders
                &&& after.delivered.contains_key(v.endpoint.receivers[0])
                &&& after.delivered[v.endpoint.receivers[0]] == (party, msg)
                &&& forall|p: PartyId|
                    p != v.endpoint.receivers[0] ==> (#[trigger] after.delivered.contains_key(p)
                        == v.delivered.contains_key(p)) && after.delivered[p] == v.delivered[p]
            }
            &&& n == 0 ==> {
                &&& after.endpoint.receivers == v.endpoint.receivers
                &&& after.endpoint.senders.len() == m + 1
                &&& after.endpoint.senders[m] == (party, msg)
                &&& forall|i: int|
                    0 <= i < m ==> #[trigger] after.endpoint.senders[i] == v.endpoint.senders[i]
                &&& after.delivered == v.delivered
            }
            &&& after.client == v.client
            &&& after.server == v.server
            &&& after.client_budget == v.client_budget
            &&& after.server_budget == v.server_budget
            &&& after.responses == v.responses
        }),
{
}

/// A receiver gets the request with the sender's stamp, whatever badge the sender wrote, and the
/// slot of the `Reply`; or the error that stopped it.
pub proof fn law_requests_are_stamped(v: WorldView, sender: PartyId, msg: Message)
    ensures
        match ipc::received(v, sender, msg) {
            Ok(RecvStep::Ready { request, reply_slot }) => {
                &&& v.requested(sender, msg).1 is None
                &&& request.badge == sender
                &&& request.info == msg.info
                &&& request.regs == msg.regs
                &&& request.caps == msg.caps
                &&& reply_slot == 10
            },
            Ok(RecvStep::Pending) => false,
            Err(e) => v.requested(sender, msg).1 == Some(e),
        },
{
}

/// An endpoint is used with a capability that is there, is one to an endpoint and carries the right.
pub proof fn law_endpoints_need_the_right(v: CSpaceView, c: Cptr, right: Rights)
    ensures
        ({
            let cap = v.slots[c as int].cap;
            ipc::endpoint_refusal(v, c, right) == (if c >= v.slots.len() {
                Some(EndpointRefusal::Cap(CapError::OutOfBounds))
            } else if cap.cap_type == CapType::Null {
                Some(EndpointRefusal::Cap(CapError::EmptySlot))
            } else if cap.cap_type == CapType::Endpoint && cap.rights.bits & right.bits
                == right.bits {
                None
            } else {
                Some(EndpointRefusal::NoRight)
            })
        }),
{
}

/// Lending moves CPU time from one budget to the other, whole or not at all: never more than is
/// left of the first, and none is made or lost.
pub proof fn law_lending_moves_time(from: Budget, to: Budget, amount: u32)
    ensures
        ({
            let (f, t) = ipc::lent(from, to, amount);
            let possible = amount > 0 && from.consumed + amount <= from.capacity && to.capacity
                + amount <= u32::MAX;
            &&& f.capacity + t.capacity == from.capacity + to.capacity
            &&& t.capacity == to.capacity + (if possible {
                amount as int
            } else {
                0
            })
            &&& f.consumed == from.consumed && f.period == from.period
            &&& t.consumed == to.consumed && t.period == to.period
        }),
{
}

/// Work takes 30 units, as far as they can be counted, and nothing of the allotment.
pub proof fn law_work_is_charged(b: Budget)
    ensures
        b.consumed + 30 <= u32::MAX ==> ipc::worked(b).consumed == b.consumed + 30,
        b.consumed + 30 > u32::MAX ==> ipc::worked(b).consumed == u32::MAX,
        ipc::worked(b).capacity == b.capacity,
        ipc::worked(b).period == b.period,
{
}

/// A request has one word and one transfer, of the client's frame, to be read and no longer held.
/// The answer has the method of the request and one word, the one after the first of the request.
pub proof fn law_requests_and_answers(req: Message, resp: Message)
    requires
        ipc::is_request(req),
        ipc::is_answer(resp, req),
    ensures
        req.info.label == 0xABCD,
        req.info.n_regs == 1,
        req.regs@[0] == 0x00C0_FFEE,
        req.info.n_caps == 1,
        req.caps@[0].src == 1,
        req.caps@[0].rights.bits == 1,
        req.caps@[0].mode == GrantMode::Move,
        resp.info.label == 0xABCD,
        resp.info.n_regs == 1,
        resp.regs@[0] == 0x00C0_FFEF,
        resp.info.n_caps == 0,
        req.badge == 0,
        resp.badge == 0,
        forall|i: int| 1 <= i < 4 ==> #[trigger] req.regs@[i] == 0,
        forall|i: int| 1 <= i < 4 ==> #[trigger] resp.regs@[i] == 0,
{
    assert(req.words().len() == 1);
    assert(req.words()[0] == req.regs@[0]);
    assert(ipc::transfers_of(req).len() == 1);
    assert(ipc::transfers_of(req)[0] == req.caps@[0]);
    assert(resp.words().len() == 1);
    assert(resp.words()[0] == resp.regs@[0]);
}

} // verus!
