//! The endpoint rendezvous: a meeting point where senders or receivers wait, but never both, as
//! the moment both are present they are matched.

use crate::ipc::message::Message;
use crate::ipc::PartyId;
use std::collections::VecDeque;
use vstd::prelude::*;

verus! {

/// A party that waits to send, with what it offers.
struct SendWaiter {
    party: PartyId,
    msg: Message,
}

/// The parties that wait at an endpoint.
pub struct EndpointState {
    senders: VecDeque<SendWaiter>,
    receivers: VecDeque<PartyId>,
}

/// The state of an endpoint: who waits, longest first.
#[verifier::ext_equal]
pub struct EndpointView {
    pub senders: Seq<(PartyId, Message)>,
    pub receivers: Seq<PartyId>,
}

/// The parties in a queue other than `party`.
pub open spec fn without_party(q: Seq<PartyId>, party: PartyId) -> Seq<PartyId>
    decreases q.len(),
{
    if q.len() == 0 {
        q
    } else if q.last() == party {
        without_party(q.drop_last(), party)
    } else {
        without_party(q.drop_last(), party).push(q.last())
    }
}

/// The senders other than `party`.
pub open spec fn without_sender(q: Seq<(PartyId, Message)>, party: PartyId) -> Seq<
    (PartyId, Message),
>
    decreases q.len(),
{
    if q.len() == 0 {
        q
    } else if q.last().0 == party {
        without_sender(q.drop_last(), party)
    } else {
        without_sender(q.drop_last(), party).push(q.last())
    }
}

impl EndpointView {
    /// Senders and receivers never wait together.
    pub open spec fn wf(self) -> bool {
        self.senders.len() == 0 || self.receivers.len() == 0
    }

    /// `party` waits here.
    pub open spec fn waits(self, party: PartyId) -> bool {
        ||| exists|i: int| 0 <= i < self.senders.len() && (#[trigger] self.senders[i]).0 == party
        ||| self.receivers.contains(party)
    }

    /// After `party` is removed.
    pub open spec fn cancelled(self, party: PartyId) -> EndpointView {
        EndpointView {
            senders: without_sender(self.senders, party),
            receivers: without_party(self.receivers, party),
        }
    }

    /// After `from` has offered `msg`, and what came of it.
    pub open spec fn offered(self, from: PartyId, msg: Message) -> (EndpointView, SendOutcome) {
        if self.receivers.len() > 0 {
            (
                EndpointView { receivers: self.receivers.drop_first(), ..self },
                SendOutcome::Delivered { receiver: self.receivers[0], msg },
            )
        } else {
            (EndpointView { senders: self.senders.push((from, msg)), ..self }, SendOutcome::Queued)
        }
    }

    /// After `by` has asked for a message, and what came of it.
    pub open spec fn asked(self, by: PartyId) -> (EndpointView, RecvOutcome) {
        if self.senders.len() > 0 {
            (
                EndpointView { senders: self.senders.drop_first(), ..self },
                RecvOutcome::Received { sender: self.senders[0].0, msg: self.senders[0].1 },
            )
        } else {
            (EndpointView { receivers: self.receivers.push(by), ..self }, RecvOutcome::Queued)
        }
    }
}

/// What a send leads to.
pub enum SendOutcome {
    /// A receiver was waiting: deliver `msg` to it.
    Delivered { receiver: PartyId, msg: Message },
    /// The sender waits.
    Queued,
}

/// What a receive leads to.
pub enum RecvOutcome {
    /// A sender was waiting: here is what it offers.
    Received { sender: PartyId, msg: Message },
    /// The receiver waits.
    Queued,
}

impl View for EndpointState {
    type V = EndpointView;

    closed spec fn view(&self) -> EndpointView {
        EndpointView {
            senders: self.senders@.map_values(|w: SendWaiter| (w.party, w.msg)),
            receivers: self.receivers@,
        }
    }
}

impl Default for EndpointState {
    fn default() -> (s: EndpointState)
        ensures
            s@ == (EndpointView { senders: Seq::empty(), receivers: Seq::empty() }),
    {
        EndpointState::new()
    }
}

impl EndpointState {
    /// Nobody waits on both sides.
    pub open spec fn wf(&self) -> bool {
        self@.wf()
    }

    /// An endpoint at which nobody waits.
    #[must_use]
    pub fn new() -> (s: EndpointState)
        ensures
            s.wf(),
            s@ == (EndpointView { senders: Seq::empty(), receivers: Seq::empty() }),
    {
        let s = EndpointState { senders: VecDeque::new(), receivers: VecDeque::new() };
        assert(s@.senders =~= Seq::empty());
        s
    }

    /// Offer `msg` from `from`: the receiver that has waited longest gets it, or else the sender
    /// waits.
    pub fn send(&mut self, from: PartyId, msg: Message) -> (r: SendOutcome)
        requires
            old(self).wf(),
        ensures
            final(self).wf(),
            if old(self)@.receivers.len() > 0 {
                &&& r == (SendOutcome::Delivered { receiver: old(self)@.receivers[0], msg })
                &&& final(self)@ == (EndpointView {
                    receivers: old(self)@.receivers.drop_first(),
                    ..old(self)@
                })
            } else {
                &&& r == SendOutcome::Queued
                &&& final(self)@ == (EndpointView {
                    senders: old(self)@.senders.push((from, msg)),
                    ..old(self)@
                })
            },
            (final(self)@, r) == old(self)@.offered(from, msg),
    {
        match self.receivers.pop_front() {
            Some(receiver) => SendOutcome::Delivered { receiver, msg },
            None => {
                self.senders.push_back(SendWaiter { party: from, msg });
                assert(self@.senders =~= old(self)@.senders.push((from, msg)));
                SendOutcome::Queued
            },
        }
    }

    /// Receive as `by`: what the sender that has waited longest offers, or else the receiver
    /// waits.
    pub fn recv(&mut self, by: PartyId) -> (r: RecvOutcome)
        requires
            old(self).wf(),
        ensures
            final(self).wf(),
            if old(self)@.senders.len() > 0 {
                &&& r == (RecvOutcome::Received {
                    sender: old(self)@.senders[0].0,
                    msg: old(self)@.senders[0].1,
                })
                &&& final(self)@ == (EndpointView {
                    senders: old(self)@.senders.drop_first(),
                    ..old(self)@
                })
            } else {
                &&& r == RecvOutcome::Queued
                &&& final(self)@ == (EndpointView {
                    receivers: old(self)@.receivers.push(by),
                    ..old(self)@
                })
            },
            (final(self)@, r) == old(self)@.asked(by),
    {
        match self.senders.pop_front() {
            Some(w) => {
                assert(self@.senders =~= old(self)@.senders.drop_first());
                RecvOutcome::Received { sender: w.party, msg: w.msg }
            },
            None => {
                self.receivers.push_back(by);
                RecvOutcome::Queued
            },
        }
    }

    /// Remove `party` wherever it waits, so that it is never matched. Was it waiting?
    pub fn cancel(&mut self, party: PartyId) -> (removed: bool)
        requires
            old(self).wf(),
        ensures
            final(self).wf(),
            final(self)@ == old(self)@.cancelled(party),
            removed == old(self)@.waits(party),
    {
        let ghost before = self@;
        let senders: usize = self.senders.len();
        let receivers: usize = self.receivers.len();
        let mut i: usize = 0;
        proof {
            assert(before.senders.take(0) =~= Seq::empty());
            assert(before.senders.skip(0) =~= before.senders);
            assert(without_sender(before.senders.take(0), party) + before.senders =~= self@.senders);
        }
        let ghost mut done: int = 0;
        while i < self.senders.len()
            invariant
                0 <= done <= before.senders.len(),
                self.receivers@ == before.receivers,
                i == without_sender(before.senders.take(done), party).len(),
                self@.senders == without_sender(before.senders.take(done), party)
                    + before.senders.skip(done),
                self.senders@.len() == self@.senders.len(),
            decreases before.senders.len() - done,
        {
            let ghost kept = without_sender(before.senders.take(done), party);
            let ghost mid = self@.senders;
            proof {
                assert(mid[i as int] == before.senders[done]);
                assert(before.senders.take(done + 1).drop_last() =~= before.senders.take(done));
                assert(before.senders.take(done + 1).last() == before.senders[done]);
            }
            if self.senders[i].party == party {
                let _w = self.senders.remove(i);
                proof {
                    assert(self@.senders =~= mid.remove(i as int));
                    assert(self@.senders =~= kept + before.senders.skip(done + 1));
                }
            } else {
                i = i + 1;
                proof {
                    assert(self@.senders =~= kept.push(before.senders[done])
                        + before.senders.skip(done + 1));
                }
            }
            proof {
                done = done + 1;
            }
        }
        proof {
            assert(before.senders.take(done) =~= before.senders);
            assert(self@.senders =~= without_sender(before.senders, party));
            lemma_without_sender(before.senders, party);
            lemma_without_party(before.receivers, party);
        }
        cancel_in(&mut self.receivers, party);
        self.senders.len() != senders || self.receivers.len() != receivers
    }

    /// Does nobody wait?
    #[must_use]
    pub fn is_idle(&self) -> (b: bool)
        ensures
            b == (self@.senders.len() == 0 && self@.receivers.len() == 0),
    {
        self.senders.len() == 0 && self.receivers.len() == 0
    }
}

/// Remove `party` from a queue.
pub(crate) fn cancel_in(q: &mut VecDeque<PartyId>, party: PartyId)
    ensures
        final(q)@ == without_party(old(q)@, party),
{
    let ghost before = q@;
    let mut i: usize = 0;
    let ghost mut done: int = 0;
    proof {
        assert(before.take(0) =~= Seq::empty());
        assert(without_party(before.take(0), party) + before.skip(0) =~= q@);
    }
    while i < q.len()
        invariant
            0 <= done <= before.len(),
            i == without_party(before.take(done), party).len(),
            q@ == without_party(before.take(done), party) + before.skip(done),
        decreases before.len() - done,
    {
        let ghost kept = without_party(before.take(done), party);
        proof {
            assert(q@[i as int] == before[done]);
            assert(before.take(done + 1).drop_last() =~= before.take(done));
            assert(before.take(done + 1).last() == before[done]);
        }
        if q[i] == party {
            let _p = q.remove(i);
            assert(q@ =~= kept + before.skip(done + 1));
        } else {
            i = i + 1;
            assert(q@ =~= kept.push(before[done]) + before.skip(done + 1));
        }
        proof {
            done = done + 1;
        }
    }
    assert(before.take(done) =~= before);
    assert(q@ =~= without_party(before, party));
}

/// A queue gets shorter if, and only if, the party was in it, and the party is not in it then.
pub proof fn lemma_without_party(q: Seq<PartyId>, party: PartyId)
    ensures
        without_party(q, party).len() <= q.len(),
        (without_party(q, party).len() != q.len()) == q.contains(party),
        !without_party(q, party).contains(party),
    decreases q.len(),
{
    if q.len() > 0 {
        let d = q.drop_last();
        let w = without_party(d, party);
        lemma_without_party(d, party);
        if d.contains(party) {
            let i = choose|i: int| 0 <= i < d.len() && d[i] == party;
            assert(q[i] == party);
        }
        if q.contains(party) {
            let i = choose|i: int| 0 <= i < q.len() && q[i] == party;
            if i < d.len() {
                assert(d[i] == party);
            }
        }
        if q.last() == party {
            assert(q[q.len() - 1] == party);
        } else if w.push(q.last()).contains(party) {
            let i = choose|i: int|
                0 <= i < w.push(q.last()).len() && w.push(q.last())[i] == party;
            assert(w[i] == party);
        }
    }
}

/// The same of senders.
proof fn lemma_without_sender(q: Seq<(PartyId, Message)>, party: PartyId)
    ensures
        without_sender(q, party).len() <= q.len(),
        (without_sender(q, party).len() != q.len()) == (exists|i: int|
            0 <= i < q.len() && (#[trigger] q[i]).0 == party),
        forall|i: int|
            0 <= i < without_sender(q, party).len() ==> (#[trigger] without_sender(q, party)[i]).0
                != party,
    decreases q.len(),
{
    if q.len() > 0 {
        let d = q.drop_last();
        lemma_without_sender(d, party);
        if exists|i: int| 0 <= i < d.len() && (#[trigger] d[i]).0 == party {
            let i = choose|i: int| 0 <= i < d.len() && (#[trigger] d[i]).0 == party;
            assert(q[i].0 == party);
        }
        if exists|i: int| 0 <= i < q.len() && (#[trigger] q[i]).0 == party {
            let i = choose|i: int| 0 <= i < q.len() && (#[trigger] q[i]).0 == party;
            if i < d.len() {
                assert(d[i].0 == party);
            }
        }
        if q.last().0 == party {
            assert(q[q.len() - 1].0 == party);
        }
    }
}

/// A cancelled party waits no more, and cancelling it again changes nothing.
pub proof fn law_cancelled_party_is_gone(v: EndpointView, party: PartyId)
    ensures
        !v.cancelled(party).waits(party),
        v.cancelled(party).cancelled(party) == v.cancelled(party),
{
    lemma_without_sender(v.senders, party);
    lemma_without_party(v.receivers, party);
    lemma_nothing_without(v.cancelled(party), party);
}

/// A party that does not wait is nowhere to be removed from.
proof fn lemma_nothing_without(v: EndpointView, party: PartyId)
    requires
        !v.waits(party),
    ensures
        v.cancelled(party) == v,
    decreases v.senders.len() + v.receivers.len(),
{
    let s = v.senders;
    let r = v.receivers;
    if s.len() > 0 {
        let d = EndpointView { senders: s.drop_last(), receivers: r };
        assert(s[s.len() - 1].0 != party);
        assert(!d.waits(party)) by {
            assert forall|i: int| 0 <= i < d.senders.len() implies (#[trigger] d.senders[i]).0
                != party by {
                assert(s[i].0 != party);
            }
        }
        lemma_nothing_without(d, party);
        assert(s.drop_last().push(s.last()) =~= s);
    } else if r.len() > 0 {
        let d = EndpointView { senders: s, receivers: r.drop_last() };
        assert(r[r.len() - 1] != party);
        assert(!d.waits(party)) by {
            assert forall|i: int| 0 <= i < d.receivers.len() implies d.receivers[i] != party by {
                assert(r[i] != party);
            }
        }
        lemma_nothing_without(d, party);
        assert(r.drop_last().push(r.last()) =~= r);
    }
}

/// Cancelling a party takes it out of the queues wherever it stands, and leaves the others waiting in
/// their order.
pub proof fn law_cancelling_keeps_the_others(v: EndpointView, party: PartyId)
    ensures
        v.cancelled(party).receivers == v.receivers.filter(|p: PartyId| p != party),
        v.cancelled(party).senders == v.senders.filter(|s: (PartyId, Message)| s.0 != party),
{
    lemma_without_party_filters(v.receivers, party);
    lemma_without_sender_filters(v.senders, party);
}

proof fn lemma_without_party_filters(q: Seq<PartyId>, party: PartyId)
    ensures
        without_party(q, party) == q.filter(|p: PartyId| p != party),
    decreases q.len(),
{
    reveal(Seq::filter);
    if q.len() > 0 {
        lemma_without_party_filters(q.drop_last(), party);
    }
}

proof fn lemma_without_sender_filters(q: Seq<(PartyId, Message)>, party: PartyId)
    ensures
        without_sender(q, party) == q.filter(|s: (PartyId, Message)| s.0 != party),
    decreases q.len(),
{
    reveal(Seq::filter);
    if q.len() > 0 {
        lemma_without_sender_filters(q.drop_last(), party);
    }
}

/// A party waits exactly if it stands in one of the queues.
pub proof fn law_waiting_is_standing_in_line(v: EndpointView, party: PartyId)
    ensures
        v.waits(party) == ((exists|i: int|
            0 <= i < v.senders.len() && (#[trigger] v.senders[i]).0 == party) || (exists|i: int|
            0 <= i < v.receivers.len() && #[trigger] v.receivers[i] == party)),
{
    if v.receivers.contains(party) {
        let i = choose|i: int| 0 <= i < v.receivers.len() && v.receivers[i] == party;
        assert(v.receivers[i] == party);
    }
}


/// Where nobody waits, a message that is offered is what the next to ask gets, and whoever asked gets
/// the next that is offered; then nobody waits again.
pub proof fn law_the_one_meets_the_other(v: EndpointView, from: PartyId, by: PartyId, msg: Message)
    requires
        v.senders.len() == 0,
        v.receivers.len() == 0,
    ensures
        v.offered(from, msg).1 == SendOutcome::Queued,
        v.offered(from, msg).0.asked(by) == (v, RecvOutcome::Received { sender: from, msg }),
        v.asked(by).1 == RecvOutcome::Queued,
        v.asked(by).0.offered(from, msg) == (v, SendOutcome::Delivered { receiver: by, msg }),
{
    assert(v.offered(from, msg).0.asked(by).0 =~= v);
    assert(v.asked(by).0.offered(from, msg).0 =~= v);
}

/// First come, first served: whoever comes later, to offer or to ask, does not change who is served
/// next, and waits behind those who were there.
pub proof fn law_nobody_is_overtaken(v: EndpointView, from: PartyId, by: PartyId, msg: Message)
    ensures
        v.senders.len() > 0 && v.receivers.len() == 0 ==> {
            &&& v.offered(from, msg).0.asked(by).1 == v.asked(by).1
            &&& v.offered(from, msg).0.asked(by).0 == v.asked(by).0.offered(from, msg).0
            &&& v.asked(by).1 == (RecvOutcome::Received {
                sender: v.senders.first().0,
                msg: v.senders.first().1,
            })
            &&& v.asked(by).0.receivers == v.receivers
        },
        v.receivers.len() > 0 && v.senders.len() == 0 ==> {
            &&& v.asked(by).0.offered(from, msg).1 == v.offered(from, msg).1
            &&& v.asked(by).0.offered(from, msg).0 == v.offered(from, msg).0.asked(by).0
            &&& v.offered(from, msg).1 == (SendOutcome::Delivered {
                receiver: v.receivers.first(),
                msg,
            })
            &&& v.offered(from, msg).0.senders == v.senders
        },
{
    if v.senders.len() > 0 && v.receivers.len() == 0 {
        assert(v.offered(from, msg).0.asked(by).0 =~= v.asked(by).0.offered(from, msg).0);
    }
    if v.receivers.len() > 0 && v.senders.len() == 0 {
        assert(v.asked(by).0.offered(from, msg).0 =~= v.offered(from, msg).0.asked(by).0);
    }
}

} // verus!
