//! The notification: a signal without payload. It wakes a waiter if there is one, and otherwise
//! stays pending for the next wait.

use crate::ipc::endpoint;
use crate::ipc::PartyId;
use std::collections::VecDeque;
use vstd::prelude::*;

verus! {

/// A pending signal or the parties that wait for one.
pub struct NotificationState {
    pending: bool,
    waiters: VecDeque<PartyId>,
}

/// The state of a notification.
#[verifier::ext_equal]
pub struct NotificationView {
    pub pending: bool,
    /// Who waits, longest first.
    pub waiters: Seq<PartyId>,
}

impl NotificationView {
    /// After a signal, and what came of it.
    pub open spec fn signalled(self) -> (NotificationView, SignalOutcome) {
        if self.waiters.len() > 0 {
            (
                NotificationView { waiters: self.waiters.drop_first(), ..self },
                SignalOutcome::Woke(self.waiters[0]),
            )
        } else {
            (NotificationView { pending: true, ..self }, SignalOutcome::Latched)
        }
    }

    /// After `by` has come to wait, and what came of it.
    pub open spec fn awaited(self, by: PartyId) -> (NotificationView, WaitOutcome) {
        if self.pending {
            (NotificationView { pending: false, ..self }, WaitOutcome::Ready)
        } else {
            (NotificationView { waiters: self.waiters.push(by), ..self }, WaitOutcome::Queued)
        }
    }
}

/// What a signal leads to.
pub enum SignalOutcome {
    /// This party is to be woken.
    Woke(PartyId),
    /// The signal is pending.
    Latched,
}

/// What a wait leads to.
pub enum WaitOutcome {
    /// A signal was pending; it is used up.
    Ready,
    /// The party waits.
    Queued,
}

impl View for NotificationState {
    type V = NotificationView;

    closed spec fn view(&self) -> NotificationView {
        NotificationView { pending: self.pending, waiters: self.waiters@ }
    }
}

impl Default for NotificationState {
    fn default() -> (s: NotificationState)
        ensures
            s@ == (NotificationView { pending: false, waiters: Seq::empty() }),
    {
        NotificationState::new()
    }
}

impl NotificationState {
    /// Nobody waits while a signal is pending.
    pub open spec fn wf(&self) -> bool {
        self@.pending ==> self@.waiters.len() == 0
    }

    /// No signal is pending, and nobody waits.
    #[must_use]
    pub fn new() -> (s: NotificationState)
        ensures
            s.wf(),
            s@ == (NotificationView { pending: false, waiters: Seq::empty() }),
    {
        NotificationState { pending: false, waiters: VecDeque::new() }
    }

    /// Wake the party that has waited longest, or else stay pending.
    pub fn signal(&mut self) -> (r: SignalOutcome)
        requires
            old(self).wf(),
        ensures
            final(self).wf(),
            if old(self)@.waiters.len() > 0 {
                &&& r == SignalOutcome::Woke(old(self)@.waiters[0])
                &&& final(self)@ == (NotificationView {
                    waiters: old(self)@.waiters.drop_first(),
                    ..old(self)@
                })
            } else {
                &&& r == SignalOutcome::Latched
                &&& final(self)@ == (NotificationView { pending: true, ..old(self)@ })
            },
            (final(self)@, r) == old(self)@.signalled(),
    {
        match self.waiters.pop_front() {
            Some(p) => SignalOutcome::Woke(p),
            None => {
                self.pending = true;
                SignalOutcome::Latched
            },
        }
    }

    /// Use up a pending signal, or else wait.
    pub fn wait(&mut self, by: PartyId) -> (r: WaitOutcome)
        requires
            old(self).wf(),
        ensures
            final(self).wf(),
            if old(self)@.pending {
                &&& r == WaitOutcome::Ready
                &&& final(self)@ == (NotificationView { pending: false, ..old(self)@ })
            } else {
                &&& r == WaitOutcome::Queued
                &&& final(self)@ == (NotificationView {
                    waiters: old(self)@.waiters.push(by),
                    ..old(self)@
                })
            },
            (final(self)@, r) == old(self)@.awaited(by),
    {
        if self.pending {
            self.pending = false;
            WaitOutcome::Ready
        } else {
            self.waiters.push_back(by);
            WaitOutcome::Queued
        }
    }

    /// Remove `party` from those who wait. Was it waiting?
    pub fn cancel(&mut self, party: PartyId) -> (removed: bool)
        requires
            old(self).wf(),
        ensures
            final(self).wf(),
            final(self)@ == (NotificationView {
                waiters: endpoint::without_party(old(self)@.waiters, party),
                ..old(self)@
            }),
            removed == old(self)@.waiters.contains(party),
            !final(self)@.waiters.contains(party),
    {
        let before: usize = self.waiters.len();
        proof {
            endpoint::lemma_without_party(self.waiters@, party);
        }
        endpoint::cancel_in(&mut self.waiters, party);
        before != self.waiters.len()
    }
}


/// A signal is not lost: whoever comes to wait after it does not have to, once. Signals that nobody
/// waits for count as one.
pub proof fn law_signals_are_kept(v: NotificationView, by: PartyId)
    requires
        !v.pending,
        v.waiters.len() == 0,
    ensures
        v.signalled().1 == SignalOutcome::Latched,
        v.signalled().0.awaited(by) == (v, WaitOutcome::Ready),
        v.signalled().0.signalled() == (v.signalled().0, SignalOutcome::Latched),
        v.awaited(by).1 == WaitOutcome::Queued,
        v.awaited(by).0.signalled() == (v, SignalOutcome::Woke(by)),
{
    assert(v.awaited(by).0.signalled().0 =~= v);
}

/// A signal wakes one party, the one that has waited longest; whoever comes to wait later does not
/// change that, and waits behind the others.
pub proof fn law_one_is_woken_in_turn(v: NotificationView, by: PartyId)
    requires
        !v.pending,
        v.waiters.len() > 0,
    ensures
        v.signalled().1 == SignalOutcome::Woke(v.waiters.first()),
        v.signalled().0.waiters.len() == v.waiters.len() - 1,
        !v.signalled().0.pending,
        v.awaited(by).0.signalled().1 == v.signalled().1,
        v.awaited(by).0.signalled().0 == v.signalled().0.awaited(by).0,
{
    assert(v.awaited(by).0.signalled().0 =~= v.signalled().0.awaited(by).0);
}

} // verus!
