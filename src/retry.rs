use vstd::prelude::*;

verus! {

/// The retry state of one unit under acknowledgment and retransmission.
///
/// The budget is a count: the number of retransmissions allowed after the first
/// send. A timeout with budget left asks for a retransmission; a timeout once the
/// budget is spent gives up, and the failure is reported to the caller.
#[derive(Clone, Copy, Debug, PartialEq, Eq, Structural)]
pub struct RetryState {
    pub budget: u32,
    pub resent: u32,
    pub outcome: Option<bool>,
}

/// What the sender does after an event.
#[derive(Clone, Copy, Debug, PartialEq, Eq, Structural)]
pub enum RetryAction {
    Resend,
    Delivered,
    GiveUp,
    Nothing,
}

/// An event on a unit in flight.
#[derive(Clone, Copy, Debug, PartialEq, Eq, Structural)]
pub enum RetryEvent {
    Acked,
    TimedOut,
    /// The peer reported the unit corrupt: handled as a loss, by retransmitting.
    Rejected,
}

impl RetryState {
    pub open spec fn wf(&self) -> bool {
        self.resent <= self.budget
    }

    /// A unit that has just been sent once.
    pub fn new(budget: u32) -> (r: RetryState)
        ensures
            r.wf(),
            r.budget == budget,
            r.resent == 0,
            r.outcome is None,
    {
        RetryState { budget, resent: 0, outcome: None }
    }

    /// Decides what to do on `event`. Once an outcome is settled, later events
    /// change nothing.
    pub fn on_event(&mut self, event: RetryEvent) -> (r: RetryAction)
        requires
            old(self).wf(),
        ensures
            final(self).wf(),
            *final(self) == retry_step(*old(self), event),
            final(self).budget == old(self).budget,
            old(self).outcome is Some ==> r == RetryAction::Nothing && *final(self) == *old(self),
            old(self).outcome is None && event == RetryEvent::Acked ==> r == RetryAction::Delivered
                && final(self).outcome == Some(true) && final(self).resent == old(self).resent,
            old(self).outcome is None && event != RetryEvent::Acked && old(self).resent
                < old(self).budget ==> r == RetryAction::Resend && final(self).outcome is None
                && final(self).resent == old(self).resent + 1,
            old(self).outcome is None && event != RetryEvent::Acked && old(self).resent
                == old(self).budget ==> r == RetryAction::GiveUp && final(self).outcome == Some(
                false,
            ) && final(self).resent == old(self).resent,
    {
        if self.outcome.is_some() {
            return RetryAction::Nothing;
        }
        match event {
            RetryEvent::Acked => {
                self.outcome = Some(true);
                RetryAction::Delivered
            },
            _ => {
                if self.resent < self.budget {
                    self.resent = self.resent + 1;
                    RetryAction::Resend
                } else {
                    self.outcome = Some(false);
                    RetryAction::GiveUp
                }
            },
        }
    }
}

/// The state after one event.
pub open spec fn retry_step(s: RetryState, event: RetryEvent) -> RetryState {
    if s.outcome is Some {
        s
    } else if event == RetryEvent::Acked {
        RetryState { outcome: Some(true), ..s }
    } else if s.resent < s.budget {
        RetryState { resent: (s.resent + 1) as u32, ..s }
    } else {
        RetryState { outcome: Some(false), ..s }
    }
}

/// The state after a run of events.
pub open spec fn retry_run(s: RetryState, events: Seq<RetryEvent>) -> RetryState
    decreases events.len(),
{
    if events.len() == 0 {
        s
    } else {
        retry_step(retry_run(s, events.drop_last()), events.last())
    }
}

/// A unit whose acknowledgment never comes is not retried forever: from a fresh
/// send, `budget + 1` timeouts or rejections settle it as failed, after exactly
/// `budget` retransmissions; an acknowledgment among them settles it as delivered.
pub proof fn lemma_budget_ends_in_outcome(budget: u32, events: Seq<RetryEvent>)
    requires
        events.len() == budget + 1,
    ensures
        retry_run(RetryState { budget, resent: 0, outcome: None }, events).outcome is Some,
        (forall|i: int| 0 <= i < events.len() ==> events[i] != RetryEvent::Acked) ==> retry_run(
            RetryState { budget, resent: 0, outcome: None },
            events,
        ) == (RetryState { budget, resent: budget, outcome: Some(false) }),
        (exists|i: int| 0 <= i < events.len() && events[i] == RetryEvent::Acked) ==> retry_run(
            RetryState { budget, resent: 0, outcome: None },
            events,
        ).outcome == Some(true),
{
    lemma_run_shape(budget, events);
    let s = retry_run(RetryState { budget, resent: 0, outcome: None }, events);
    if forall|i: int| 0 <= i < events.len() ==> events[i] != RetryEvent::Acked {
        assert(!(exists|i: int| 0 <= i < events.len() && events[i] == RetryEvent::Acked));
        assert(s.outcome == Some(false));
        assert(s.resent == budget);
    }
}

/// How a run from a fresh send stands: unsettled runs have retransmitted once per
/// event, and a run settles as delivered exactly when it holds an acknowledgment.
proof fn lemma_run_shape(budget: u32, events: Seq<RetryEvent>)
    requires
        events.len() <= budget + 1,
    ensures
        ({
            let s = retry_run(RetryState { budget, resent: 0, outcome: None }, events);
            &&& s.budget == budget
            &&& s.outcome is None <==> (events.len() <= budget && forall|i: int|
                0 <= i < events.len() ==> events[i] != RetryEvent::Acked)
            &&& s.outcome is None ==> s.resent == events.len()
            &&& s.outcome == Some(true) <==> exists|i: int|
                0 <= i < events.len() && events[i] == RetryEvent::Acked
            &&& (forall|i: int| 0 <= i < events.len() ==> events[i] != RetryEvent::Acked) ==> s.resent
                == if events.len() <= budget { events.len() as int } else { budget as int }
        }),
    decreases events.len(),
{
    if events.len() > 0 {
        let rest = events.drop_last();
        lemma_run_shape(budget, rest);
        assert forall|i: int| 0 <= i < rest.len() implies rest[i] == events[i] by {}
        if exists|i: int| 0 <= i < events.len() && events[i] == RetryEvent::Acked {
            let i = choose|i: int| 0 <= i < events.len() && events[i] == RetryEvent::Acked;
            if i < rest.len() {
                assert(rest[i] == RetryEvent::Acked);
            }
        }
    }
}

} // verus!
