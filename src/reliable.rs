use vstd::prelude::*;
use crate::checking::{check, checked_of, frame, framed_of, CheckVerdict};
use crate::retry::{retry_step, RetryAction, RetryEvent, RetryState};
use crate::sequencing::{
    delivered_of, newest_after, verdict_of, Resequencer, SeqVerdict, SequenceStamper,
};

verus! {

/// What the receiving end of a reliable transport makes of one arriving unit.
#[derive(Debug)]
pub enum Reception {
    /// Intact and new: hand the payload up, and acknowledge.
    Deliver(Vec<u8>),
    /// Intact but already delivered (a retransmission): acknowledge again only.
    Duplicate,
    /// Failed its checksum: ask for a retransmission. Nothing is delivered and the
    /// sequence state is untouched, so a later good copy still gets through.
    Corrupt,
}

/// The receiving end of a reliable transport, built from the integrity check and
/// the resequencer: every arriving unit, first sends and retransmissions alike,
/// goes through the checksum first and then through sequencing.
pub struct ReliableReceiver {
    pub order: Resequencer,
}

impl ReliableReceiver {
    pub fn new() -> (r: ReliableReceiver)
        ensures
            r.order.newest is None,
    {
        ReliableReceiver { order: Resequencer::new() }
    }

    /// Takes one unit, numbered `seq`, whose payload arrives with its checksum.
    pub fn on_unit(&mut self, seq: u64, framed: &[u8]) -> (r: Reception)
        ensures
            checked_of(framed@) is None ==> r is Corrupt
                && final(self).order.newest == old(self).order.newest,
            checked_of(framed@) is Some ==> final(self).order.newest == newest_after(
                old(self).order.newest,
                seq,
            ),
            checked_of(framed@) is Some && verdict_of(old(self).order.newest, seq) is Stale
                ==> r is Duplicate,
            checked_of(framed@) is Some && verdict_of(old(self).order.newest, seq) is Deliver
                ==> (r matches Reception::Deliver(p) && Some(p@) == checked_of(framed@)),
    {
        match check(framed) {
            CheckVerdict::Corrupt => Reception::Corrupt,
            CheckVerdict::Intact(p) => match self.order.accept(seq) {
                SeqVerdict::Deliver { .. } => Reception::Deliver(p),
                SeqVerdict::Stale => Reception::Duplicate,
            },
        }
    }
}

/// What the sending end does after an event on the unit in flight.
#[derive(Clone, Copy, Debug, PartialEq, Eq, Structural)]
pub enum SendStep {
    /// Transmit the unit in flight again: the same number, the same checked bytes.
    Resend(u64),
    /// The unit with this number was acknowledged.
    Delivered(u64),
    /// The retry budget ran out for the unit with this number.
    Failed(u64),
    /// Nothing is in flight.
    Idle,
}

/// The sending end of a reliable transport, one unit in flight at a time. Each
/// unit is numbered by the stamper and framed with its checksum once; every
/// retransmission sends that same numbered, checked frame.
pub struct ReliableSender {
    pub stamper: SequenceStamper,
    pub budget: u32,
    pub busy: bool,
    pub seq: u64,
    pub framed: Vec<u8>,
    pub retry: RetryState,
}

impl ReliableSender {
    /// While a unit is in flight its retry state is open and uses the budget.
    pub open spec fn wf(&self) -> bool {
        self.busy ==> self.retry.wf() && self.retry.outcome is None && self.retry.budget
            == self.budget
    }

    pub fn new(budget: u32) -> (r: ReliableSender)
        ensures
            r.wf(),
            !r.busy,
            r.budget == budget,
            r.stamper.next == 0,
    {
        ReliableSender {
            stamper: SequenceStamper::new(),
            budget,
            busy: false,
            seq: 0,
            framed: Vec::new(),
            retry: RetryState::new(budget),
        }
    }

    /// Puts `payload` in flight and returns its number; the caller transmits
    /// `framed`. Refused (`None`, nothing changes) while another unit is in flight
    /// or once the numbers are used up.
    pub fn submit(&mut self, payload: Vec<u8>) -> (r: Option<u64>)
        requires
            old(self).wf(),
        ensures
            final(self).wf(),
            final(self).budget == old(self).budget,
            old(self).busy || old(self).stamper.next == u64::MAX ==> r is None
                && final(self).busy == old(self).busy
                && final(self).stamper == old(self).stamper,
            !old(self).busy && old(self).stamper.next < u64::MAX ==> r == Some(
                old(self).stamper.next,
            ) && final(self).busy && final(self).seq == old(self).stamper.next
                && final(self).framed@ == framed_of(payload@) && final(self).retry == (RetryState {
                budget: old(self).budget,
                resent: 0,
                outcome: None,
            }) && final(self).stamper.next == old(self).stamper.next + 1,
    {
        if self.busy {
            return None;
        }
        match self.stamper.stamp(payload) {
            None => None,
            Some(unit) => {
                self.framed = frame(unit.payload.as_slice());
                self.seq = unit.seq;
                self.retry = RetryState::new(self.budget);
                self.busy = true;
                Some(unit.seq)
            },
        }
    }

    /// Handles an acknowledgment, a timeout or a corruption report for the unit
    /// in flight.
    pub fn on_event(&mut self, event: RetryEvent) -> (r: SendStep)
        requires
            old(self).wf(),
        ensures
            final(self).wf(),
            final(self).budget == old(self).budget,
            final(self).stamper == old(self).stamper,
            final(self).seq == old(self).seq,
            final(self).framed@ == old(self).framed@,
            !old(self).busy ==> r == SendStep::Idle && !final(self).busy,
            old(self).busy ==> final(self).retry == retry_step(old(self).retry, event),
            old(self).busy && retry_step(old(self).retry, event).outcome is None ==> r
                == SendStep::Resend(old(self).seq) && final(self).busy,
            old(self).busy && retry_step(old(self).retry, event).outcome == Some(true) ==> r
                == SendStep::Delivered(old(self).seq) && !final(self).busy,
            old(self).busy && retry_step(old(self).retry, event).outcome == Some(false) ==> r
                == SendStep::Failed(old(self).seq) && !final(self).busy,
    {
        if !self.busy {
            return SendStep::Idle;
        }
        match self.retry.on_event(event) {
            RetryAction::Resend => SendStep::Resend(self.seq),
            RetryAction::Delivered => {
                self.busy = false;
                SendStep::Delivered(self.seq)
            },
            _ => {
                self.busy = false;
                SendStep::Failed(self.seq)
            },
        }
    }
}

/// The sequence `k` repeated `n` times.
pub open spec fn copies(k: u64, n: nat) -> Seq<u64> {
    Seq::new(n, |i: int| k)
}

/// Retransmissions are delivered once: however many intact copies of unit `k`
/// arrive, `k` being newer than everything delivered so far, it is handed up
/// exactly once.
pub proof fn lemma_retransmissions_delivered_once(newest: Option<u64>, k: u64, n: nat)
    requires
        n >= 1,
        verdict_of(newest, k) is Deliver,
    ensures
        delivered_of(newest, copies(k, n)) == seq![k],
    decreases n,
{
    let s = copies(k, n);
    assert(s.drop_last() =~= copies(k, (n - 1) as nat));
    assert(s.last() == k);
    if n > 1 {
        lemma_retransmissions_delivered_once(newest, k, (n - 1) as nat);
        lemma_newest_after_copies(newest, k, (n - 1) as nat);
        let h = crate::sequencing::newest_after_all(newest, s.drop_last());
        assert(verdict_of(h, k) is Stale);
        assert(delivered_of(newest, s) == delivered_of(newest, s.drop_last()));
    } else {
        assert(s.drop_last() =~= Seq::<u64>::empty());
        assert(delivered_of(newest, s.drop_last()) == Seq::<u64>::empty());
        assert(crate::sequencing::newest_after_all(newest, s.drop_last()) == newest);
        assert(delivered_of(newest, s) == Seq::<u64>::empty().push(k));
        assert(Seq::<u64>::empty().push(k) =~= seq![k]);
    }
}

/// After one or more copies of a deliverable `k`, the newest delivered number is `k`.
proof fn lemma_newest_after_copies(newest: Option<u64>, k: u64, n: nat)
    requires
        n >= 1,
        verdict_of(newest, k) is Deliver,
    ensures
        crate::sequencing::newest_after_all(newest, copies(k, n)) == Some(k),
    decreases n,
{
    let s = copies(k, n);
    assert(s.drop_last() =~= copies(k, (n - 1) as nat));
    if n > 1 {
        lemma_newest_after_copies(newest, k, (n - 1) as nat);
    } else {
        assert(copies(k, 0) =~= Seq::<u64>::empty());
    }
}

} // verus!
