use vstd::prelude::*;

verus! {

/// An outbound or inbound handshake that has started and not finished.
#[derive(Clone, Copy, Debug, PartialEq, Eq, Structural)]
pub struct Pending {
    pub request: u64,
    pub peer: u64,
}

/// The outcome of one handshake, as the incoming stream hands it out: which
/// request, which peer, and whether a connection was made.
#[derive(Clone, Copy, Debug, PartialEq, Eq, Structural)]
pub struct Completion {
    pub request: u64,
    pub peer: u64,
    pub ok: bool,
}

/// The bookkeeping behind the incoming-connection stream of one network handle.
///
/// Every handshake gets its own request number, so that two requests for one
/// peer stay two items. Outcomes are queued in the order the handshakes finish,
/// whatever the order of the requests, and one failing handshake leaves the
/// others untouched. Closing the handle cancels every handshake still in flight;
/// the stream then ends once its queue is drained.
pub struct HandshakeTable {
    pub next_request: u64,
    pub in_flight: Vec<Pending>,
    pub completed: Vec<Completion>,
    pub closed: bool,
}

/// The handshakes of `s` with every one for `request` taken out.
pub open spec fn without(s: Seq<Pending>, request: u64) -> Seq<Pending>
    decreases s.len(),
{
    if s.len() == 0 {
        s
    } else if s.last().request == request {
        without(s.drop_last(), request)
    } else {
        without(s.drop_last(), request).push(s.last())
    }
}

/// The peer of the handshake for `request` in `s`, if one is in flight.
pub open spec fn peer_of(s: Seq<Pending>, request: u64) -> Option<u64>
    decreases s.len(),
{
    if s.len() == 0 {
        None
    } else if s.last().request == request {
        Some(s.last().peer)
    } else {
        peer_of(s.drop_last(), request)
    }
}

/// The queue of outcomes after the handshake for `request` finishes with `ok`.
pub open spec fn completed_after(
    in_flight: Seq<Pending>,
    completed: Seq<Completion>,
    request: u64,
    ok: bool,
) -> Seq<Completion> {
    match peer_of(in_flight, request) {
        Some(peer) => completed.push(Completion { request, peer, ok }),
        None => completed,
    }
}

impl HandshakeTable {
    pub fn new() -> (r: HandshakeTable)
        ensures
            r.next_request == 0,
            r.in_flight@.len() == 0,
            r.completed@.len() == 0,
            !r.closed,
    {
        HandshakeTable { next_request: 0, in_flight: Vec::new(), completed: Vec::new(), closed: false }
    }

    /// Starts a handshake with `peer` and returns its request number; `None`, and
    /// nothing changes, once the handle is closed or the numbers are used up.
    pub fn start(&mut self, peer: u64) -> (r: Option<u64>)
        ensures
            final(self).completed@ == old(self).completed@,
            final(self).closed == old(self).closed,
            !old(self).closed && old(self).next_request < u64::MAX ==> r == Some(
                old(self).next_request,
            ) && final(self).next_request == old(self).next_request + 1 && final(self).in_flight@
                == old(self).in_flight@.push(Pending { request: old(self).next_request, peer }),
            old(self).closed || old(self).next_request == u64::MAX ==> r is None
                && final(self).in_flight@ == old(self).in_flight@
                && final(self).next_request == old(self).next_request,
    {
        if self.closed || self.next_request == u64::MAX {
            return None;
        }
        let request = self.next_request;
        self.in_flight.push(Pending { request, peer });
        self.next_request = self.next_request + 1;
        Some(request)
    }

    /// Records that the handshake for `request` finished, as a connection when
    /// `ok`, as a connection error otherwise. Returns whether it was in flight; one
    /// that is not (unknown, or cancelled) is ignored.
    pub fn finish(&mut self, request: u64, ok: bool) -> (r: bool)
        ensures
            r == (peer_of(old(self).in_flight@, request) is Some),
            final(self).in_flight@ == without(old(self).in_flight@, request),
            final(self).completed@ == completed_after(
                old(self).in_flight@,
                old(self).completed@,
                request,
                ok,
            ),
            final(self).next_request == old(self).next_request,
            final(self).closed == old(self).closed,
    {
        let mut kept: Vec<Pending> = Vec::new();
        let mut found: Option<u64> = None;
        let mut i: usize = 0;
        while i < self.in_flight.len()
            invariant
                i <= self.in_flight@.len(),
                self.in_flight@ == old(self).in_flight@,
                kept@ == without(self.in_flight@.take(i as int), request),
                found == peer_of(self.in_flight@.take(i as int), request),
            decreases self.in_flight@.len() - i,
        {
            let p = self.in_flight[i];
            assert(self.in_flight@.take(i as int + 1).drop_last() =~= self.in_flight@.take(i as int));
            if p.request == request {
                found = Some(p.peer);
            } else {
                kept.push(p);
            }
            i = i + 1;
        }
        assert(self.in_flight@.take(i as int) =~= self.in_flight@);
        self.in_flight = kept;
        match found {
            Some(peer) => {
                self.completed.push(Completion { request, peer, ok });
                true
            },
            None => false,
        }
    }

    /// Takes the oldest queued outcome off the stream.
    pub fn next_completion(&mut self) -> (r: Option<Completion>)
        ensures
            old(self).completed@.len() == 0 ==> r is None
                && final(self).completed@ == old(self).completed@,
            old(self).completed@.len() > 0 ==> r == Some(old(self).completed@[0])
                && final(self).completed@ == old(self).completed@.drop_first(),
            final(self).in_flight@ == old(self).in_flight@,
            final(self).next_request == old(self).next_request,
            final(self).closed == old(self).closed,
    {
        if self.completed.len() == 0 {
            None
        } else {
            let c = self.completed.remove(0);
            assert(self.completed@ =~= old(self).completed@.drop_first());
            Some(c)
        }
    }

    /// The stream has ended: closed, nothing in flight and nothing queued.
    pub fn is_terminated(&self) -> (r: bool)
        ensures
            r == (self.closed && self.in_flight@.len() == 0 && self.completed@.len() == 0),
    {
        self.closed && self.in_flight.len() == 0 && self.completed.len() == 0
    }

    /// Closes the handle: returns the request numbers of every handshake still in
    /// flight, to be aborted, and keeps none.
    pub fn close(&mut self) -> (r: Vec<u64>)
        ensures
            r@.len() == old(self).in_flight@.len(),
            forall|i: int| 0 <= i < r@.len() ==> r@[i] == old(self).in_flight@[i].request,
            final(self).in_flight@.len() == 0,
            final(self).closed,
            final(self).completed@ == old(self).completed@,
            final(self).next_request == old(self).next_request,
    {
        let mut r: Vec<u64> = Vec::new();
        let mut i: usize = 0;
        while i < self.in_flight.len()
            invariant
                i <= self.in_flight@.len(),
                self.in_flight@ == old(self).in_flight@,
                self.completed@ == old(self).completed@,
                self.next_request == old(self).next_request,
                r@.len() == i,
                forall|j: int| 0 <= j < i ==> r@[j] == self.in_flight@[j].request,
            decreases self.in_flight@.len() - i,
        {
            r.push(self.in_flight[i].request);
            i = i + 1;
        }
        self.in_flight = Vec::new();
        self.closed = true;
        r
    }
}

/// Finishing one handshake leaves every other one in flight, with its peer.
pub proof fn lemma_finish_keeps_others(s: Seq<Pending>, done: u64, other: u64)
    requires
        done != other,
    ensures
        peer_of(without(s, done), other) == peer_of(s, other),
    decreases s.len(),
{
    if s.len() > 0 {
        lemma_finish_keeps_others(s.drop_last(), done, other);
        assert(without(s, done).len() > 0 && s.last().request != done ==> without(s, done).drop_last()
            == without(s.drop_last(), done));
    }
}

/// Outcomes come out in the order the handshakes finish, not the order they were
/// requested, and a failed handshake does not keep another one from coming out:
/// when `b` finishes before `a`, the queue gains `b`'s outcome, then `a`'s, each
/// with its own result.
pub proof fn lemma_completion_order(
    in_flight: Seq<Pending>,
    completed: Seq<Completion>,
    a: u64,
    ok_a: bool,
    b: u64,
    ok_b: bool,
)
    requires
        a != b,
        peer_of(in_flight, a) is Some,
        peer_of(in_flight, b) is Some,
    ensures
        completed_after(
            without(in_flight, b),
            completed_after(in_flight, completed, b, ok_b),
            a,
            ok_a,
        ) == completed.push(Completion { request: b, peer: peer_of(in_flight, b)->0, ok: ok_b }).push(
            Completion { request: a, peer: peer_of(in_flight, a)->0, ok: ok_a },
        ),
{
    lemma_finish_keeps_others(in_flight, b, a);
}

} // verus!
