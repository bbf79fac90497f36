use vstd::prelude::*;

verus! {

/// A unit of data labelled with its sequence number.
#[derive(Debug)]
pub struct Unit {
    pub seq: u64,
    pub payload: Vec<u8>,
}

/// The sending half of a sequencing transport: numbers each unit, starting at zero.
pub struct SequenceStamper {
    pub next: u64,
}

/// What the receiving half decides for one incoming unit.
///
/// Gaps are reported, not waited for: a unit newer than every unit delivered so
/// far is delivered at once, together with how many numbers it skipped; a unit at
/// or below the newest delivered one is a duplicate or arrived late and is dropped.
#[derive(Clone, Copy, Debug, PartialEq, Eq, Structural)]
pub enum SeqVerdict {
    Deliver { skipped: u64 },
    Stale,
}

/// The receiving half of a sequencing transport. `newest` is the sequence number
/// of the last unit handed to the caller, if any.
pub struct Resequencer {
    pub newest: Option<u64>,
}

/// The verdict on an incoming number, given the newest delivered one.
pub open spec fn verdict_of(newest: Option<u64>, seq: u64) -> SeqVerdict {
    match newest {
        None => SeqVerdict::Deliver { skipped: seq },
        Some(h) => if seq > h {
            SeqVerdict::Deliver { skipped: (seq - h - 1) as u64 }
        } else {
            SeqVerdict::Stale
        },
    }
}

/// The newest delivered number after the verdict on `seq`.
pub open spec fn newest_after(newest: Option<u64>, seq: u64) -> Option<u64> {
    match verdict_of(newest, seq) {
        SeqVerdict::Deliver { .. } => Some(seq),
        SeqVerdict::Stale => newest,
    }
}

/// The newest delivered number after a whole run of incoming numbers.
pub open spec fn newest_after_all(newest: Option<u64>, incoming: Seq<u64>) -> Option<u64>
    decreases incoming.len(),
{
    if incoming.len() == 0 {
        newest
    } else {
        newest_after(newest_after_all(newest, incoming.drop_last()), incoming.last())
    }
}

/// The numbers handed to the caller, in order, for a run of incoming numbers.
pub open spec fn delivered_of(newest: Option<u64>, incoming: Seq<u64>) -> Seq<u64>
    decreases incoming.len(),
{
    if incoming.len() == 0 {
        Seq::empty()
    } else {
        let before = delivered_of(newest, incoming.drop_last());
        match verdict_of(newest_after_all(newest, incoming.drop_last()), incoming.last()) {
            SeqVerdict::Deliver { .. } => before.push(incoming.last()),
            SeqVerdict::Stale => before,
        }
    }
}

/// Strictly increasing: no number comes twice, and none before a smaller one.
pub open spec fn strictly_increasing(s: Seq<u64>) -> bool {
    forall|i: int, j: int| 0 <= i < j < s.len() ==> s[i] < s[j]
}

/// Every delivered number is above `newest`, when there is one.
pub open spec fn all_above(newest: Option<u64>, s: Seq<u64>) -> bool {
    match newest {
        None => true,
        Some(h) => forall|i: int| 0 <= i < s.len() ==> s[i] > h,
    }
}

impl SequenceStamper {
    pub fn new() -> (r: SequenceStamper)
        ensures
            r.next == 0,
    {
        SequenceStamper { next: 0 }
    }

    /// Labels `payload` with the next number. Once every number has been used it
    /// hands out none: `None`, and the stamper is unchanged.
    pub fn stamp(&mut self, payload: Vec<u8>) -> (r: Option<Unit>)
        ensures
            old(self).next < u64::MAX ==> r == Some(Unit { seq: old(self).next, payload })
                && final(self).next == old(self).next + 1,
            old(self).next == u64::MAX ==> r is None && final(self).next == old(self).next,
    {
        if self.next == u64::MAX {
            return None;
        }
        let seq = self.next;
        self.next = self.next + 1;
        Some(Unit { seq, payload })
    }
}

impl Resequencer {
    pub fn new() -> (r: Resequencer)
        ensures
            r.newest is None,
    {
        Resequencer { newest: None }
    }

    /// Decides on one incoming sequence number.
    pub fn accept(&mut self, seq: u64) -> (r: SeqVerdict)
        ensures
            r == verdict_of(old(self).newest, seq),
            final(self).newest == newest_after(old(self).newest, seq),
    {
        match self.newest {
            None => {
                self.newest = Some(seq);
                SeqVerdict::Deliver { skipped: seq }
            },
            Some(h) => {
                if seq > h {
                    self.newest = Some(seq);
                    SeqVerdict::Deliver { skipped: seq - h - 1 }
                } else {
                    SeqVerdict::Stale
                }
            },
        }
    }

    /// Passes a unit through: its payload when it is delivered, `None` when it is
    /// stale.
    pub fn receive(&mut self, unit: Unit) -> (r: Option<Vec<u8>>)
        ensures
            final(self).newest == newest_after(old(self).newest, unit.seq),
            r == match verdict_of(old(self).newest, unit.seq) {
                SeqVerdict::Deliver { .. } => Some(unit.payload),
                SeqVerdict::Stale => None::<Vec<u8>>,
            },
    {
        match self.accept(unit.seq) {
            SeqVerdict::Deliver { .. } => Some(unit.payload),
            SeqVerdict::Stale => None,
        }
    }

    /// Runs a whole sequence of incoming numbers through, and returns those that
    /// were delivered, in order.
    pub fn accept_all(&mut self, incoming: &Vec<u64>) -> (r: Vec<u64>)
        ensures
            r@ == delivered_of(old(self).newest, incoming@),
            final(self).newest == newest_after_all(old(self).newest, incoming@),
    {
        let ghost start = self.newest;
        let mut out: Vec<u64> = Vec::new();
        let mut i: usize = 0;
        while i < incoming.len()
            invariant
                i <= incoming@.len(),
                out@ == delivered_of(start, incoming@.take(i as int)),
                self.newest == newest_after_all(start, incoming@.take(i as int)),
            decreases incoming.len() - i,
        {
            let seq = incoming[i];
            assert(incoming@.take(i as int + 1).drop_last() =~= incoming@.take(i as int));
            match self.accept(seq) {
                SeqVerdict::Deliver { .. } => out.push(seq),
                SeqVerdict::Stale => {},
            }
            i = i + 1;
        }
        assert(incoming@.take(i as int) =~= incoming@);
        out
    }
}

/// Whatever order the lower layer hands units over in, with losses and
/// duplicates, the numbers delivered are strictly increasing and all newer than
/// anything delivered before: no unit is delivered twice, and no unit after one
/// with a larger number.
pub proof fn lemma_delivery_in_order(newest: Option<u64>, incoming: Seq<u64>)
    ensures
        strictly_increasing(delivered_of(newest, incoming)),
        all_above(newest, delivered_of(newest, incoming)),
        match newest_after_all(newest, incoming) {
            None => delivered_of(newest, incoming).len() == 0,
            Some(h) => forall|i: int| 0 <= i < delivered_of(newest, incoming).len()
                ==> delivered_of(newest, incoming)[i] <= h,
        },
        newest is Some ==> newest_after_all(newest, incoming) is Some,
        newest_after_all(newest, incoming) is Some && delivered_of(newest, incoming).len() > 0
            ==> delivered_of(newest, incoming).last() == newest_after_all(newest, incoming)->0,
    decreases incoming.len(),
{
    if incoming.len() > 0 {
        let rest = incoming.drop_last();
        lemma_delivery_in_order(newest, rest);
        let d = delivered_of(newest, rest);
        let h = newest_after_all(newest, rest);
        match h {
            None => {},
            Some(hv) => {
                match newest {
                    None => {},
                    Some(n) => {
                        assert(hv >= n) by {
                            lemma_newest_grows(newest, rest);
                        }
                    },
                }
            },
        }
    }
}

/// The newest delivered number never goes down.
pub proof fn lemma_newest_grows(newest: Option<u64>, incoming: Seq<u64>)
    ensures
        newest is Some ==> newest_after_all(newest, incoming) is Some
            && newest_after_all(newest, incoming)->0 >= newest->0,
    decreases incoming.len(),
{
    if incoming.len() > 0 {
        lemma_newest_grows(newest, incoming.drop_last());
    }
}

} // verus!
