use vstd::prelude::*;

use crate::config::THRESHOLD_PERCENT;

verus! {

/// One probe as a listener saw it; every kind of observation carries the monotonic time,
/// in milliseconds, at which it was received.
pub trait Observation: Sized + Copy {
    spec fn spec_received_at(&self) -> u64;

    fn received_at(&self) -> (r: u64)
        ensures
            r == self.spec_received_at(),
    ;
}

/// The latest receipt time in `s`, or `None` when `s` is empty.
pub open spec fn latest<O: Observation>(s: Seq<O>) -> Option<u64>
    decreases s.len(),
{
    if s.len() == 0 {
        None
    } else {
        let t = s.last().spec_received_at();
        match latest(s.drop_last()) {
            None => Some(t),
            Some(m) => Some(if m >= t { m } else { t }),
        }
    }
}

/// Number of observations that make a record complete when `expected` probes are sent.
pub open spec fn completion_threshold(expected: nat) -> nat {
    expected * (THRESHOLD_PERCENT as nat) / 100
}

/// The append-only, insertion-ordered observations of one peer.
pub struct PeerRecord<O> {
    events: Vec<O>,
}

impl<O> View for PeerRecord<O> {
    type V = Seq<O>;

    closed spec fn view(&self) -> Seq<O> {
        self.events@
    }
}

impl<O: Observation> PeerRecord<O> {
    /// A record without observations.
    pub fn new() -> (r: PeerRecord<O>)
        ensures
            r@ == Seq::<O>::empty(),
    {
        PeerRecord { events: Vec::new() }
    }

    /// A record that holds exactly `event`.
    pub fn with_event(event: O) -> (r: PeerRecord<O>)
        ensures
            r@ == seq![event],
    {
        let mut r = PeerRecord::new();
        r.record(event);
        assert(r@ =~= seq![event]);
        r
    }

    /// Appends `event` after the observations already held.
    pub fn record(&mut self, event: O)
        ensures
            final(self)@ == old(self)@.push(event),
    {
        self.events.push(event);
    }

    /// The latest receipt time over all observations.
    pub fn most_recent(&self) -> (r: Option<u64>)
        ensures
            r == latest(self@),
    {
        let mut best: Option<u64> = None;
        let mut i: usize = 0;
        while i < self.events.len()
            invariant
                i <= self.events@.len(),
                best == latest(self.events@.take(i as int)),
            decreases self.events@.len() - i,
        {
            let t = self.events[i].received_at();
            assert(self.events@.take(i + 1).drop_last() =~= self.events@.take(i as int));
            best = match best {
                None => Some(t),
                Some(m) => Some(if m >= t { m } else { t }),
            };
            i += 1;
        }
        assert(self.events@.take(i as int) =~= self.events@);
        best
    }

    /// Number of observations.
    pub fn test_count(&self) -> (r: usize)
        ensures
            r == self@.len(),
    {
        self.events.len()
    }

    /// Whether enough of the `expected` probes arrived to classify the peer.
    pub fn is_complete(&self, expected: usize) -> (r: bool)
        ensures
            r == (self@.len() >= completion_threshold(expected as nat)),
    {
        let threshold = (expected as u128) * (THRESHOLD_PERCENT as u128) / 100;
        (self.events.len() as u128) >= threshold
    }

    /// The observation at `index`, in insertion order.
    pub fn observation(&self, index: usize) -> (r: O)
        requires
            index < self@.len(),
        ensures
            r == self@[index as int],
    {
        self.events[index]
    }

    /// All observations, in insertion order.
    pub fn observations(&self) -> (r: &Vec<O>)
        ensures
            r@ == self@,
    {
        &self.events
    }
}

} // verus!
