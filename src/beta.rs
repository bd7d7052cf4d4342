use vstd::prelude::*;

use crate::classify::{
    best_index, concluded, count_matching, first_max, lemma_count_matching_bound,
    lemma_first_max_unique, lemma_percent_bound, percent, percent_of,
};
use crate::config::{
    BETA_COUNT, CLOSE_PORT_TOLERANCE, ROUND_ROBIN_TOLERANCE, STALENESS_WINDOW_MS, THRESHOLD_PERCENT,
};
use crate::net::SocketAddress;
use crate::payload::{beta_fields, decode_beta_payload};
use crate::record::{completion_threshold, Observation, PeerRecord};
use crate::store::{fresh_part, with_event, ProbeStore};
use vstd::seq_lib::{to_multiset_build, to_multiset_insert};
use vstd::utf8::{decode_utf8, valid_utf8};

verus! {

/// A datagram that reached the Beta listener, with the origin port and sequence number that
/// the client wrote into it.
#[derive(Clone, Copy, Debug, PartialEq, Eq, Structural)]
pub struct BetaObservation {
    pub source: SocketAddress,
    pub claimed_origin_port: u16,
    pub sequence_number: u16,
    pub received_at: u64,
}

impl Observation for BetaObservation {
    open spec fn spec_received_at(&self) -> u64 {
        self.received_at
    }

    fn received_at(&self) -> (r: u64) {
        self.received_at
    }
}

/// What the Beta probes suggest of how the NAT picks external ports.
#[derive(Clone, Copy, Debug, PartialEq, Eq, Structural)]
pub enum BetaResult {
    Unknown,
    /// The external port was the client's own port.
    SrcPortAsOrig,
    /// The external port was the client's port plus one nonzero constant.
    SrcPortConstantDiffToOrig,
    /// The external port was near the client's port, but not equal to it.
    SrcPortCloseToOrig,
    /// External ports advanced in small forward steps in sequence order.
    SrcPortRoundRobin,
}

/// External port minus claimed origin port.
pub open spec fn port_delta(e: BetaObservation) -> int {
    e.source.port as int - e.claimed_origin_port as int
}

/// Whether `events` is not empty and every port delta in it equals the first.
pub open spec fn single_delta(events: Seq<BetaObservation>) -> bool {
    events.len() > 0 && forall|i: int|
        0 <= i < events.len() ==> port_delta(#[trigger] events[i]) == port_delta(events[0])
}

/// Whether the port delta of `e` is nonzero and within the close tolerance.
pub open spec fn is_close(e: BetaObservation) -> bool {
    port_delta(e) != 0 && -(CLOSE_PORT_TOLERANCE as int) <= port_delta(e) <= CLOSE_PORT_TOLERANCE
}

/// Index after the last element of `s` whose sequence number is at most `key`, or zero.
pub open spec fn insertion_point(s: Seq<BetaObservation>, key: u16) -> int
    decreases s.len(),
{
    if s.len() == 0 {
        0
    } else if s.last().sequence_number <= key {
        s.len() as int
    } else {
        insertion_point(s.drop_last(), key)
    }
}

/// `events` sorted by sequence number, stably: equal sequence numbers keep their order.
pub open spec fn sort_by_sequence(events: Seq<BetaObservation>) -> Seq<BetaObservation>
    decreases events.len(),
{
    if events.len() == 0 {
        events
    } else {
        let p = sort_by_sequence(events.drop_last());
        p.insert(insertion_point(p, events.last().sequence_number), events.last())
    }
}

/// The wrapping 16-bit differences between the external ports of neighbours in `s`.
pub open spec fn port_steps(s: Seq<BetaObservation>) -> Seq<u16> {
    Seq::new(
        (s.len() - 1) as nat,
        |i: int| (s[i + 1].source.port).wrapping_sub(s[i].source.port),
    )
}

/// Every hypothesis with its confidence, in the order they are registered: the `Unknown`
/// floor; for a complete record then the origin-port, constant-difference and close-port
/// hypotheses, and the round-robin one when there are two observations or more.
pub open spec fn beta_hypotheses(events: Seq<BetaObservation>) -> Seq<(BetaResult, usize)> {
    let floor = seq![(BetaResult::Unknown, THRESHOLD_PERCENT)];
    let n = events.len();
    if n < completion_threshold(BETA_COUNT as nat) {
        floor
    } else {
        let same = single_delta(events);
        let as_orig: usize = if same && port_delta(events[0]) == 0 {
            100
        } else {
            0
        };
        let constant_diff: usize = if same && port_delta(events[0]) != 0 {
            100
        } else {
            0
        };
        let close = percent(count_matching(events, |e: BetaObservation| is_close(e)), n) as usize;
        let base = floor + seq![
            (BetaResult::SrcPortAsOrig, as_orig),
            (BetaResult::SrcPortConstantDiffToOrig, constant_diff),
            (BetaResult::SrcPortCloseToOrig, close),
        ];
        if n < 2 {
            base
        } else {
            let steps = port_steps(sort_by_sequence(events));
            base.push(
                (
                    BetaResult::SrcPortRoundRobin,
                    percent(
                        count_matching(steps, |d: u16| d <= ROUND_ROBIN_TOLERANCE),
                        (n - 1) as nat,
                    ) as usize,
                ),
            )
        }
    }
}

/// The hypothesis of highest confidence, the first registered among equals.
pub open spec fn beta_conclusion(events: Seq<BetaObservation>) -> (BetaResult, usize) {
    concluded(beta_hypotheses(events))
}

pub proof fn lemma_insertion_point_bound(s: Seq<BetaObservation>, key: u16)
    ensures
        0 <= insertion_point(s, key) <= s.len(),
    decreases s.len(),
{
    if s.len() > 0 {
        lemma_insertion_point_bound(s.drop_last(), key);
    }
}

pub proof fn lemma_sort_len(events: Seq<BetaObservation>)
    ensures
        sort_by_sequence(events).len() == events.len(),
    decreases events.len(),
{
    if events.len() > 0 {
        lemma_sort_len(events.drop_last());
        lemma_insertion_point_bound(
            sort_by_sequence(events.drop_last()),
            events.last().sequence_number,
        );
    }
}

/// A record with fewer observations than the completion threshold yields the `Unknown`
/// floor hypothesis and nothing else.
pub proof fn lemma_beta_incomplete_is_unknown(events: Seq<BetaObservation>)
    requires
        events.len() < completion_threshold(BETA_COUNT as nat),
    ensures
        beta_hypotheses(events) == seq![(BetaResult::Unknown, THRESHOLD_PERCENT)],
        beta_conclusion(events) == (BetaResult::Unknown, THRESHOLD_PERCENT),
{
    assert(first_max(beta_hypotheses(events)) == 0);
}

/// Every confidence of a Beta classification is at most 100, and the second and third
/// hypotheses of a complete record are the origin-port and constant-difference ones.
proof fn lemma_beta_shape(events: Seq<BetaObservation>)
    requires
        events.len() >= completion_threshold(BETA_COUNT as nat),
    ensures
        beta_hypotheses(events).len() == 5,
        forall|j: int|
            0 <= j < beta_hypotheses(events).len() ==> #[trigger] beta_hypotheses(events)[j].1
                <= 100,
        beta_hypotheses(events)[0] == (BetaResult::Unknown, THRESHOLD_PERCENT),
        beta_hypotheses(events)[1].0 == BetaResult::SrcPortAsOrig,
        beta_hypotheses(events)[2].0 == BetaResult::SrcPortConstantDiffToOrig,
{
    let n = events.len();
    assert(completion_threshold(BETA_COUNT as nat) >= 2);
    let close = count_matching(events, |e: BetaObservation| is_close(e));
    lemma_count_matching_bound(events, |e: BetaObservation| is_close(e));
    lemma_percent_bound(close, n);
    let steps = port_steps(sort_by_sequence(events));
    lemma_sort_len(events);
    let small = count_matching(steps, |d: u16| d <= ROUND_ROBIN_TOLERANCE);
    lemma_count_matching_bound(steps, |d: u16| d <= ROUND_ROBIN_TOLERANCE);
    lemma_percent_bound(small, (n - 1) as nat);
    let h = beta_hypotheses(events);
    assert forall|j: int| 0 <= j < h.len() implies #[trigger] h[j].1 <= 100 by {}
}

/// When every observation of a complete record kept its origin port, the conclusion is
/// that the NAT preserves ports, with full confidence.
pub proof fn lemma_beta_port_preserved(events: Seq<BetaObservation>)
    requires
        events.len() >= completion_threshold(BETA_COUNT as nat),
        forall|i: int|
            0 <= i < events.len() ==> (#[trigger] events[i]).source.port
                == events[i].claimed_origin_port,
    ensures
        beta_conclusion(events) == (BetaResult::SrcPortAsOrig, 100usize),
{
    lemma_beta_shape(events);
    assert(completion_threshold(BETA_COUNT as nat) >= 2);
    assert(single_delta(events));
    let h = beta_hypotheses(events);
    assert(h[1] == (BetaResult::SrcPortAsOrig, 100usize));
    assert forall|j: int| 0 <= j < 1 implies #[trigger] h[j].1 < h[1].1 by {}
    lemma_first_max_unique(h, 1);
}

/// When the external port of every observation of a complete record is its origin port
/// plus one nonzero constant `k`, the conclusion is a constant difference, with full
/// confidence.
pub proof fn lemma_beta_constant_difference(events: Seq<BetaObservation>, k: int)
    requires
        events.len() >= completion_threshold(BETA_COUNT as nat),
        k != 0,
        forall|i: int| 0 <= i < events.len() ==> port_delta(#[trigger] events[i]) == k,
    ensures
        beta_conclusion(events) == (BetaResult::SrcPortConstantDiffToOrig, 100usize),
{
    lemma_beta_shape(events);
    assert(completion_threshold(BETA_COUNT as nat) >= 2);
    assert(port_delta(events[0]) == k);
    assert(single_delta(events));
    let h = beta_hypotheses(events);
    assert(h[1] == (BetaResult::SrcPortAsOrig, 0usize));
    assert(h[2] == (BetaResult::SrcPortConstantDiffToOrig, 100usize));
    assert forall|j: int| 0 <= j < 2 implies #[trigger] h[j].1 < h[2].1 by {}
    lemma_first_max_unique(h, 2);
}

/// Two records with the same observations reach the same conclusion: classifying a record
/// that has not changed again gives the same result.
pub proof fn lemma_beta_conclusion_stable(a: PeerRecord<BetaObservation>, b: PeerRecord<BetaObservation>)
    requires
        a@ == b@,
    ensures
        beta_conclusion(a@) == beta_conclusion(b@),
        beta_hypotheses(a@) == beta_hypotheses(b@),
{
}

/// Whether sequence numbers never decrease along `s`.
pub open spec fn ordered_by_sequence(s: Seq<BetaObservation>) -> bool {
    forall|i: int, j: int|
        0 <= i < j < s.len() ==> (#[trigger] s[i]).sequence_number <= (#[trigger] s[j]).sequence_number
}

/// In an ordered sequence, the insertion point of `key` has every smaller or equal
/// sequence number before it and every greater one from it on.
proof fn lemma_insertion_point_splits(s: Seq<BetaObservation>, key: u16)
    requires
        ordered_by_sequence(s),
    ensures
        0 <= insertion_point(s, key) <= s.len(),
        forall|i: int| 0 <= i < insertion_point(s, key) ==> (#[trigger] s[i]).sequence_number <= key,
        forall|i: int|
            insertion_point(s, key) <= i < s.len() ==> (#[trigger] s[i]).sequence_number > key,
    decreases s.len(),
{
    if s.len() > 0 {
        let p = s.drop_last();
        assert(ordered_by_sequence(p)) by {
            assert forall|i: int, j: int| 0 <= i < j < p.len() implies (#[trigger] p[i]).sequence_number
                <= (#[trigger] p[j]).sequence_number by {
                assert(p[i] == s[i] && p[j] == s[j]);
            }
        }
        lemma_insertion_point_splits(p, key);
        assert(s.last() == s[s.len() - 1]);
        if s.last().sequence_number <= key {
            assert forall|i: int| 0 <= i < s.len() implies (#[trigger] s[i]).sequence_number <= key by {
                if i < s.len() - 1 {
                    assert(s[i].sequence_number <= s[s.len() - 1].sequence_number);
                }
            }
        } else {
            assert forall|i: int| 0 <= i < insertion_point(s, key) implies (
            #[trigger] s[i]).sequence_number <= key by {
                assert(s[i] == p[i]);
            }
            assert forall|i: int| insertion_point(s, key) <= i < s.len() implies (
            #[trigger] s[i]).sequence_number > key by {
                if i < s.len() - 1 {
                    assert(s[i] == p[i]);
                }
            }
        }
    }
}

/// `sort_by_sequence` orders by sequence number and keeps every observation, as often as
/// it occurs.
pub proof fn lemma_sort_by_sequence(events: Seq<BetaObservation>)
    ensures
        ordered_by_sequence(sort_by_sequence(events)),
        sort_by_sequence(events).to_multiset() == events.to_multiset(),
    decreases events.len(),
{
    if events.len() == 0 {
    } else {
        let rest = events.drop_last();
        let x = events.last();
        let p = sort_by_sequence(rest);
        lemma_sort_by_sequence(rest);
        let ip = insertion_point(p, x.sequence_number);
        lemma_insertion_point_splits(p, x.sequence_number);
        let q = p.insert(ip, x);
        assert(q == sort_by_sequence(events));
        assert forall|i: int, j: int| 0 <= i < j < q.len() implies (#[trigger] q[i]).sequence_number
            <= (#[trigger] q[j]).sequence_number by {
            if j < ip {
                assert(q[i] == p[i] && q[j] == p[j]);
            } else if j == ip {
                assert(q[i] == p[i]);
            } else if i < ip {
                assert(q[i] == p[i] && q[j] == p[j - 1]);
            } else if i == ip {
                assert(q[j] == p[j - 1]);
            } else {
                assert(q[i] == p[i - 1] && q[j] == p[j - 1]);
            }
        }
        to_multiset_insert(p, ip, x);
        assert(events == rest.push(x));
        to_multiset_build(rest, x);
    }
}

/// A copy of `events` sorted stably by sequence number.
fn sorted_by_sequence(events: &Vec<BetaObservation>) -> (r: Vec<BetaObservation>)
    ensures
        r@ == sort_by_sequence(events@),
{
    let mut out: Vec<BetaObservation> = Vec::new();
    let mut i: usize = 0;
    while i < events.len()
        invariant
            i <= events@.len(),
            out@ == sort_by_sequence(events@.take(i as int)),
        decreases events@.len() - i,
    {
        let e = events[i];
        let key = e.sequence_number;
        let mut j: usize = out.len();
        assert(out@.take(j as int) =~= out@);
        while j > 0 && out[j - 1].sequence_number > key
            invariant
                j <= out@.len(),
                insertion_point(out@.take(j as int), key) == insertion_point(out@, key),
            decreases j,
        {
            assert(out@.take(j as int).drop_last() =~= out@.take(j - 1));
            j -= 1;
        }
        proof {
            if j > 0 {
                assert(out@.take(j as int).last() == out@[j - 1]);
            }
            let t = events@.take(i + 1);
            assert(t.drop_last() =~= events@.take(i as int));
            assert(t.last() == e);
        }
        out.insert(j, e);
        i += 1;
    }
    assert(events@.take(i as int) =~= events@);
    out
}

/// Whether every port delta of `events` equals the first (and that delta), and how many
/// deltas are close.
fn delta_summary(events: &Vec<BetaObservation>) -> (r: (bool, i32, usize))
    ensures
        r.0 == single_delta(events@),
        events@.len() > 0 ==> r.1 == port_delta(events@[0]),
        r.2 == count_matching(events@, |e: BetaObservation| is_close(e)),
        r.2 <= events@.len(),
{
    let total = events.len();
    let ghost ev = events@;
    let mut same = true;
    let mut close: usize = 0;
    let mut first: i32 = 0;
    if total > 0 {
        first = events[0].source.port as i32 - events[0].claimed_origin_port as i32;
    }
    let mut i: usize = 0;
    while i < total
        invariant
            ev == events@,
            total == ev.len(),
            i <= total,
            total > 0 ==> first == port_delta(ev[0]),
            same == forall|t: int| 0 <= t < i ==> port_delta(#[trigger] ev[t]) == first,
            close == count_matching(ev.take(i as int), |e: BetaObservation| is_close(e)),
            close <= i,
        decreases total - i,
    {
        let e = events[i];
        let delta = e.source.port as i32 - e.claimed_origin_port as i32;
        if delta != first {
            same = false;
        }
        if delta != 0 && -CLOSE_PORT_TOLERANCE <= delta && delta <= CLOSE_PORT_TOLERANCE {
            close += 1;
        }
        assert(ev.take(i + 1).drop_last() =~= ev.take(i as int));
        i += 1;
    }
    assert(ev.take(i as int) =~= ev);
    (total > 0 && same, first, close)
}

/// How many of the port steps of `sorted` are small forward steps.
fn small_steps(sorted: &Vec<BetaObservation>) -> (r: usize)
    requires
        sorted@.len() >= 2,
    ensures
        r == count_matching(port_steps(sorted@), |d: u16| d <= ROUND_ROBIN_TOLERANCE),
        r < sorted@.len(),
{
    let total = sorted.len();
    let ghost steps = port_steps(sorted@);
    let mut small: usize = 0;
    let mut k: usize = 1;
    while k < total
        invariant
            sorted@.len() == total,
            total >= 2,
            steps == port_steps(sorted@),
            1 <= k <= total,
            small == count_matching(steps.take(k - 1), |d: u16| d <= ROUND_ROBIN_TOLERANCE),
            small < k,
        decreases total - k,
    {
        let step = sorted[k].source.port.wrapping_sub(sorted[k - 1].source.port);
        assert(steps[k - 1] == step);
        if step <= ROUND_ROBIN_TOLERANCE {
            small += 1;
        }
        assert(steps.take(k as int).drop_last() =~= steps.take(k - 1));
        k += 1;
    }
    assert(steps.take(k - 1) =~= steps);
    small
}

impl PeerRecord<BetaObservation> {
    /// Every hypothesis with its confidence, in registration order.
    pub fn analysis(&self) -> (r: Vec<(BetaResult, usize)>)
        ensures
            r@ == beta_hypotheses(self@),
    {
        let mut results: Vec<(BetaResult, usize)> = Vec::new();
        results.push((BetaResult::Unknown, THRESHOLD_PERCENT));
        if !self.is_complete(BETA_COUNT) {
            return results;
        }
        let events = self.observations();
        let total = events.len();
        let (same, first, close) = delta_summary(events);
        results.push((BetaResult::SrcPortAsOrig, if same && first == 0 { 100 } else { 0 }));
        results.push(
            (BetaResult::SrcPortConstantDiffToOrig, if same && first != 0 { 100 } else { 0 }),
        );
        results.push((BetaResult::SrcPortCloseToOrig, percent_of(close, total)));
        if total < 2 {
            return results;
        }
        let sorted = sorted_by_sequence(events);
        proof {
            lemma_sort_len(events@);
        }
        let small = small_steps(&sorted);
        results.push((BetaResult::SrcPortRoundRobin, percent_of(small, total - 1)));
        results
    }

    /// The hypothesis of highest confidence, the first registered among equals.
    pub fn conclusion(&self) -> (r: (BetaResult, usize))
        ensures
            r == beta_conclusion(self@),
    {
        let h = self.analysis();
        let i = best_index(&h);
        h[i]
    }
}

/// Whether `payload` is a Beta probe that the listener records.
pub open spec fn beta_accepted(payload: Seq<u8>) -> bool {
    valid_utf8(payload) && match beta_fields(payload) {
        Some((id, _, _)) => valid_utf8(id),
        None => false,
    }
}

/// The conclusion for the record of `peer_id` in `m`, if it has one.
pub open spec fn beta_lookup(m: Map<Seq<char>, Seq<BetaObservation>>, peer_id: Seq<char>) -> Option<
    (BetaResult, usize),
> {
    if m.contains_key(peer_id) {
        Some(beta_conclusion(m[peer_id]))
    } else {
        None
    }
}

/// The store of the Beta test, fed by the single Beta listener port.
pub struct BetaManager {
    data: ProbeStore<BetaObservation>,
}

impl View for BetaManager {
    type V = Map<Seq<char>, Seq<BetaObservation>>;

    closed spec fn view(&self) -> Map<Seq<char>, Seq<BetaObservation>> {
        self.data@
    }
}

impl BetaManager {
    pub closed spec fn wf(&self) -> bool {
        self.data.wf()
    }

    pub fn new() -> (r: BetaManager)
        ensures
            r.wf(),
            r@ == Map::<Seq<char>, Seq<BetaObservation>>::empty(),
    {
        BetaManager { data: ProbeStore::new() }
    }

    /// The store itself.
    pub fn data(&self) -> (r: &ProbeStore<BetaObservation>)
        requires
            self.wf(),
        ensures
            r.wf(),
            r@ == self@,
    {
        &self.data
    }

    /// Handles one datagram that arrived from `source` at time `now`: a well-formed Beta
    /// payload is recorded under its peer identifier, with the origin port and sequence
    /// number it carries; any other is dropped. Returns whether the datagram was recorded.
    pub fn handle_datagram(&mut self, payload: &[u8], source: SocketAddress, now: u64) -> (r:
        bool)
        requires
            old(self).wf(),
        ensures
            final(self).wf(),
            r == beta_accepted(payload@),
            r ==> {
                let (id, port, seq) = beta_fields(payload@)->0;
                final(self)@ == with_event(
                    old(self)@,
                    decode_utf8(id),
                    BetaObservation {
                        source,
                        claimed_origin_port: port,
                        sequence_number: seq,
                        received_at: now,
                    },
                )
            },
            !r ==> final(self)@ == old(self)@,
    {
        match decode_beta_payload(payload) {
            Some(probe) => {
                let event = BetaObservation {
                    source,
                    claimed_origin_port: probe.claimed_origin_port,
                    sequence_number: probe.sequence_number,
                    received_at: now,
                };
                self.data.upsert(probe.peer_id.as_str(), event);
                true
            },
            None => false,
        }
    }

    /// One sweep of the reaper at time `now`: every record whose latest observation is as
    /// old as the staleness window or older is removed, every other one kept.
    pub fn evict_stale(&mut self, now: u64)
        requires
            old(self).wf(),
        ensures
            final(self).wf(),
            final(self)@ == fresh_part(old(self)@, now, STALENESS_WINDOW_MS),
    {
        self.data.evict_stale(now, STALENESS_WINDOW_MS);
    }

    /// The conclusion for `peer_id`, or `None` when it has no record.
    pub fn conclusion_for(&self, peer_id: &str) -> (r: Option<(BetaResult, usize)>)
        requires
            self.wf(),
        ensures
            r == beta_lookup(self@, peer_id@),
    {
        match self.data.get(peer_id) {
            Some(record) => Some(record.conclusion()),
            None => None,
        }
    }
}

} // verus!
