use vstd::prelude::*;

use crate::classify::{
    best_index, concluded, distinct, first_max, lemma_constant_seq, lemma_distinct,
    lemma_first_max_unique, lemma_no_duplicates_seq, lemma_occurrences_bound, lemma_percent_bound,
    occurrences, percent, percent_of,
};
use crate::config::{ALPHA_PORT_COUNT, STALENESS_WINDOW_MS, THRESHOLD_PERCENT};
use crate::net::{IpAddress, SocketAddress};
use crate::payload::decode_alpha_payload;
use crate::record::{completion_threshold, Observation, PeerRecord};
use crate::store::{fresh_part, with_event, ProbeStore};
use vstd::utf8::{decode_utf8, valid_utf8};

verus! {

/// A datagram that reached one of the Alpha listener ports.
#[derive(Clone, Copy, Debug, PartialEq, Eq, Structural)]
pub struct AlphaObservation {
    pub source: SocketAddress,
    pub received_at: u64,
}

impl Observation for AlphaObservation {
    open spec fn spec_received_at(&self) -> u64 {
        self.received_at
    }

    fn received_at(&self) -> (r: u64) {
        self.received_at
    }
}

/// What the Alpha probes suggest of the NAT's source mapping.
#[derive(Clone, Copy, Debug, PartialEq, Eq, Structural)]
pub enum AlphaResult {
    Unknown,
    /// The NAT kept one external address and port whatever the destination port.
    SrcIpPortConstant(IpAddress, u16),
    /// The NAT used another external address or port for each destination port.
    SrcIpPortInconstant,
}

/// The source addresses of `events`, in order.
pub open spec fn sources(events: Seq<AlphaObservation>) -> Seq<SocketAddress> {
    events.map_values(|e: AlphaObservation| e.source)
}

/// How many of the values `d` occur exactly once in `s`.
pub open spec fn once_count<A>(d: Seq<A>, s: Seq<A>) -> nat
    decreases d.len(),
{
    if d.len() == 0 {
        0
    } else {
        once_count(d.drop_last(), s) + if occurrences(s, d.last()) == 1 {
            1nat
        } else {
            0nat
        }
    }
}

/// The hypothesis that the NAT always used `a`, with the share of `src` that came from it.
pub open spec fn constant_hypothesis(src: Seq<SocketAddress>, a: SocketAddress) -> (
    AlphaResult,
    usize,
) {
    (AlphaResult::SrcIpPortConstant(a.ip, a.port), percent(occurrences(src, a), src.len()) as usize)
}

/// Every hypothesis with its confidence, in the order they are registered: the `Unknown`
/// floor; for a complete record then one constant-source hypothesis per distinct source,
/// in order of first appearance, and the inconstant-source hypothesis.
pub open spec fn alpha_hypotheses(events: Seq<AlphaObservation>) -> Seq<(AlphaResult, usize)> {
    let floor = seq![(AlphaResult::Unknown, THRESHOLD_PERCENT)];
    if events.len() < completion_threshold(ALPHA_PORT_COUNT as nat) {
        floor
    } else {
        let src = sources(events);
        let d = distinct(src);
        floor + d.map_values(|a: SocketAddress| constant_hypothesis(src, a)) + seq![
            (
                AlphaResult::SrcIpPortInconstant,
                percent(once_count(d, src), events.len()) as usize,
            ),
        ]
    }
}

/// The hypothesis of highest confidence, the first registered among equals.
pub open spec fn alpha_conclusion(events: Seq<AlphaObservation>) -> (AlphaResult, usize) {
    concluded(alpha_hypotheses(events))
}

/// A record with fewer observations than the completion threshold yields the `Unknown`
/// floor hypothesis and nothing else.
pub proof fn lemma_alpha_incomplete_is_unknown(events: Seq<AlphaObservation>)
    requires
        events.len() < completion_threshold(ALPHA_PORT_COUNT as nat),
    ensures
        alpha_hypotheses(events) == seq![(AlphaResult::Unknown, THRESHOLD_PERCENT)],
        alpha_conclusion(events) == (AlphaResult::Unknown, THRESHOLD_PERCENT),
{
    assert(first_max(alpha_hypotheses(events)) == 0);
}

/// When every observation of a complete record came from one source address, the
/// conclusion is that this address is constant, with full confidence.
pub proof fn lemma_alpha_constant_source(events: Seq<AlphaObservation>, a: SocketAddress)
    requires
        events.len() >= completion_threshold(ALPHA_PORT_COUNT as nat),
        forall|i: int| 0 <= i < events.len() ==> (#[trigger] events[i]).source == a,
    ensures
        alpha_conclusion(events) == (AlphaResult::SrcIpPortConstant(a.ip, a.port), 100usize),
{
    let src = sources(events);
    let n = events.len();
    assert(completion_threshold(ALPHA_PORT_COUNT as nat) >= 2);
    assert forall|i: int| 0 <= i < src.len() implies src[i] == a by {
        assert(src[i] == events[i].source);
    }
    lemma_constant_seq(src, a);
    let d = distinct(src);
    assert(d.drop_last() =~= Seq::<SocketAddress>::empty());
    assert(d.last() == a);
    assert(once_count(d, src) == 0) by {
        assert(once_count(d.drop_last(), src) == 0);
    }
    lemma_percent_bound(n, n);
    lemma_percent_bound(0, n);
    let h = alpha_hypotheses(events);
    assert(h =~= seq![
        (AlphaResult::Unknown, THRESHOLD_PERCENT),
        (AlphaResult::SrcIpPortConstant(a.ip, a.port), 100usize),
        (AlphaResult::SrcIpPortInconstant, 0usize),
    ]);
    lemma_first_max_unique(h, 1);
}

/// Number of values in `d` that occur once in `s` is all of them when each occurs once.
proof fn lemma_once_count_all<A>(d: Seq<A>, s: Seq<A>)
    requires
        forall|i: int| 0 <= i < d.len() ==> occurrences(s, #[trigger] d[i]) == 1,
    ensures
        once_count(d, s) == d.len(),
    decreases d.len(),
{
    if d.len() > 0 {
        let p = d.drop_last();
        assert forall|i: int| 0 <= i < p.len() implies occurrences(s, #[trigger] p[i]) == 1 by {
            assert(p[i] == d[i]);
        }
        lemma_once_count_all(p, s);
        assert(d.last() == d[d.len() - 1]);
    }
}

/// When the observations of a complete record all came from different source addresses,
/// the conclusion is that the source is inconstant, with full confidence.
pub proof fn lemma_alpha_all_sources_distinct(events: Seq<AlphaObservation>)
    requires
        events.len() >= completion_threshold(ALPHA_PORT_COUNT as nat),
        forall|i: int, j: int|
            0 <= i < j < events.len() ==> (#[trigger] events[i]).source != (#[trigger] events[j]).source,
    ensures
        alpha_conclusion(events) == (AlphaResult::SrcIpPortInconstant, 100usize),
{
    let src = sources(events);
    let n = events.len() as int;
    assert(completion_threshold(ALPHA_PORT_COUNT as nat) >= 2);
    assert(src.no_duplicates()) by {
        assert forall|i: int, j: int| 0 <= i < src.len() && 0 <= j < src.len() && i != j implies src[i]
            != src[j] by {
            assert(src[i] == events[i].source && src[j] == events[j].source);
        }
    }
    lemma_no_duplicates_seq(src);
    lemma_once_count_all(src, src);
    lemma_percent_bound(n as nat, n as nat);
    lemma_percent_bound(1, n as nat);
    let h = alpha_hypotheses(events);
    assert(h.len() == n + 2);
    assert(h[n + 1] == (AlphaResult::SrcIpPortInconstant, 100usize));
    assert forall|j: int| 0 <= j < n + 1 implies #[trigger] h[j].1 < 100 by {
        if j > 0 {
            assert(h[j] == constant_hypothesis(src, src[j - 1]));
        }
    }
    lemma_first_max_unique(h, n + 1);
}

/// Two records with the same observations reach the same conclusion: classifying a record
/// that has not changed again gives the same result.
pub proof fn lemma_alpha_conclusion_stable(a: PeerRecord<AlphaObservation>, b: PeerRecord<AlphaObservation>)
    requires
        a@ == b@,
    ensures
        alpha_conclusion(a@) == alpha_conclusion(b@),
        alpha_hypotheses(a@) == alpha_hypotheses(b@),
{
}

/// Index of the group of `a`, if it has one.
fn find_group(groups: &Vec<(SocketAddress, usize)>, a: SocketAddress) -> (r: Option<usize>)
    ensures
        match r {
            Some(j) => j < groups@.len() && groups@[j as int].0 == a,
            None => forall|t: int| 0 <= t < groups@.len() ==> groups@[t].0 != a,
        },
{
    let mut j: usize = 0;
    while j < groups.len()
        invariant
            j <= groups@.len(),
            forall|t: int| 0 <= t < j ==> groups@[t].0 != a,
        decreases groups@.len() - j,
    {
        if groups[j].0 == a {
            return Some(j);
        }
        j += 1;
    }
    None
}

/// The distinct sources of `events` in order of first appearance, each with its count.
fn group_sources(events: &Vec<AlphaObservation>) -> (groups: Vec<(SocketAddress, usize)>)
    ensures
        groups@.len() == distinct(sources(events@)).len(),
        forall|j: int|
            0 <= j < groups@.len() ==> {
                &&& (#[trigger] groups@[j]).0 == distinct(sources(events@))[j]
                &&& groups@[j].1 == occurrences(sources(events@), groups@[j].0)
            },
{
    let ghost src = sources(events@);
    let mut groups: Vec<(SocketAddress, usize)> = Vec::new();
    let mut i: usize = 0;
    while i < events.len()
        invariant
            src == sources(events@),
            i <= events@.len(),
            groups@.len() == distinct(src.take(i as int)).len(),
            forall|j: int|
                0 <= j < groups@.len() ==> {
                    &&& (#[trigger] groups@[j]).0 == distinct(src.take(i as int))[j]
                    &&& groups@[j].1 == occurrences(src.take(i as int), groups@[j].0)
                    &&& groups@[j].1 <= i
                },
        decreases events@.len() - i,
    {
        let a = events[i].source;
        let ghost before = src.take(i as int);
        let ghost after = src.take(i + 1);
        assert(after.drop_last() =~= before);
        assert(after.last() == a);
        proof {
            lemma_distinct(before);
        }
        let ghost old_groups = groups@;
        match find_group(&groups, a) {
            Some(j) => {
                let c = groups[j].1;
                groups.set(j, (a, c + 1));
                assert(distinct(before).contains(a)) by {
                    assert(distinct(before)[j as int] == a);
                }
                assert(distinct(after) == distinct(before));
                assert forall|t: int| 0 <= t < groups@.len() implies {
                    &&& (#[trigger] groups@[t]).0 == distinct(after)[t]
                    &&& groups@[t].1 == occurrences(after, groups@[t].0)
                    &&& groups@[t].1 <= i + 1
                } by {
                    if t != j {
                        assert(groups@[t] == old_groups[t]);
                        assert(old_groups[t].0 != a) by {
                            assert(distinct(before).no_duplicates());
                        }
                    }
                }
            },
            None => {
                assert(!distinct(before).contains(a)) by {
                    if distinct(before).contains(a) {
                        let t = choose|t: int|
                            0 <= t < distinct(before).len() && distinct(before)[t] == a;
                        assert(groups@[t].0 == a);
                    }
                }
                assert(occurrences(before, a) == 0);
                groups.push((a, 1));
                assert(distinct(after) == distinct(before).push(a));
                assert forall|t: int| 0 <= t < groups@.len() implies {
                    &&& (#[trigger] groups@[t]).0 == distinct(after)[t]
                    &&& groups@[t].1 == occurrences(after, groups@[t].0)
                    &&& groups@[t].1 <= i + 1
                } by {
                    if t < old_groups.len() {
                        assert(groups@[t] == old_groups[t]);
                    }
                }
            },
        }
        i += 1;
    }
    assert(src.take(i as int) =~= src);
    groups
}

impl PeerRecord<AlphaObservation> {
    /// Every hypothesis with its confidence, in registration order.
    pub fn analysis(&self) -> (r: Vec<(AlphaResult, usize)>)
        ensures
            r@ == alpha_hypotheses(self@),
    {
        let mut results: Vec<(AlphaResult, usize)> = Vec::new();
        results.push((AlphaResult::Unknown, THRESHOLD_PERCENT));
        if !self.is_complete(ALPHA_PORT_COUNT as usize) {
            return results;
        }
        let total = self.test_count();
        let ghost src = sources(self@);
        let ghost d = distinct(src);
        let ghost floor = seq![(AlphaResult::Unknown, THRESHOLD_PERCENT)];
        let groups = group_sources(self.observations());
        proof {
            lemma_distinct(src);
        }
        let mut singles: usize = 0;
        let mut j: usize = 0;
        while j < groups.len()
            invariant
                src == sources(self@),
                d == distinct(src),
                total == self@.len(),
                src.len() == total,
                d.len() <= total,
                floor == seq![(AlphaResult::Unknown, THRESHOLD_PERCENT)],
                groups@.len() == d.len(),
                forall|t: int|
                    0 <= t < groups@.len() ==> {
                        &&& (#[trigger] groups@[t]).0 == d[t]
                        &&& groups@[t].1 == occurrences(src, groups@[t].0)
                    },
                j <= groups@.len(),
                singles <= j,
                singles == once_count(d.take(j as int), src),
                results@ == floor + d.take(j as int).map_values(
                    |a: SocketAddress| constant_hypothesis(src, a),
                ),
            decreases groups@.len() - j,
        {
            let (a, c) = groups[j];
            proof {
                lemma_occurrences_bound(src, a);
                assert(d.take(j + 1).drop_last() =~= d.take(j as int));
            }
            let confidence = percent_of(c, total);
            results.push((AlphaResult::SrcIpPortConstant(a.ip, a.port), confidence));
            if c == 1 {
                singles += 1;
            }
            assert(d.take(j + 1).map_values(|a: SocketAddress| constant_hypothesis(src, a))
                =~= d.take(j as int).map_values(|a: SocketAddress| constant_hypothesis(src, a)).push(
                constant_hypothesis(src, a),
            ));
            j += 1;
        }
        assert(d.take(j as int) =~= d);
        let confidence = percent_of(singles, total);
        results.push((AlphaResult::SrcIpPortInconstant, confidence));
        results
    }

    /// The hypothesis of highest confidence, the first registered among equals.
    pub fn conclusion(&self) -> (r: (AlphaResult, usize))
        ensures
            r == alpha_conclusion(self@),
    {
        let h = self.analysis();
        let i = best_index(&h);
        h[i]
    }
}

/// The conclusion for the record of `peer_id` in `m`, if it has one.
pub open spec fn alpha_lookup(m: Map<Seq<char>, Seq<AlphaObservation>>, peer_id: Seq<char>) -> Option<
    (AlphaResult, usize),
> {
    if m.contains_key(peer_id) {
        Some(alpha_conclusion(m[peer_id]))
    } else {
        None
    }
}

/// The store of the Alpha test, fed by the bank of Alpha listener ports.
pub struct AlphaManager {
    data: ProbeStore<AlphaObservation>,
}

impl View for AlphaManager {
    type V = Map<Seq<char>, Seq<AlphaObservation>>;

    closed spec fn view(&self) -> Map<Seq<char>, Seq<AlphaObservation>> {
        self.data@
    }
}

impl AlphaManager {
    pub closed spec fn wf(&self) -> bool {
        self.data.wf()
    }

    pub fn new() -> (r: AlphaManager)
        ensures
            r.wf(),
            r@ == Map::<Seq<char>, Seq<AlphaObservation>>::empty(),
    {
        AlphaManager { data: ProbeStore::new() }
    }

    /// The store itself.
    pub fn data(&self) -> (r: &ProbeStore<AlphaObservation>)
        requires
            self.wf(),
        ensures
            r.wf(),
            r@ == self@,
    {
        &self.data
    }

    /// Handles one datagram that arrived from `source` at time `now`: a payload that is
    /// UTF-8 text is recorded under that text as peer identifier; any other is dropped.
    /// Returns whether the datagram was recorded.
    pub fn handle_datagram(&mut self, payload: &[u8], source: SocketAddress, now: u64) -> (r:
        bool)
        requires
            old(self).wf(),
        ensures
            final(self).wf(),
            r == valid_utf8(payload@),
            r ==> final(self)@ == with_event(
                old(self)@,
                decode_utf8(payload@),
                AlphaObservation { source, received_at: now },
            ),
            !r ==> final(self)@ == old(self)@,
    {
        match decode_alpha_payload(payload) {
            Some(peer_id) => {
                self.data.upsert(peer_id.as_str(), AlphaObservation { source, received_at: now });
                true
            },
            None => false,
        }
    }

    /// One sweep of the reaper at time `now`: every record whose latest observation is as
    /// old as the staleness window or older is removed, every other one kept.
    pub fn evict_stale(&mut self, now: u64)
        requires
            old(self).wf(),
        ensures
            final(self).wf(),
            final(self)@ == fresh_part(old(self)@, now, STALENESS_WINDOW_MS),
    {
        self.data.evict_stale(now, STALENESS_WINDOW_MS);
    }

    /// The conclusion for `peer_id`, or `None` when it has no record.
    pub fn conclusion_for(&self, peer_id: &str) -> (r: Option<(AlphaResult, usize)>)
        requires
            self.wf(),
        ensures
            r == alpha_lookup(self@, peer_id@),
    {
        match self.data.get(peer_id) {
            Some(record) => Some(record.conclusion()),
            None => None,
        }
    }
}

} // verus!
