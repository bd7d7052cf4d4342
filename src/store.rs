use vstd::prelude::*;

use vstd::utf8::{encode_utf8, encode_utf8_decode_utf8};

use crate::record::{latest, Observation, PeerRecord};

verus! {

/// How long ago, in milliseconds, `then` was at time `now`; zero when `then` is not
/// before `now`.
pub open spec fn age(now: u64, then: u64) -> nat {
    if now >= then {
        (now - then) as nat
    } else {
        0
    }
}

/// Whether a record with observations `s` is kept at time `now`: it has none, or its
/// latest one is younger than `window`.
pub open spec fn is_fresh<O: Observation>(s: Seq<O>, now: u64, window: u64) -> bool {
    match latest(s) {
        None => true,
        Some(t) => age(now, t) < window,
    }
}

/// The records of `m` that are fresh at time `now`.
pub open spec fn fresh_part<O: Observation>(m: Map<Seq<char>, Seq<O>>, now: u64, window: u64) -> Map<
    Seq<char>,
    Seq<O>,
> {
    Map::new(|k: Seq<char>| m.contains_key(k) && is_fresh(m[k], now, window), |k: Seq<char>| m[k])
}

/// After a sweep at time `now`, a record whose latest observation is `window` milliseconds
/// old or older is gone, and a younger one is still there, unchanged.
pub proof fn lemma_eviction<O: Observation>(
    m: Map<Seq<char>, Seq<O>>,
    k: Seq<char>,
    now: u64,
    window: u64,
)
    requires
        m.contains_key(k),
        latest(m[k]) is Some,
    ensures
        age(now, latest(m[k])->0) >= window ==> !fresh_part(m, now, window).contains_key(k),
        age(now, latest(m[k])->0) < window ==> fresh_part(m, now, window).contains_key(k)
            && fresh_part(m, now, window)[k] == m[k],
{
}

/// The record that `upsert` leaves under a key whose record was `prior`.
pub open spec fn upserted<O>(prior: Option<Seq<O>>, event: O) -> Seq<O> {
    match prior {
        None => seq![event],
        Some(s) => s.push(event),
    }
}

/// Whether `a` and `b` hold the same characters.
fn same_text(a: &str, b: &str) -> (r: bool)
    ensures
        r == (a@ == b@),
{
    let x = a.as_bytes();
    let y = b.as_bytes();
    proof {
        encode_utf8_decode_utf8(a@);
        encode_utf8_decode_utf8(b@);
    }
    if x.len() != y.len() {
        assert(x@ != y@);
        return false;
    }
    let mut i: usize = 0;
    while i < x.len()
        invariant
            x@ == encode_utf8(a@),
            y@ == encode_utf8(b@),
            x@.len() == y@.len(),
            i <= x@.len(),
            forall|j: int| 0 <= j < i ==> x@[j] == y@[j],
        decreases x@.len() - i,
    {
        if x[i] != y[i] {
            assert(x@ != y@);
            return false;
        }
        i += 1;
    }
    assert(x@ =~= y@);
    true
}

/// Whether `record` is fresh at time `now`.
fn record_is_fresh<O: Observation>(record: &PeerRecord<O>, now: u64, window: u64) -> (r: bool)
    ensures
        r == is_fresh(record@, now, window),
{
    match record.most_recent() {
        None => true,
        Some(t) => {
            let elapsed: u64 = if now >= t {
                now - t
            } else {
                0
            };
            elapsed < window
        },
    }
}

/// `m` after `event` is recorded for `key`.
pub open spec fn with_event<O>(m: Map<Seq<char>, Seq<O>>, key: Seq<char>, event: O) -> Map<
    Seq<char>,
    Seq<O>,
> {
    m.insert(
        key,
        upserted(
            if m.contains_key(key) {
                Some(m[key])
            } else {
                None
            },
            event,
        ),
    )
}

/// Peer records keyed by peer identifier, each record holding at least one observation.
pub struct ProbeStore<O> {
    entries: Vec<(String, PeerRecord<O>)>,
    model: Ghost<Map<Seq<char>, Seq<O>>>,
}

impl<O> View for ProbeStore<O> {
    type V = Map<Seq<char>, Seq<O>>;

    closed spec fn view(&self) -> Map<Seq<char>, Seq<O>> {
        self.model@
    }
}

impl<O: Observation> ProbeStore<O> {
    /// Entries have distinct keys and agree with the model, which holds nothing else, and
    /// no record is empty.
    pub closed spec fn wf(&self) -> bool {
        &&& forall|i: int, j: int|
            0 <= i < j < self.entries@.len() ==> self.entries@[i].0@ != self.entries@[j].0@
        &&& forall|i: int|
            0 <= i < self.entries@.len() ==> {
                &&& self.model@.contains_key(#[trigger] self.entries@[i].0@)
                &&& self.model@[self.entries@[i].0@] == self.entries@[i].1@
            }
        &&& forall|k: Seq<char>|
            #[trigger] self.model@.contains_key(k) ==> exists|i: int|
                0 <= i < self.entries@.len() && self.entries@[i].0@ == k
        &&& forall|k: Seq<char>| #[trigger] self.model@.contains_key(k) ==> self.model@[k].len() > 0
    }

    /// The peer identifiers in the order in which `entry` hands them out.
    pub closed spec fn keys(&self) -> Seq<Seq<char>> {
        self.entries@.map_values(|e: (String, PeerRecord<O>)| e.0@)
    }

    /// An empty store.
    pub fn new() -> (r: ProbeStore<O>)
        ensures
            r.wf(),
            r@ == Map::<Seq<char>, Seq<O>>::empty(),
    {
        ProbeStore { entries: Vec::new(), model: Ghost(Map::empty()) }
    }

    /// Index of the entry keyed by `peer_id`, if any.
    fn position(&self, peer_id: &str) -> (r: Option<usize>)
        requires
            self.wf(),
        ensures
            match r {
                Some(i) => i < self.entries@.len() && self.entries@[i as int].0@ == peer_id@,
                None => !self@.contains_key(peer_id@),
            },
    {
        let mut i: usize = 0;
        while i < self.entries.len()
            invariant
                self.wf(),
                i <= self.entries@.len(),
                forall|j: int| 0 <= j < i ==> self.entries@[j].0@ != peer_id@,
            decreases self.entries@.len() - i,
        {
            if same_text(self.entries[i].0.as_str(), peer_id) {
                return Some(i);
            }
            i += 1;
        }
        None
    }

    /// Records `event` for `peer_id`: appended to its record, or as the one observation of
    /// a new record.
    pub fn upsert(&mut self, peer_id: &str, event: O)
        requires
            old(self).wf(),
        ensures
            final(self).wf(),
            final(self)@ == with_event(old(self)@, peer_id@, event),
    {
        let ghost prior = self.model@;
        match self.position(peer_id) {
            Some(i) => {
                self.entries[i].1.record(event);
                proof {
                    self.model@ = prior.insert(peer_id@, prior[peer_id@].push(event));
                    assert forall|k: Seq<char>| #[trigger]
                        self.model@.contains_key(k) implies exists|j: int|
                        0 <= j < self.entries@.len() && self.entries@[j].0@ == k by {
                        if k != peer_id@ {
                            assert(prior.contains_key(k));
                            let j = choose|j: int|
                                0 <= j < old(self).entries@.len() && old(self).entries@[j].0@ == k;
                            assert(self.entries@[j].0@ == k);
                        } else {
                            assert(self.entries@[i as int].0@ == k);
                        }
                    }
                }
            },
            None => {
                let ghost n = self.entries@.len();
                self.entries.push((peer_id.to_owned(), PeerRecord::with_event(event)));
                proof {
                    self.model@ = prior.insert(peer_id@, seq![event]);
                    assert forall|k: Seq<char>| #[trigger]
                        self.model@.contains_key(k) implies exists|j: int|
                        0 <= j < self.entries@.len() && self.entries@[j].0@ == k by {
                        if k != peer_id@ {
                            assert(prior.contains_key(k));
                            let j = choose|j: int| 0 <= j < n && old(self).entries@[j].0@ == k;
                            assert(self.entries@[j].0@ == k);
                        } else {
                            assert(self.entries@[n as int].0@ == k);
                        }
                    }
                }
            },
        }
    }

    /// The record of `peer_id`, if it has one.
    pub fn get(&self, peer_id: &str) -> (r: Option<&PeerRecord<O>>)
        requires
            self.wf(),
        ensures
            r is Some <==> self@.contains_key(peer_id@),
            r is Some ==> r->0@ == self@[peer_id@] && r->0@.len() > 0,
    {
        match self.position(peer_id) {
            Some(i) => Some(&self.entries[i].1),
            None => None,
        }
    }

    /// Removes every record that is not fresh at time `now`: those whose latest observation
    /// is `window` milliseconds old or older.
    pub fn evict_stale(&mut self, now: u64, window: u64)
        requires
            old(self).wf(),
        ensures
            final(self).wf(),
            final(self)@ == fresh_part(old(self)@, now, window),
    {
        let ghost start = self.model@;
        let mut i: usize = 0;
        while i < self.entries.len()
            invariant
                self.wf(),
                i <= self.entries@.len(),
                forall|j: int|
                    0 <= j < i ==> is_fresh(#[trigger] self.entries@[j].1@, now, window),
                forall|k: Seq<char>| #[trigger]
                    self.model@.contains_key(k) ==> start.contains_key(k) && self.model@[k]
                        == start[k],
                forall|k: Seq<char>|
                    #[trigger] start.contains_key(k) && is_fresh(start[k], now, window)
                        ==> self.model@.contains_key(k),
            decreases self.entries@.len() - i,
        {
            if record_is_fresh(&self.entries[i].1, now, window) {
                i += 1;
            } else {
                let ghost before = self.entries@;
                let ghost prior = self.model@;
                let ghost gone = self.entries@[i as int].0@;
                let _removed = self.entries.remove(i);
                proof {
                    self.model@ = prior.remove(gone);
                    assert forall|j: int| 0 <= j < self.entries@.len() implies {
                        &&& self.model@.contains_key(#[trigger] self.entries@[j].0@)
                        &&& self.model@[self.entries@[j].0@] == self.entries@[j].1@
                    } by {
                        let o = if j < i { j } else { j + 1 };
                        assert(self.entries@[j] == before[o]);
                        assert(before[o].0@ != gone);
                    }
                    assert forall|k: Seq<char>| #[trigger]
                        self.model@.contains_key(k) implies exists|j: int|
                        0 <= j < self.entries@.len() && self.entries@[j].0@ == k by {
                        let o = choose|o: int| 0 <= o < before.len() && before[o].0@ == k;
                        assert(o != i);
                        let j = if o < i { o } else { o - 1 };
                        assert(self.entries@[j] == before[o]);
                    }
                    assert forall|j: int| 0 <= j < i implies is_fresh(
                        #[trigger] self.entries@[j].1@,
                        now,
                        window,
                    ) by {
                        assert(self.entries@[j] == before[j]);
                    }
                }
            }
        }
        proof {
            assert forall|k: Seq<char>| #[trigger]
                self.model@.contains_key(k) implies is_fresh(self.model@[k], now, window) by {
                let j = choose|j: int| 0 <= j < self.entries@.len() && self.entries@[j].0@ == k;
                assert(is_fresh(self.entries@[j].1@, now, window));
            }
            assert(self.model@ =~= fresh_part(start, now, window));
        }
    }

    /// The identifier and record of the entry at `index`; the indices below `len` reach
    /// every record once.
    pub fn entry(&self, index: usize) -> (r: (&String, &PeerRecord<O>))
        requires
            self.wf(),
            index < self@.dom().len(),
        ensures
            r.0@ == self.keys()[index as int],
            self@.contains_key(r.0@),
            r.1@ == self@[r.0@],
    {
        proof { self.lemma_keys(); }
        let e = &self.entries[index];
        (&e.0, &e.1)
    }

    /// Number of peers that have a record.
    pub fn len(&self) -> (r: usize)
        requires
            self.wf(),
        ensures
            r == self@.dom().len(),
    {
        proof { self.lemma_keys(); }
        self.entries.len()
    }

    /// Whether no peer has a record.
    pub fn is_empty(&self) -> (r: bool)
        requires
            self.wf(),
        ensures
            r == (self@.dom().len() == 0),
    {
        self.len() == 0
    }

    /// The identifiers that `entry` hands out are those of the store, each once.
    pub proof fn lemma_keys(&self)
        requires
            self.wf(),
        ensures
            self.keys().len() == self@.dom().len(),
            self.keys().no_duplicates(),
            self.keys().to_set() == self@.dom(),
    {
        let keys = self.keys();
        assert forall|i: int, j: int| 0 <= i < j < keys.len() implies keys[i] != keys[j] by {}
        assert(keys.no_duplicates());
        keys.unique_seq_to_set();
        assert(keys.to_set() =~= self.model@.dom()) by {
            assert forall|k: Seq<char>| keys.to_set().contains(k) implies self.model@.contains_key(
                k,
            ) by {
                let i = choose|i: int| 0 <= i < keys.len() && keys[i] == k;
                assert(self.model@.contains_key(self.entries@[i].0@));
            }
            assert forall|k: Seq<char>| self.model@.contains_key(k) implies keys.to_set().contains(
                k,
            ) by {
                let i = choose|i: int| 0 <= i < self.entries@.len() && self.entries@[i].0@ == k;
                assert(keys[i] == k);
            }
        }
    }
}

} // verus!
