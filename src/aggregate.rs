use vstd::prelude::*;
use vstd::multiset::Multiset;
use crate::record::{ConfigKey, Outcome, Record};

verus! {

/// What has been observed for one configuration.
pub struct Tally {
    pub num_runs: nat,
    pub num_successes: nat,
    pub run_times: Seq<u32>,
}

impl Tally {
    pub open spec fn empty() -> Tally {
        Tally { num_runs: 0, num_successes: 0, run_times: Seq::empty() }
    }

    /// The tally after one more outcome.
    pub open spec fn observe(self, outcome: Outcome) -> Tally {
        match outcome {
            Outcome::Success => Tally { num_successes: self.num_successes + 1, ..self },
            Outcome::RunTime(bits) => Tally {
                num_runs: self.num_runs + 1,
                run_times: self.run_times.push(bits),
                ..self
            },
        }
    }
}

/// The tally of `key` in `m`, empty where `m` has none.
pub open spec fn tally_at(m: Map<ConfigKey, Tally>, key: ConfigKey) -> Tally {
    if m.contains_key(key) {
        m[key]
    } else {
        Tally::empty()
    }
}

/// The tallies of all configurations, after folding in `records` in order.
pub open spec fn tally_of(records: Seq<Record>) -> Map<ConfigKey, Tally>
    decreases records.len(),
{
    if records.len() == 0 {
        Map::empty()
    } else {
        let m = tally_of(records.drop_last());
        let r = records.last();
        m.insert(r.key(), tally_at(m, r.key()).observe(r.outcome))
    }
}

/// The configurations of `records`, each once, in order of first appearance.
pub open spec fn first_keys(records: Seq<Record>) -> Seq<ConfigKey>
    decreases records.len(),
{
    if records.len() == 0 {
        Seq::empty()
    } else {
        let ks = first_keys(records.drop_last());
        let k = records.last().key();
        if ks.contains(k) {
            ks
        } else {
            ks.push(k)
        }
    }
}

/// No tally counts more outcomes than there are records.
proof fn lemma_tally_bounded(records: Seq<Record>, key: ConfigKey)
    ensures
        tally_at(tally_of(records), key).num_runs + tally_at(tally_of(records), key).num_successes
            <= records.len(),
    decreases records.len(),
{
    if records.len() > 0 {
        lemma_tally_bounded(records.drop_last(), key);
    }
}

/// Records of configuration `key` that report a run time.
pub open spec fn run_time_of(key: ConfigKey) -> spec_fn(Record) -> bool {
    |r: Record| r.key() == key && r.outcome is RunTime
}

/// Records of configuration `key` that report a success.
pub open spec fn success_of(key: ConfigKey) -> spec_fn(Record) -> bool {
    |r: Record| r.key() == key && r.outcome is Success
}

proof fn lemma_filter_insert(m: Multiset<Record>, f: spec_fn(Record) -> bool, r: Record)
    ensures
        m.insert(r).filter(f).len() == m.filter(f).len() + if f(r) { 1nat } else { 0nat },
{
    if f(r) {
        assert(m.insert(r).filter(f) =~= m.filter(f).insert(r));
    } else {
        assert(m.insert(r).filter(f) =~= m.filter(f));
    }
}

/// For every configuration, the number of run times folded in is the number
/// of records of that configuration that report a run time, and the number of
/// successes is the number of its records that report a success. Both counts
/// are taken over the records as a multiset, so they do not depend on the
/// order of the records.
pub proof fn lemma_tally_counts(records: Seq<Record>, key: ConfigKey)
    ensures
        tally_at(tally_of(records), key).num_runs == records.to_multiset().filter(run_time_of(key)).len(),
        tally_at(tally_of(records), key).num_successes == records.to_multiset().filter(success_of(key)).len(),
        tally_of(records).contains_key(key) <==> exists|i: int| 0 <= i < records.len() && (#[trigger] records[i]).key() == key,
    decreases records.len(),
{
    records.to_multiset_ensures();
    if records.len() == 0 {
        assert(records.to_multiset() =~= Multiset::empty()) by {
            assert forall|x: Record| records.to_multiset().count(x) == 0 by {
                assert(!records.contains(x));
            }
        }
        assert(records.to_multiset().filter(run_time_of(key)) =~= Multiset::empty());
        assert(records.to_multiset().filter(success_of(key)) =~= Multiset::empty());
    } else {
        let rest = records.drop_last();
        let r = records.last();
        rest.to_multiset_ensures();
        lemma_tally_counts(rest, key);
        assert(records == rest.push(r));
        lemma_filter_insert(rest.to_multiset(), run_time_of(key), r);
        lemma_filter_insert(rest.to_multiset(), success_of(key), r);
        if exists|i: int| 0 <= i < rest.len() && (#[trigger] rest[i]).key() == key {
            let i = choose|i: int| 0 <= i < rest.len() && (#[trigger] rest[i]).key() == key;
            assert(records[i] == rest[i]);
        }
        if exists|i: int| 0 <= i < records.len() && (#[trigger] records[i]).key() == key {
            let i = choose|i: int| 0 <= i < records.len() && (#[trigger] records[i]).key() == key;
            if i < rest.len() {
                assert(rest[i] == records[i]);
            }
        }
    }
}

/// Folding the same records in another order gives the same counts for
/// every configuration, and the same set of configurations.
pub proof fn lemma_tally_order_irrelevant(a: Seq<Record>, b: Seq<Record>, key: ConfigKey)
    requires
        a.to_multiset() == b.to_multiset(),
    ensures
        tally_at(tally_of(a), key).num_runs == tally_at(tally_of(b), key).num_runs,
        tally_at(tally_of(a), key).num_successes == tally_at(tally_of(b), key).num_successes,
        tally_of(a).contains_key(key) <==> tally_of(b).contains_key(key),
{
    a.to_multiset_ensures();
    b.to_multiset_ensures();
    lemma_tally_counts(a, key);
    lemma_tally_counts(b, key);
    if tally_of(a).contains_key(key) {
        let i = choose|i: int| 0 <= i < a.len() && (#[trigger] a[i]).key() == key;
        assert(a.contains(a[i]));
        assert(a.contains(a[i]));
        assert(a.to_multiset().count(a[i]) > 0);
        assert(b.to_multiset().count(a[i]) > 0);
        assert(b.contains(a[i]));
        let j = choose|j: int| 0 <= j < b.len() && b[j] == a[i];
        assert(b[j].key() == key);
    }
    if tally_of(b).contains_key(key) {
        let i = choose|i: int| 0 <= i < b.len() && (#[trigger] b[i]).key() == key;
        assert(b.contains(b[i]));
        assert(b.contains(b[i]));
        assert(b.to_multiset().count(b[i]) > 0);
        assert(a.to_multiset().count(b[i]) > 0);
        assert(a.contains(b[i]));
        let j = choose|j: int| 0 <= j < a.len() && a[j] == b[i];
        assert(a[j].key() == key);
    }
}

/// The accumulator of one configuration.
#[derive(Debug, Clone)]
pub struct RunResult {
    /// How many run times were observed.
    pub num_runs: usize,
    /// How many successes were observed.
    pub num_successes: usize,
    /// The observed run times, as `f32` bit patterns, in the order seen.
    pub run_times: Vec<u32>,
}

impl View for RunResult {
    type V = Tally;

    open spec fn view(&self) -> Tally {
        Tally {
            num_runs: self.num_runs as nat,
            num_successes: self.num_successes as nat,
            run_times: self.run_times@,
        }
    }
}

impl RunResult {
    pub fn new() -> (r: RunResult)
        ensures
            r@ == Tally::empty(),
    {
        RunResult { num_runs: 0, num_successes: 0, run_times: Vec::new() }
    }
}

/// Accumulators keyed by configuration, in the order in which each
/// configuration was first seen.
pub struct Data {
    keys: Vec<ConfigKey>,
    results: Vec<RunResult>,
}

impl Data {
    /// The keys, in order of first appearance.
    pub closed spec fn key_list(&self) -> Seq<ConfigKey> {
        self.keys@
    }

    pub closed spec fn wf(&self) -> bool {
        &&& self.keys@.len() == self.results@.len()
        &&& self.keys@.no_duplicates()
    }

    closed spec fn index_of(&self, key: ConfigKey) -> int {
        choose|i: int| 0 <= i < self.keys@.len() && self.keys@[i] == key
    }

    pub closed spec fn view(&self) -> Map<ConfigKey, Tally> {
        Map::new(|k: ConfigKey| self.keys@.contains(k), |k: ConfigKey| self.results@[self.index_of(k)]@)
    }

    /// Each key of the mapping stands once in `key_list`, and nothing else does.
    pub proof fn lemma_keys(&self)
        requires
            self.wf(),
        ensures
            self.key_list().no_duplicates(),
            forall|k: ConfigKey| self.view().contains_key(k) <==> self.key_list().contains(k),
    {
    }

    proof fn lemma_index(&self, i: int)
        requires
            self.wf(),
            0 <= i < self.keys@.len(),
        ensures
            self.index_of(self.keys@[i]) == i,
            self.view()[self.keys@[i]] == self.results@[i]@,
    {
        let k = self.keys@[i];
        assert(self.keys@.contains(k));
        let j = self.index_of(k);
        assert(0 <= j < self.keys@.len() && self.keys@[j] == k);
    }

    /// No configuration yet.
    pub fn new() -> (d: Data)
        ensures
            d.wf(),
            d.view() == Map::<ConfigKey, Tally>::empty(),
            d.key_list() == Seq::<ConfigKey>::empty(),
    {
        let d = Data { keys: Vec::new(), results: Vec::new() };
        assert(d.view() =~= Map::<ConfigKey, Tally>::empty());
        d
    }

    /// Number of configurations.
    pub fn len(&self) -> (r: usize)
        ensures
            r == self.key_list().len(),
    {
        self.keys.len()
    }

    /// The `i`-th configuration in order of first appearance.
    pub fn key_at(&self, i: usize) -> (r: ConfigKey)
        requires
            i < self.key_list().len(),
        ensures
            r == self.key_list()[i as int],
    {
        self.keys[i]
    }

    /// The accumulator of the `i`-th configuration.
    pub fn result_at(&self, i: usize) -> (r: &RunResult)
        requires
            self.wf(),
            i < self.key_list().len(),
        ensures
            r@ == self.view()[self.key_list()[i as int]],
    {
        proof {
            self.lemma_index(i as int);
        }
        &self.results[i]
    }

    /// Position of `key` in `key_list`, if it is there.
    fn find(&self, key: ConfigKey) -> (r: Option<usize>)
        requires
            self.wf(),
        ensures
            r matches Some(i) ==> i < self.key_list().len() && self.key_list()[i as int] == key,
            r is None ==> !self.key_list().contains(key),
    {
        let mut i: usize = 0;
        while i < self.keys.len()
            invariant
                i <= self.keys@.len(),
                forall|j: int| 0 <= j < i ==> self.keys@[j] != key,
            decreases self.keys@.len() - i,
        {
            if self.keys[i].0 == key.0 && self.keys[i].1 == key.1 {
                return Some(i);
            }
            i += 1;
        }
        None
    }

    /// Folds one record into the accumulator of its configuration, which is
    /// created empty on the first record for it.
    pub fn observe(&mut self, r: &Record)
        requires
            old(self).wf(),
            tally_at(old(self).view(), r.key()).num_runs < usize::MAX,
            tally_at(old(self).view(), r.key()).num_successes < usize::MAX,
        ensures
            final(self).wf(),
            final(self).view() == old(self).view().insert(
                r.key(),
                tally_at(old(self).view(), r.key()).observe(r.outcome),
            ),
            final(self).key_list() == if old(self).key_list().contains(r.key()) {
                old(self).key_list()
            } else {
                old(self).key_list().push(r.key())
            },
    {
        let key = r.config_key();
        let ghost before = *self;
        let ghost expected = before.view().insert(key, tally_at(before.view(), key).observe(r.outcome));
        match self.find(key) {
            Some(i) => {
                proof {
                    before.lemma_index(i as int);
                }
                match r.outcome {
                    Outcome::Success => {
                        self.results[i].num_successes += 1;
                    },
                    Outcome::RunTime(bits) => {
                        self.results[i].num_runs += 1;
                        self.results[i].run_times.push(bits);
                    },
                }
                assert(self.keys@ == before.keys@);
                assert(self.keys@[i as int] == key);
                assert(self.results@ == before.results@.update(i as int, self.results@[i as int]));
            },
            None => {
                let mut fresh = RunResult::new();
                match r.outcome {
                    Outcome::Success => {
                        fresh.num_successes = 1;
                    },
                    Outcome::RunTime(bits) => {
                        fresh.num_runs = 1;
                        fresh.run_times.push(bits);
                    },
                }
                self.keys.push(key);
                self.results.push(fresh);
                assert(self.keys@[self.keys@.len() - 1] == key);
                assert(self.keys@.no_duplicates()) by {
                    assert forall|a: int, b: int|
                        0 <= a < b < self.keys@.len() implies self.keys@[a] != self.keys@[b] by {
                        if b == before.keys@.len() {
                            assert(before.keys@.contains(before.keys@[a]));
                        }
                    }
                }
            },
        }
        assert forall|k: ConfigKey| #[trigger] self.view().contains_key(k) <==> expected.contains_key(k) by {
            if self.keys@.contains(k) {
                let j = choose|j: int| 0 <= j < self.keys@.len() && self.keys@[j] == k;
                if j < before.keys@.len() {
                    assert(before.keys@.contains(k));
                }
            }
            if before.keys@.contains(k) {
                let j = choose|j: int| 0 <= j < before.keys@.len() && before.keys@[j] == k;
                assert(self.keys@[j] == k);
            }
        }
        assert forall|k: ConfigKey| self.view().contains_key(k) implies #[trigger] self.view()[k] == expected[k] by {
            let j = choose|j: int| 0 <= j < self.keys@.len() && self.keys@[j] == k;
            self.lemma_index(j);
            if j < before.keys@.len() {
                before.lemma_index(j);
            }
        }
        assert(self.view() =~= expected);
    }

    /// Folds `records` in order into a new mapping, whose keys stand in
    /// order of first appearance.
    pub fn from_records(records: &[Record]) -> (d: Data)
        ensures
            d.wf(),
            d.view() == tally_of(records@),
            d.key_list() == first_keys(records@),
    {
        let mut d = Data::new();
        let mut i: usize = 0;
        while i < records.len()
            invariant
                i <= records@.len(),
                d.wf(),
                d.view() == tally_of(records@.subrange(0, i as int)),
                d.key_list() == first_keys(records@.subrange(0, i as int)),
            decreases records@.len() - i,
        {
            proof {
                lemma_tally_bounded(records@.subrange(0, i as int), records[i as int].key());
            }
            d.observe(&records[i]);
            assert(records@.subrange(0, i + 1).drop_last() == records@.subrange(0, i as int));
            i += 1;
        }
        assert(records@.subrange(0, records@.len() as int) == records@);
        d
    }
}

} // verus!
