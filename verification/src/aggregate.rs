//! The hash-keyed aggregation map: one accumulator entry per station hash,
//! reachable in amortized constant time through an index keyed by the
//! numeric hash, with the display name stored beside the figures.

use std::collections::HashMap;

use vstd::prelude::*;

use crate::model::agg_observe;
use crate::model::hash_name;
use crate::model::merge_maps;
use crate::model::reading_in_range;
use crate::model::EntryModel;
use crate::model::MAX_ABS_TENTHS;
use crate::processor::hash_station_name;

verus! {

broadcast use vstd::std_specs::hash::group_hash_axioms;

/// The running aggregate of one station: extremes, sum and count of its
/// readings in tenths, and the name under which it was first seen.
pub struct Entry {
    pub name: Vec<u8>,
    pub min: i64,
    pub max: i64,
    pub sum: i128,
    pub count: u64,
}

impl Entry {
    /// The mathematical content of this accumulator.
    pub open spec fn model(&self) -> EntryModel {
        EntryModel {
            min: self.min as int,
            max: self.max as int,
            sum: self.sum as int,
            count: self.count as nat,
            name: self.name@,
        }
    }

    /// The accumulator invariant.
    pub open spec fn wf(&self) -> bool {
        self.model().wf()
    }

    /// The hash key under which this entry is filed.
    pub open spec fn key(&self) -> u64 {
        hash_name(self.name@)
    }

    /// A fresh accumulator holding one reading.
    pub fn new(temperature: i64, name: Vec<u8>) -> (r: Self)
        requires
            reading_in_range(temperature as int),
        ensures
            r.model() == EntryModel::first(name@, temperature as int),
            r.wf(),
    {
        Entry {
            name,
            min: temperature,
            max: temperature,
            sum: temperature as i128,
            count: 1,
        }
    }

    /// One more reading folded into this accumulator.
    pub fn observe(&mut self, temperature: i64)
        requires
            old(self).wf(),
            reading_in_range(temperature as int),
            old(self).count < u64::MAX,
        ensures
            final(self).model() == old(self).model().observe(temperature as int),
            final(self).wf(),
            final(self).name == old(self).name,
            final(self).count == old(self).count + 1,
    {
        proof {
            lemma_sum_within(self.model());
        }
        if temperature < self.min {
            self.min = temperature;
        }
        if temperature > self.max {
            self.max = temperature;
        }
        self.sum = self.sum + temperature as i128;
        self.count = self.count + 1;
        proof {
            lemma_sum_grows(
                old(self).model(),
                temperature as int,
                self.min as int,
                self.max as int,
            );
        }
    }

    /// Another accumulator of the same station folded into this one.
    pub fn add(&mut self, v: &Entry)
        requires
            old(self).wf(),
            v.wf(),
            old(self).count + v.count <= u64::MAX,
        ensures
            final(self).model() == old(self).model().merge(v.model()),
            final(self).wf(),
            final(self).name == old(self).name,
    {
        proof {
            lemma_sum_within(self.model());
            lemma_sum_within(v.model());
        }
        if v.min < self.min {
            self.min = v.min;
        }
        if v.max > self.max {
            self.max = v.max;
        }
        self.sum = self.sum + v.sum;
        self.count = self.count + v.count;
        proof {
            lemma_sum_merge(old(self).model(), v.model(), self.min as int, self.max as int);
        }
    }
}

/// A well-formed accumulator's sum is within `count` times the magnitude
/// bound, which keeps every sum far inside its machine type.
pub proof fn lemma_sum_within(e: EntryModel)
    requires
        e.wf(),
    ensures
        -(e.count * (MAX_ABS_TENTHS as int)) <= e.sum <= e.count * (MAX_ABS_TENTHS as int),
{
    assert(e.count * e.min <= e.sum <= e.count * e.max);
    assert(e.count * e.max <= e.count * (MAX_ABS_TENTHS as int)) by (nonlinear_arith)
        requires
            e.count >= 0,
            e.max <= MAX_ABS_TENTHS as int,
    ;
    assert(-(e.count * (MAX_ABS_TENTHS as int)) <= e.count * e.min) by (nonlinear_arith)
        requires
            e.count >= 0,
            e.min >= -(MAX_ABS_TENTHS as int),
    ;
}

proof fn lemma_sum_grows(e: EntryModel, t: int, lo: int, hi: int)
    requires
        e.wf(),
        reading_in_range(t),
        lo == if t < e.min {
            t
        } else {
            e.min
        },
        hi == if t > e.max {
            t
        } else {
            e.max
        },
    ensures
        (e.count + 1) * lo <= e.sum + t <= (e.count + 1) * hi,
{
    assert((e.count + 1) * lo <= e.sum + t) by (nonlinear_arith)
        requires
            e.count * e.min <= e.sum,
            lo <= e.min,
            lo <= t,
            e.count >= 0,
    ;
    assert(e.sum + t <= (e.count + 1) * hi) by (nonlinear_arith)
        requires
            e.sum <= e.count * e.max,
            hi >= e.max,
            hi >= t,
            e.count >= 0,
    ;
}

proof fn lemma_sum_merge(a: EntryModel, b: EntryModel, lo: int, hi: int)
    requires
        a.wf(),
        b.wf(),
        lo == if b.min < a.min {
            b.min
        } else {
            a.min
        },
        hi == if b.max > a.max {
            b.max
        } else {
            a.max
        },
    ensures
        (a.count + b.count) * lo <= a.sum + b.sum <= (a.count + b.count) * hi,
{
    assert((a.count + b.count) * lo <= a.sum + b.sum) by (nonlinear_arith)
        requires
            a.count * a.min <= a.sum,
            b.count * b.min <= b.sum,
            lo <= a.min,
            lo <= b.min,
            a.count >= 0,
            b.count >= 0,
    ;
    assert(a.sum + b.sum <= (a.count + b.count) * hi) by (nonlinear_arith)
        requires
            a.sum <= a.count * a.max,
            b.sum <= b.count * b.max,
            hi >= a.max,
            hi >= b.max,
            a.count >= 0,
            b.count >= 0,
    ;
}

/// No two entries are filed under the same hash key.
pub open spec fn distinct_keys(s: Seq<Entry>) -> bool {
    forall|i: int, j: int| 0 <= i < j < s.len() ==> (#[trigger] s[i]).key() != (#[trigger] s[j]).key()
}

/// The mathematical map that a run of entries denotes.
pub open spec fn models_of(s: Seq<Entry>) -> Map<u64, EntryModel>
    decreases s.len(),
{
    if s.len() == 0 {
        Map::empty()
    } else {
        models_of(s.drop_last()).insert(s.last().key(), s.last().model())
    }
}

/// A key is in the denoted map exactly when some entry carries it.
pub proof fn lemma_models_of_contains(s: Seq<Entry>, k: u64)
    ensures
        models_of(s).dom().contains(k) <==> exists|i: int|
            0 <= i < s.len() && (#[trigger] s[i]).key() == k,
    decreases s.len(),
{
    if s.len() > 0 {
        lemma_models_of_contains(s.drop_last(), k);
        if models_of(s).dom().contains(k) {
            if s.last().key() == k {
                assert(s[s.len() - 1].key() == k);
            } else {
                let i = choose|i: int| 0 <= i < s.len() - 1 && (#[trigger] s.drop_last()[i]).key()
                    == k;
                assert(s[i].key() == k);
            }
        }
        if exists|i: int| 0 <= i < s.len() && (#[trigger] s[i]).key() == k {
            let i = choose|i: int| 0 <= i < s.len() && (#[trigger] s[i]).key() == k;
            if i < s.len() - 1 {
                assert(s.drop_last()[i].key() == k);
            }
        }
    }
}

/// With distinct keys, each entry is the one its key denotes.
pub proof fn lemma_models_of_index(s: Seq<Entry>, i: int)
    requires
        0 <= i < s.len(),
        distinct_keys(s),
    ensures
        models_of(s).dom().contains(s[i].key()),
        models_of(s)[s[i].key()] == s[i].model(),
    decreases s.len(),
{
    if i < s.len() - 1 {
        assert(s.drop_last()[i] == s[i]);
        lemma_models_of_index(s.drop_last(), i);
        assert(s[i].key() != s.last().key());
    }
}

/// Updating one entry updates the one key it carries.
pub proof fn lemma_models_of_update(s: Seq<Entry>, i: int, e: Entry)
    requires
        0 <= i < s.len(),
        distinct_keys(s),
        e.key() == s[i].key(),
    ensures
        models_of(s.update(i, e)) =~= models_of(s).insert(e.key(), e.model()),
    decreases s.len(),
{
    let t = s.update(i, e);
    if i == s.len() - 1 {
        assert(t.drop_last() =~= s.drop_last());
        assert(t.last() == e);
    } else {
        assert(t.drop_last() =~= s.drop_last().update(i, e));
        assert(t.last() == s.last());
        assert(s.drop_last()[i] == s[i]);
        lemma_models_of_update(s.drop_last(), i, e);
        assert(s[i].key() != s.last().key());
    }
}

/// The hash-keyed aggregation map of one shard.
pub struct AggMap {
    entries: Vec<Entry>,
    index: HashMap<u64, usize>,
    rows: u64,
}

impl AggMap {
    /// The mathematical map this shard has accumulated.
    pub closed spec fn model(&self) -> Map<u64, EntryModel> {
        models_of(self.entries@)
    }

    /// How many observations this shard has folded in.
    pub closed spec fn spec_rows(&self) -> int {
        self.rows as int
    }

    /// The map invariant: entries well formed and uniquely keyed, the index
    /// complete and exact, and every count within the observation total.
    pub closed spec fn wf(&self) -> bool {
        &&& forall|i: int| 0 <= i < self.entries@.len() ==> (#[trigger] self.entries@[i]).wf()
        &&& distinct_keys(self.entries@)
        &&& forall|i: int|
            0 <= i < self.entries@.len() ==> self.index@.contains_key(
                (#[trigger] self.entries@[i]).key(),
            ) && self.index@[self.entries@[i].key()] == i
        &&& forall|k: u64|
            self.index@.contains_key(k) ==> 0 <= #[trigger] self.index@[k]
                < self.entries@.len() && self.entries@[self.index@[k] as int].key() == k
        &&& forall|i: int|
            0 <= i < self.entries@.len() ==> (#[trigger] self.entries@[i]).count <= self.rows
    }

    /// An empty shard.
    pub fn new() -> (r: Self)
        ensures
            r.wf(),
            r.model() == Map::<u64, EntryModel>::empty(),
            r.spec_rows() == 0,
    {
        AggMap { entries: Vec::new(), index: HashMap::new(), rows: 0 }
    }

    /// How many observations were folded in.
    pub fn rows(&self) -> (r: u64)
        ensures
            r as int == self.spec_rows(),
    {
        self.rows
    }

    /// One observation folded in: a new entry for an unseen hash, otherwise
    /// the update of the entry the hash names.
    pub fn observe(&mut self, name: &[u8], temperature: i64)
        requires
            old(self).wf(),
            reading_in_range(temperature as int),
            old(self).spec_rows() < u64::MAX,
        ensures
            final(self).wf(),
            final(self).model() == agg_observe(old(self).model(), name@, temperature as int),
            final(self).spec_rows() == old(self).spec_rows() + 1,
    {
        let k = hash_station_name(name);
        proof {
            lemma_models_of_contains(self.entries@, k);
        }
        let found = self.index.get(&k);
        match found {
            Some(pos_ref) => {
                let pos = *pos_ref;
                proof {
                    lemma_models_of_index(self.entries@, pos as int);
                }
                let ghost before = self.entries@;
                self.entries[pos].observe(temperature);
                proof {
                    lemma_models_of_update(before, pos as int, self.entries@[pos as int]);
                }
            },
            None => {
                let pos = self.entries.len();
                let entry = Entry::new(temperature, vstd::slice::slice_to_vec(name));
                self.entries.push(entry);
                self.index.insert(k, pos);
                proof {
                    assert(self.entries@.drop_last() =~= old(self).entries@);
                }
            },
        }
        self.rows = self.rows + 1;
    }

    /// Another shard folded into this one, key by key.
    pub fn absorb(&mut self, other: AggMap)
        requires
            old(self).wf(),
            other.wf(),
            old(self).spec_rows() + other.spec_rows() <= u64::MAX,
        ensures
            final(self).wf(),
            final(self).model() =~= merge_maps(old(self).model(), other.model()),
            final(self).spec_rows() == old(self).spec_rows() + other.spec_rows(),
    {
        let ghost total = old(self).spec_rows() + other.spec_rows();
        let mut src = other;
        let ghost goal = merge_maps(old(self).model(), src.model());
        proof {
            lemma_models_counts(self.entries@, self.rows as int);
            lemma_models_counts(src.entries@, src.rows as int);
            lemma_merge_counts(
                old(self).model(),
                src.model(),
                old(self).rows as int,
                src.rows as int,
            );
        }
        self.rows = self.rows + src.rows;
        loop
            invariant
                self.wf(),
                self.rows as int == total,
                total <= u64::MAX,
                distinct_keys(src.entries@),
                forall|i: int| 0 <= i < src.entries@.len() ==> (#[trigger] src.entries@[i]).wf(),
                merge_maps(self.model(), models_of(src.entries@)) =~= goal,
                counts_bounded_map(goal, self.rows as int),
            ensures
                self.model() =~= goal,
                self.rows as int == total,
                self.wf(),
            decreases src.entries@.len(),
        {
            let e = match src.entries.pop() {
                Some(e) => e,
                None => {
                    proof {
                        assert(models_of(src.entries@) =~= Map::<u64, EntryModel>::empty());
                        assert(merge_maps(self.model(), Map::<u64, EntryModel>::empty())
                            =~= self.model());
                    }
                    break ;
                },
            };
            let ghost rest = src.entries@;
            let ghost a = self.model();
            let ghost b = models_of(rest);
            let ghost popped_map = models_of(rest.push(e));
            proof {
                assert(rest.push(e).drop_last() =~= rest);
                assert(rest.push(e).last() == e);
                assert(popped_map == b.insert(e.key(), e.model()));
                lemma_models_of_contains(rest, e.key());
                assert(forall|i: int| 0 <= i < rest.len() ==> rest[i] == rest.push(e)[i]);
                assert(!b.dom().contains(e.key()));
                lemma_merge_insert(a, b, e.key(), e.model());
            }
            let k = hash_station_name(e.name.as_slice());
            assert(k == e.key());
            proof {
                lemma_models_of_contains(self.entries@, k);
            }
            let found = self.index.get(&k);
            match found {
                Some(pos_ref) => {
                    let pos = *pos_ref;
                    proof {
                        lemma_models_of_index(self.entries@, pos as int);
                        assert(goal.dom().contains(k));
                        assert(merge_maps(a, popped_map)[k] == a[k].merge(e.model()));
                        assert(goal[k].count == self.entries@[pos as int].count + e.count);
                    }
                    let ghost before = self.entries@;
                    let ghost merged = a[k].merge(e.model());
                    self.entries[pos].add(&e);
                    proof {
                        lemma_models_of_update(before, pos as int, self.entries@[pos as int]);
                        assert(self.model() =~= a.insert(k, merged));
                        lemma_merge_insert_left(a, b, k, merged);
                        assert(merge_maps(self.model(), b) =~= merge_maps(a, b).insert(k, merged));
                        assert(merge_maps(a, popped_map) =~= merge_maps(a, b).insert(k, merged));
                    }
                },
                None => {
                    let pos = self.entries.len();
                    proof {
                        assert(goal.dom().contains(k));
                        assert(merge_maps(a, popped_map)[k] == e.model());
                        assert(goal[k].count == e.count);
                    }
                    let ghost before = self.entries@;
                    self.entries.push(e);
                    self.index.insert(k, pos);
                    proof {
                        assert(self.entries@.drop_last() =~= before);
                        assert(self.entries@.last().key() == k);
                        assert(self.model() =~= a.insert(k, self.entries@.last().model()));
                        lemma_merge_insert_left(a, b, k, self.entries@.last().model());
                        assert(merge_maps(self.model(), b) =~= merge_maps(a, b).insert(
                            k,
                            self.entries@.last().model(),
                        ));
                    }
                },
            }
        }
    }

    /// The entries, surrendered for the final reduction.
    pub fn into_entries(self) -> (r: Vec<Entry>)
        requires
            self.wf(),
        ensures
            models_of(r@) == self.model(),
            distinct_keys(r@),
            forall|i: int| 0 <= i < r@.len() ==> (#[trigger] r@[i]).wf(),
    {
        self.entries
    }
}

/// Every count in either map bounds the merged map's counts together.
pub open spec fn counts_bounded_map(m: Map<u64, EntryModel>, n: int) -> bool {
    forall|k: u64| m.dom().contains(k) ==> (#[trigger] m[k]).count <= n
}

proof fn lemma_models_counts(s: Seq<Entry>, n: int)
    requires
        distinct_keys(s),
        forall|i: int| 0 <= i < s.len() ==> (#[trigger] s[i]).count <= n,
    ensures
        counts_bounded_map(models_of(s), n),
{
    assert forall|k: u64| models_of(s).dom().contains(k) implies (#[trigger] models_of(s)[k]).count
        <= n by {
        lemma_models_of_contains(s, k);
        let i = choose|i: int| 0 <= i < s.len() && (#[trigger] s[i]).key() == k;
        lemma_models_of_index(s, i);
    }
}

proof fn lemma_merge_counts(a: Map<u64, EntryModel>, b: Map<u64, EntryModel>, na: int, nb: int)
    requires
        counts_bounded_map(a, na),
        counts_bounded_map(b, nb),
        na >= 0,
        nb >= 0,
    ensures
        counts_bounded_map(merge_maps(a, b), na + nb),
{
}

/// Inserting an unseen key on the right of a merge lands the entry merged
/// with whatever the left holds for that key.
proof fn lemma_merge_insert(a: Map<u64, EntryModel>, b: Map<u64, EntryModel>, k: u64, e: EntryModel)
    requires
        !b.dom().contains(k),
    ensures
        a.dom().contains(k) ==> merge_maps(a, b.insert(k, e)) =~= merge_maps(a, b).insert(
            k,
            a[k].merge(e),
        ),
        !a.dom().contains(k) ==> merge_maps(a, b.insert(k, e)) =~= merge_maps(a, b).insert(k, e),
{
}

/// Inserting a key the right does not hold on the left of a merge lands the
/// entry unmerged.
proof fn lemma_merge_insert_left(
    a: Map<u64, EntryModel>,
    b: Map<u64, EntryModel>,
    k: u64,
    e: EntryModel,
)
    requires
        !b.dom().contains(k),
    ensures
        merge_maps(a.insert(k, e), b) =~= merge_maps(a, b).insert(k, e),
{
}

} // verus!
