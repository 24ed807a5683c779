//! The exact aggregation variant: stations are keyed by their full name, so
//! two distinct names never share an accumulator, whatever their hashes.

use std::collections::HashMap;

use vstd::prelude::*;

use crate::aggregate::Entry;
use crate::model::hash_name;
use crate::model::name_agg_observe;
use crate::model::reading_in_range;
use crate::model::lemma_round_in_bounds;
use crate::model::EntryModel;
use crate::search::bytes_equal;
use crate::stats::lemma_lex_total;
use crate::stats::lemma_lex_trans;
use crate::stats::lex_le;
use crate::stats::lex_le_bytes;
use crate::stats::station_matches;
use crate::stats::Station;
use crate::text::bytes_to_string;

verus! {

broadcast use vstd::std_specs::hash::group_hash_axioms;

/// No two entries carry the same name.
pub open spec fn distinct_names(s: Seq<Entry>) -> bool {
    forall|i: int, j: int| 0 <= i < j < s.len() ==> (#[trigger] s[i]).name@ != (#[trigger] s[j]).name@
}

/// The name-keyed mathematical map that a run of entries denotes.
pub open spec fn name_models_of(s: Seq<Entry>) -> Map<Seq<u8>, EntryModel>
    decreases s.len(),
{
    if s.len() == 0 {
        Map::empty()
    } else {
        name_models_of(s.drop_last()).insert(s.last().name@, s.last().model())
    }
}

/// A name is in the denoted map exactly when some entry carries it.
pub proof fn lemma_name_models_contains(s: Seq<Entry>, k: Seq<u8>)
    ensures
        name_models_of(s).dom().contains(k) <==> exists|i: int|
            0 <= i < s.len() && (#[trigger] s[i]).name@ == k,
    decreases s.len(),
{
    if s.len() > 0 {
        lemma_name_models_contains(s.drop_last(), k);
        if name_models_of(s).dom().contains(k) {
            if s.last().name@ == k {
                assert(s[s.len() - 1].name@ == k);
            } else {
                let i = choose|i: int|
                    0 <= i < s.len() - 1 && (#[trigger] s.drop_last()[i]).name@ == k;
                assert(s[i].name@ == k);
            }
        }
        if exists|i: int| 0 <= i < s.len() && (#[trigger] s[i]).name@ == k {
            let i = choose|i: int| 0 <= i < s.len() && (#[trigger] s[i]).name@ == k;
            if i < s.len() - 1 {
                assert(s.drop_last()[i].name@ == k);
            }
        }
    }
}

/// With distinct names, each entry is the one its name denotes.
pub proof fn lemma_name_models_index(s: Seq<Entry>, i: int)
    requires
        0 <= i < s.len(),
        distinct_names(s),
    ensures
        name_models_of(s).dom().contains(s[i].name@),
        name_models_of(s)[s[i].name@] == s[i].model(),
    decreases s.len(),
{
    if i < s.len() - 1 {
        assert(s.drop_last()[i] == s[i]);
        lemma_name_models_index(s.drop_last(), i);
        assert(s[i].name@ != s.last().name@);
    }
}

/// Updating one entry updates the one name it carries.
pub proof fn lemma_name_models_update(s: Seq<Entry>, i: int, e: Entry)
    requires
        0 <= i < s.len(),
        distinct_names(s),
        e.name@ == s[i].name@,
    ensures
        name_models_of(s.update(i, e)) =~= name_models_of(s).insert(e.name@, e.model()),
    decreases s.len(),
{
    let t = s.update(i, e);
    if i == s.len() - 1 {
        assert(t.drop_last() =~= s.drop_last());
        assert(t.last() == e);
    } else {
        assert(t.drop_last() =~= s.drop_last().update(i, e));
        assert(t.last() == s.last());
        assert(s.drop_last()[i] == s[i]);
        lemma_name_models_update(s.drop_last(), i, e);
        assert(s[i].name@ != s.last().name@);
    }
}

/// The results report exactly the stations of a name-keyed map, sorted by
/// name in ascending byte order.
pub open spec fn results_match_names(rs: Seq<Station>, m: Map<Seq<u8>, EntryModel>) -> bool {
    exists|ks: Seq<Seq<u8>>|
        {
            &&& #[trigger] ks.len() == rs.len()
            &&& forall|i: int, j: int| 0 <= i < j < ks.len() ==> ks[i] != ks[j]
            &&& forall|i: int| 0 <= i < ks.len() ==> m.dom().contains(#[trigger] ks[i])
            &&& forall|k: Seq<u8>| #[trigger] m.dom().contains(k) ==> ks.contains(k)
            &&& forall|i: int, j: int| 0 <= i < j < ks.len() ==> lex_le(#[trigger] ks[i], #[trigger] ks[j])
            &&& forall|i: int| 0 <= i < ks.len() ==> station_matches(rs[i], m[#[trigger] ks[i]])
        }
}

/// The name-keyed aggregation engine.  A numeric hash index keeps the
/// lookup fast, but every hit verifies the whole name, and colliding names
/// fall back to further slots of the same bucket.
pub struct Analyzer {
    entries: Vec<Entry>,
    index: HashMap<u64, Vec<usize>>,
    rows: u64,
}

impl Analyzer {
    /// The name-keyed mathematical map this engine has accumulated.
    pub closed spec fn model(&self) -> Map<Seq<u8>, EntryModel> {
        name_models_of(self.entries@)
    }

    /// How many observations were folded in.
    pub closed spec fn spec_rows(&self) -> int {
        self.rows as int
    }

    /// The engine invariant: entries well formed and uniquely named, counts
    /// within the observation total, and the bucket index complete — every
    /// entry is listed in the bucket of its name's hash, and every listed
    /// slot holds an entry hashing to its bucket's key.
    pub closed spec fn wf(&self) -> bool {
        &&& forall|i: int| 0 <= i < self.entries@.len() ==> (#[trigger] self.entries@[i]).wf()
        &&& distinct_names(self.entries@)
        &&& forall|i: int|
            0 <= i < self.entries@.len() ==> (#[trigger] self.entries@[i]).count <= self.rows
        &&& forall|i: int|
            0 <= i < self.entries@.len() ==> self.index@.contains_key(
                hash_name((#[trigger] self.entries@[i]).name@),
            ) && self.index@[hash_name(self.entries@[i].name@)]@.contains(i as usize)
        &&& forall|k: u64, j: int|
            self.index@.contains_key(k) && 0 <= j < self.index@[k]@.len()
                ==> (#[trigger] self.index@[k]@[j]) < self.entries@.len() && hash_name(
                self.entries@[self.index@[k]@[j] as int].name@,
            ) == k
    }

    /// A fresh, empty engine.
    pub fn new() -> (r: Self)
        ensures
            r.wf(),
            r.model() == Map::<Seq<u8>, EntryModel>::empty(),
            r.spec_rows() == 0,
    {
        Analyzer { entries: Vec::new(), index: HashMap::new(), rows: 0 }
    }

    /// One observation folded in under its exact name: the hash picks the
    /// bucket, every candidate's whole name is compared, so a hash collision
    /// can never merge two stations.
    pub fn observe(&mut self, name: &[u8], temperature: i64)
        requires
            old(self).wf(),
            reading_in_range(temperature as int),
            old(self).spec_rows() < u64::MAX,
        ensures
            final(self).wf(),
            final(self).model() == name_agg_observe(
                old(self).model(),
                name@,
                temperature as int,
            ),
            final(self).spec_rows() == old(self).spec_rows() + 1,
    {
        proof {
            lemma_name_models_contains(self.entries@, name@);
        }
        let k = crate::processor::hash_station_name(name);
        let found = self.index.get(&k);
        match found {
            Some(bucket_ref) => {
                let bucket_len: usize = bucket_ref.len();
                let mut j: usize = 0;
                while j < bucket_len
                    invariant
                        j <= bucket_len,
                        *self == *old(self),
                        old(self).wf(),
                        reading_in_range(temperature as int),
                        old(self).spec_rows() < u64::MAX,
                        k == hash_name(name@),
                        self.index@.contains_key(k),
                        bucket_ref@ == self.index@[k]@,
                        bucket_len == bucket_ref@.len(),
                        forall|t: int|
                            0 <= t < j ==> self.entries@[bucket_ref@[t] as int].name@ != name@,
                    decreases bucket_len - j,
                {
                    let pos = bucket_ref[j];
                    if bytes_equal(self.entries[pos].name.as_slice(), name) {
                        proof {
                            lemma_name_models_index(self.entries@, pos as int);
                        }
                        let ghost before = self.entries@;
                        self.entries[pos].observe(temperature);
                        proof {
                            lemma_name_models_update(before, pos as int, self.entries@[pos as int]);
                        }
                        self.rows = self.rows + 1;
                        return ;
                    }
                    j = j + 1;
                }
                let pos = self.entries.len();
                proof {
                    assert forall|i: int|
                        0 <= i < self.entries@.len() implies (#[trigger] self.entries@[i]).name@
                        != name@ by {
                        if self.entries@[i].name@ == name@ {
                            assert(i < pos <= usize::MAX);
                            assert(hash_name(self.entries@[i].name@) == k);
                            assert(self.index@[k]@.contains(i as usize));
                            assert(bucket_ref@.contains(i as usize));
                            let t = choose|t: int|
                                0 <= t < bucket_ref@.len() && bucket_ref@[t] == i as usize;
                            assert(self.entries@[bucket_ref@[t] as int].name@ != name@);
                        }
                    }
                    assert(!old(self).model().dom().contains(name@));
                }
                let entry = Entry::new(temperature, vstd::slice::slice_to_vec(name));
                self.entries.push(entry);
                let mut bucket = match self.index.remove(&k) {
                    Some(bucket) => bucket,
                    None => {
                        proof {
                            assert(false);
                        }
                        Vec::new()
                    },
                };
                bucket.push(pos);
                self.index.insert(k, bucket);
                proof {
                    let ne = self.entries@;
                    let m2 = self.index@;
                    let m0 = old(self).index@;
                    assert(ne.drop_last() =~= old(self).entries@);
                    assert(ne.last().name@ == name@);
                    assert(m2[k]@.last() == pos);
                    assert(m2[k]@.len() == m0[k]@.len() + 1);
                    assert(forall|t: int|
                        0 <= t < m2[k]@.len() - 1 ==> m2[k]@[t] == m0[k]@[t]);
                    assert forall|i: int| 0 <= i < ne.len() implies m2.contains_key(
                        hash_name((#[trigger] ne[i]).name@),
                    ) && m2[hash_name(ne[i].name@)]@.contains(i as usize) by {
                        if i < ne.len() - 1 {
                            let ki = hash_name(ne[i].name@);
                            assert(m0.contains_key(ki));
                            if ki == k {
                                assert(m0[k]@.contains(i as usize));
                                let t = choose|t: int|
                                    0 <= t < m0[k]@.len() && m0[k]@[t] == i as usize;
                                assert(m2[k]@[t] == i as usize);
                            } else {
                                assert(m2[ki] == m0[ki]);
                            }
                        } else {
                            assert(m2[k]@[m2[k]@.len() - 1] == i as usize);
                        }
                    }
                    assert forall|k2: u64, j: int|
                        m2.contains_key(k2) && 0 <= j < m2[k2]@.len() implies (#[trigger] m2[k2]@[j])
                        < ne.len() && hash_name(ne[m2[k2]@[j] as int].name@) == k2 by {
                        if k2 == k {
                            if j < m2[k]@.len() - 1 {
                                assert(m2[k]@[j] == m0[k]@[j]);
                                assert(m0[k]@[j] < old(self).entries@.len());
                                assert(ne[m0[k]@[j] as int] == old(self).entries@[m0[k]@[j] as int]);
                            } else {
                                assert(m2[k]@[j] == pos);
                            }
                        } else {
                            assert(m2[k2] == m0[k2]);
                            assert(m0.contains_key(k2));
                            assert(m0[k2]@[j] < old(self).entries@.len());
                            assert(ne[m0[k2]@[j] as int] == old(self).entries@[m0[k2]@[j] as int]);
                        }
                    }
                }
                self.rows = self.rows + 1;
            },
            None => {
                let pos = self.entries.len();
                proof {
                    assert forall|i: int|
                        0 <= i < self.entries@.len() implies (#[trigger] self.entries@[i]).name@
                        != name@ by {
                        if self.entries@[i].name@ == name@ {
                            assert(self.index@.contains_key(hash_name(self.entries@[i].name@)));
                        }
                    }
                    assert(!old(self).model().dom().contains(name@));
                }
                let entry = Entry::new(temperature, vstd::slice::slice_to_vec(name));
                self.entries.push(entry);
                let mut bucket: Vec<usize> = Vec::new();
                bucket.push(pos);
                self.index.insert(k, bucket);
                proof {
                    let ne = self.entries@;
                    let m2 = self.index@;
                    let m0 = old(self).index@;
                    assert(ne.drop_last() =~= old(self).entries@);
                    assert(m2[k]@ =~= seq![pos]);
                    assert forall|i: int| 0 <= i < ne.len() implies m2.contains_key(
                        hash_name((#[trigger] ne[i]).name@),
                    ) && m2[hash_name(ne[i].name@)]@.contains(i as usize) by {
                        if i < ne.len() - 1 {
                            let ki = hash_name(ne[i].name@);
                            assert(m0.contains_key(ki));
                            assert(ki != k);
                            assert(m2[ki] == m0[ki]);
                        } else {
                            assert(m2[k]@[0] == i as usize);
                        }
                    }
                    assert forall|k2: u64, j: int|
                        m2.contains_key(k2) && 0 <= j < m2[k2]@.len() implies (#[trigger] m2[k2]@[j])
                        < ne.len() && hash_name(ne[m2[k2]@[j] as int].name@) == k2 by {
                        if k2 == k {
                            assert(m2[k]@[j] == pos);
                        } else {
                            assert(m2[k2] == m0[k2]);
                            assert(m0.contains_key(k2));
                            assert(m0[k2]@[j] < old(self).entries@.len());
                            assert(ne[m0[k2]@[j] as int] == old(self).entries@[m0[k2]@[j] as int]);
                        }
                    }
                }
                self.rows = self.rows + 1;
            },
        }
    }

    /// The accumulated stations, reduced to sorted results: one record per
    /// distinct name, means rounded, ascending byte order of names.
    pub fn collect(self) -> (r: Vec<Station>)
        requires
            self.wf(),
        ensures
            results_match_names(r@, self.model()),
            r@.len() == self.model().len(),
            forall|i: int|
                0 <= i < r@.len() ==> r@[i].min <= (#[trigger] r@[i]).mean && r@[i].mean
                    <= r@[i].max,
    {
        let ghost m = self.model();
        let ghost initial = self.entries@;
        proof {
            assert forall|i: int| 0 <= i < initial.len() implies m.dom().contains(
                (#[trigger] initial[i]).name@,
            ) && m[initial[i].name@] == initial[i].model() by {
                lemma_name_models_index(initial, i);
            }
            assert forall|k: Seq<u8>| #[trigger] m.dom().contains(k) implies (exists|j: int|
                0 <= j < initial.len() && (#[trigger] initial[j]).name@ == k) by {
                lemma_name_models_contains(initial, k);
            }
            lemma_name_models_len(initial);
        }
        let total: usize = self.entries.len();
        let mut remaining = self.entries;
        let mut picked: Vec<Entry> = Vec::new();
        while remaining.len() > 0
            invariant
                picked@.len() + remaining@.len() == total,
                entries_in(picked@, m),
                entries_in(remaining@, m),
                distinct_names(picked@),
                distinct_names(remaining@),
                names_disjoint(picked@, remaining@),
                names_cover(picked@, remaining@, m),
                names_sorted(picked@),
                names_below(picked@, remaining@),
            decreases remaining@.len(),
        {
            let mut best: usize = 0;
            let mut j: usize = 1;
            proof {
                lemma_lex_total(remaining@[0].name@, remaining@[0].name@);
            }
            while j < remaining.len()
                invariant
                    remaining@.len() > 0,
                    best < j <= remaining@.len(),
                    forall|t: int|
                        0 <= t < j ==> lex_le(
                            remaining@[best as int].name@,
                            (#[trigger] remaining@[t]).name@,
                        ),
                decreases remaining@.len() - j,
            {
                if lex_le_bytes(remaining[j].name.as_slice(), remaining[best].name.as_slice()) {
                    proof {
                        assert forall|t: int| 0 <= t < j + 1 implies lex_le(
                            remaining@[j as int].name@,
                            (#[trigger] remaining@[t]).name@,
                        ) by {
                            if t < j {
                                lemma_lex_trans(
                                    remaining@[j as int].name@,
                                    remaining@[best as int].name@,
                                    remaining@[t].name@,
                                );
                            } else {
                                lemma_lex_total(remaining@[j as int].name@, remaining@[t].name@);
                            }
                        }
                    }
                    best = j;
                } else {
                    proof {
                        lemma_lex_total(remaining@[j as int].name@, remaining@[best as int].name@);
                    }
                }
                j = j + 1;
            }
            let ghost before = remaining@;
            let ghost pre_picked = picked@;
            let e = remaining.swap_remove(best);
            picked.push(e);
            proof {
                let after = remaining@;
                let now = picked@;
                assert(now =~= pre_picked.push(e));
                assert(forall|t: int|
                    0 <= t < after.len() ==> (#[trigger] after[t]) == if t == best as int {
                        before.last()
                    } else {
                        before[t]
                    });
                assert(forall|i: int| 0 <= i < pre_picked.len() ==> now[i] == pre_picked[i]);
                assert(now.last() == e && e == before[best as int]);
                assert(names_sorted(now));
                assert(names_below(now, after));
                assert(distinct_names(after));
                assert(names_disjoint(now, after));
                assert forall|k: Seq<u8>| #[trigger] m.dom().contains(k) implies (exists|i: int|
                    0 <= i < now.len() && (#[trigger] now[i]).name@ == k) || (exists|j2: int|
                    0 <= j2 < after.len() && (#[trigger] after[j2]).name@ == k) by {
                    if exists|i: int|
                        0 <= i < pre_picked.len() && (#[trigger] pre_picked[i]).name@ == k {
                        let i = choose|i: int|
                            0 <= i < pre_picked.len() && (#[trigger] pre_picked[i]).name@ == k;
                        assert(now[i].name@ == k);
                    } else {
                        let u = choose|u: int|
                            0 <= u < before.len() && (#[trigger] before[u]).name@ == k;
                        if u == best as int {
                            assert(now[now.len() - 1].name@ == k);
                        } else if u < before.len() - 1 {
                            assert(after[u].name@ == k);
                        } else {
                            assert(best < before.len() - 1);
                            assert(after[best as int].name@ == k);
                        }
                    }
                }
            }
        }
        let ghost sorted_seq = picked@;
        let ghost ks = Seq::new(sorted_seq.len(), |i: int| sorted_seq[i].name@);
        let count_entries: usize = picked.len();
        let mut out: Vec<Station> = Vec::new();
        let mut idx: usize = 0;
        while idx < count_entries
            invariant
                idx <= count_entries,
                count_entries == picked@.len(),
                picked@ == sorted_seq,
                entries_in(sorted_seq, m),
                ks == Seq::new(sorted_seq.len(), |i: int| sorted_seq[i].name@),
                out@.len() == idx,
                forall|i: int| 0 <= i < idx ==> station_matches(#[trigger] out@[i], m[ks[i]]),
                forall|i: int|
                    0 <= i < idx ==> out@[i].min <= (#[trigger] out@[i]).mean && out@[i].mean
                        <= out@[i].max,
            decreases count_entries - idx,
        {
            let e = &picked[idx];
            proof {
                crate::aggregate::lemma_sum_within(e.model());
                lemma_round_in_bounds(e.sum as int, e.count as int, e.min as int, e.max as int);
            }
            let name = bytes_to_string(e.name.as_slice());
            let mean = crate::stats::rounded_mean(e.sum, e.count);
            let s = Station::new(name, e.min, e.max, mean);
            out.push(s);
            idx = idx + 1;
        }
        proof {
            assert forall|k: Seq<u8>| #[trigger] m.dom().contains(k) implies ks.contains(k) by {
                let i = choose|i: int|
                    0 <= i < sorted_seq.len() && (#[trigger] sorted_seq[i]).name@ == k;
                assert(ks[i] == k);
            }
            assert(results_match_names(out@, m)) by {
                assert(ks.len() == out@.len());
            }
            lemma_sorted_covers_len(sorted_seq, m);
        }
        out
    }
}

/// Every listed entry is one the map holds, under its own name.
spec fn entries_in(s: Seq<Entry>, m: Map<Seq<u8>, EntryModel>) -> bool {
    forall|i: int|
        0 <= i < s.len() ==> m.dom().contains((#[trigger] s[i]).name@) && m[s[i].name@]
            == s[i].model() && s[i].wf()
}

/// No name occurs on both sides.
spec fn names_disjoint(a: Seq<Entry>, b: Seq<Entry>) -> bool {
    forall|i: int, j: int|
        0 <= i < a.len() && 0 <= j < b.len() ==> (#[trigger] a[i]).name@ != (#[trigger] b[j]).name@
}

/// Every name of `m` occurs on one of the two sides.
spec fn names_cover(a: Seq<Entry>, b: Seq<Entry>, m: Map<Seq<u8>, EntryModel>) -> bool {
    forall|k: Seq<u8>|
        #[trigger] m.dom().contains(k) ==> (exists|i: int|
            0 <= i < a.len() && (#[trigger] a[i]).name@ == k) || (exists|j: int|
            0 <= j < b.len() && (#[trigger] b[j]).name@ == k)
}

/// The listed entries are sorted by name.
spec fn names_sorted(s: Seq<Entry>) -> bool {
    forall|i: int, j: int|
        0 <= i < j < s.len() ==> lex_le((#[trigger] s[i]).name@, (#[trigger] s[j]).name@)
}

/// Every name on the left sorts at or before every name on the right.
spec fn names_below(a: Seq<Entry>, b: Seq<Entry>) -> bool {
    forall|i: int, j: int|
        0 <= i < a.len() && 0 <= j < b.len() ==> lex_le(
            (#[trigger] a[i]).name@,
            (#[trigger] b[j]).name@,
        )
}

/// With distinct names, the denoted map is exactly as large as the run.
proof fn lemma_name_models_len(s: Seq<Entry>)
    requires
        distinct_names(s),
    ensures
        name_models_of(s).len() == s.len(),
        name_models_of(s).dom().finite(),
    decreases s.len(),
{
    if s.len() > 0 {
        lemma_name_models_len(s.drop_last());
        lemma_name_models_contains(s.drop_last(), s.last().name@);
        assert(forall|i: int| 0 <= i < s.len() - 1 ==> s.drop_last()[i] == s[i]);
        assert(!name_models_of(s.drop_last()).dom().contains(s.last().name@));
        assert(name_models_of(s).dom() =~= name_models_of(s.drop_last()).dom().insert(
            s.last().name@,
        ));
    }
}

/// A sorted cover of the map's names has exactly as many entries as the map.
proof fn lemma_sorted_covers_len(s: Seq<Entry>, m: Map<Seq<u8>, EntryModel>)
    requires
        entries_in(s, m),
        distinct_names(s),
        names_cover(s, Seq::empty(), m),
    ensures
        s.len() == m.len(),
{
    lemma_name_models_len(s);
    assert(name_models_of(s).dom() =~= m.dom()) by {
        assert forall|k: Seq<u8>| name_models_of(s).dom().contains(k) implies m.dom().contains(
            k,
        ) by {
            lemma_name_models_contains(s, k);
        }
        assert forall|k: Seq<u8>| m.dom().contains(k) implies name_models_of(s).dom().contains(
            k,
        ) by {
            lemma_name_models_contains(s, k);
        }
    }
}

} // verus!
