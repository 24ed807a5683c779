//! The final reduction: per-station results with a rounded mean, in
//! ascending byte-wise name order.

use vstd::prelude::*;

use crate::aggregate::distinct_keys;
use crate::aggregate::models_of;
use crate::aggregate::Entry;
use crate::model::round_half_from_zero;
use crate::model::lemma_round_in_bounds;
use crate::model::EntryModel;
use crate::model::MAX_ABS_TENTHS;
use crate::text::bytes_to_string;
use crate::text::lossy_decode;

verus! {

/// The externally visible record of one station: its name and the minimum,
/// mean and maximum of its readings, all in tenths of a degree.
#[derive(Clone)]
pub struct Station {
    pub name: String,
    pub min: i64,
    pub max: i64,
    pub mean: i64,
}

impl Station {
    /// A result record with the given fields.
    pub fn new(name: String, min: i64, max: i64, mean: i64) -> (r: Self)
        ensures
            r.name == name,
            r.min == min,
            r.max == max,
            r.mean == mean,
    {
        Station { name, min, max, mean }
    }
}

/// Byte-wise lexicographic order on names.
pub open spec fn lex_le(a: Seq<u8>, b: Seq<u8>) -> bool
    decreases a.len(),
{
    if a.len() == 0 {
        true
    } else if b.len() == 0 {
        false
    } else if a[0] < b[0] {
        true
    } else if a[0] > b[0] {
        false
    } else {
        lex_le(a.drop_first(), b.drop_first())
    }
}

/// Any two names are ordered one way or the other.
pub proof fn lemma_lex_total(a: Seq<u8>, b: Seq<u8>)
    ensures
        lex_le(a, b) || lex_le(b, a),
    decreases a.len(),
{
    if a.len() > 0 && b.len() > 0 && a[0] == b[0] {
        lemma_lex_total(a.drop_first(), b.drop_first());
    }
}

/// The order is transitive.
pub proof fn lemma_lex_trans(a: Seq<u8>, b: Seq<u8>, c: Seq<u8>)
    requires
        lex_le(a, b),
        lex_le(b, c),
    ensures
        lex_le(a, c),
    decreases a.len(),
{
    if a.len() > 0 && b.len() > 0 && c.len() > 0 && a[0] == b[0] && b[0] == c[0] {
        lemma_lex_trans(a.drop_first(), b.drop_first(), c.drop_first());
    }
}

/// Equal prefixes do not influence the order of what follows them.
proof fn lemma_lex_skip(a: Seq<u8>, b: Seq<u8>, i: int)
    requires
        0 <= i <= a.len(),
        i <= b.len(),
        forall|j: int| 0 <= j < i ==> a[j] == b[j],
    ensures
        lex_le(a, b) == lex_le(a.skip(i), b.skip(i)),
    decreases i,
{
    if i == 0 {
        assert(a.skip(0) =~= a);
        assert(b.skip(0) =~= b);
    } else {
        assert(a.len() > 0 && b.len() > 0 && a[0] == b[0]);
        assert(forall|j: int| 0 <= j < i - 1 ==> a.drop_first()[j] == b.drop_first()[j]);
        lemma_lex_skip(a.drop_first(), b.drop_first(), i - 1);
        assert(a.drop_first().skip(i - 1) =~= a.skip(i));
        assert(b.drop_first().skip(i - 1) =~= b.skip(i));
    }
}

/// Whether `a` sorts at or before `b` in byte-wise lexicographic order.
pub fn lex_le_bytes(a: &[u8], b: &[u8]) -> (r: bool)
    ensures
        r == lex_le(a@, b@),
{
    let an: usize = a.len();
    let bn: usize = b.len();
    let stop: usize = if an < bn {
        an
    } else {
        bn
    };
    let mut i: usize = 0;
    while i < stop
        invariant
            0 <= i <= stop,
            an == a@.len(),
            bn == b@.len(),
            stop == if an < bn {
                an
            } else {
                bn
            },
            forall|j: int| 0 <= j < i ==> a@[j] == b@[j],
        decreases stop - i,
    {
        if a[i] < b[i] {
            proof {
                lemma_lex_skip(a@, b@, i as int);
                assert(a@.skip(i as int)[0] == a@[i as int]);
                assert(b@.skip(i as int)[0] == b@[i as int]);
            }
            return true;
        }
        if a[i] > b[i] {
            proof {
                lemma_lex_skip(a@, b@, i as int);
                assert(a@.skip(i as int)[0] == a@[i as int]);
                assert(b@.skip(i as int)[0] == b@[i as int]);
            }
            return false;
        }
        i = i + 1;
    }
    proof {
        lemma_lex_skip(a@, b@, stop as int);
        if an <= bn {
            assert(a@.skip(stop as int).len() == 0);
        } else {
            assert(b@.skip(stop as int).len() == 0);
            assert(a@.skip(stop as int).len() > 0);
        }
    }
    an <= bn
}

/// The rounded mean of a sum of readings, in tenths, halves away from zero.
pub fn rounded_mean(sum: i128, count: u64) -> (r: i64)
    requires
        count >= 1,
        -(count * (MAX_ABS_TENTHS as int)) <= sum <= count * (MAX_ABS_TENTHS as int),
    ensures
        r as int == round_half_from_zero(sum as int, count as int),
        -MAX_ABS_TENTHS <= r <= MAX_ABS_TENTHS,
{
    proof {
        assert(count as int * (-(MAX_ABS_TENTHS as int)) == -(count as int * (
        MAX_ABS_TENTHS as int))) by (nonlinear_arith);
        lemma_round_in_bounds(
            sum as int,
            count as int,
            -(MAX_ABS_TENTHS as int),
            MAX_ABS_TENTHS as int,
        );
        assert(count * (MAX_ABS_TENTHS as int) <= 0xffff_ffff_ffff_ffff * 0x3b9a_c9ff)
            by (nonlinear_arith)
            requires
                count <= 0xffff_ffff_ffff_ffffu64,
        ;
    }
    let c: i128 = count as i128;
    if sum >= 0 {
        let q: i128 = (2 * sum + c) / (2 * c);
        q as i64
    } else {
        let q: i128 = (2 * (-sum) + c) / (2 * c);
        (-q) as i64
    }
}

/// One result record reports one accumulated entry.
pub open spec fn station_matches(s: Station, e: EntryModel) -> bool {
    &&& s.name@ == lossy_decode(e.name)
    &&& s.min as int == e.min
    &&& s.max as int == e.max
    &&& s.mean as int == round_half_from_zero(e.sum, e.count as int)
}

/// `ks` lists every key of `m` exactly once, in ascending order of the
/// entries' names.
pub open spec fn sorted_enumeration(ks: Seq<u64>, m: Map<u64, EntryModel>) -> bool {
    &&& forall|i: int, j: int| 0 <= i < j < ks.len() ==> ks[i] != ks[j]
    &&& forall|i: int| 0 <= i < ks.len() ==> m.dom().contains(#[trigger] ks[i])
    &&& forall|k: u64| #[trigger] m.dom().contains(k) ==> ks.contains(k)
    &&& forall|i: int, j: int|
        0 <= i < j < ks.len() ==> lex_le(m[#[trigger] ks[i]].name, m[#[trigger] ks[j]].name)
}

/// The result list reports exactly the stations of `m`, sorted by name.
pub open spec fn results_match(rs: Seq<Station>, m: Map<u64, EntryModel>) -> bool {
    exists|ks: Seq<u64>|
        #[trigger] sorted_enumeration(ks, m) && rs.len() == ks.len() && (forall|i: int|
            0 <= i < ks.len() ==> station_matches(rs[i], m[#[trigger] ks[i]]))
}

/// Every listed entry is one the map holds, under its own key.
spec fn elems_match(s: Seq<Entry>, m: Map<u64, EntryModel>) -> bool {
    forall|i: int|
        0 <= i < s.len() ==> m.dom().contains((#[trigger] s[i]).key()) && m[s[i].key()]
            == s[i].model() && s[i].wf()
}

/// No key occurs on both sides.
spec fn keys_disjoint(a: Seq<Entry>, b: Seq<Entry>) -> bool {
    forall|i: int, j: int|
        0 <= i < a.len() && 0 <= j < b.len() ==> (#[trigger] a[i]).key() != (#[trigger] b[j]).key()
}

/// Every key of `m` occurs on one of the two sides.
spec fn keys_cover(a: Seq<Entry>, b: Seq<Entry>, m: Map<u64, EntryModel>) -> bool {
    forall|k: u64|
        #[trigger] m.dom().contains(k) ==> (exists|i: int| 0 <= i < a.len() && (#[trigger] a[i]).key() == k)
            || (exists|j: int| 0 <= j < b.len() && (#[trigger] b[j]).key() == k)
}

/// The listed entries are sorted by name.
spec fn entries_sorted(s: Seq<Entry>) -> bool {
    forall|i: int, j: int|
        0 <= i < j < s.len() ==> lex_le((#[trigger] s[i]).name@, (#[trigger] s[j]).name@)
}

/// Every name on the left sorts at or before every name on the right.
spec fn entries_below(a: Seq<Entry>, b: Seq<Entry>) -> bool {
    forall|i: int, j: int|
        0 <= i < a.len() && 0 <= j < b.len() ==> lex_le(
            (#[trigger] a[i]).name@,
            (#[trigger] b[j]).name@,
        )
}

/// The final reduction: the accumulated entries of one run become result
/// records, means rounded, sorted by station name in ascending byte order.
pub fn finalize(entries: Vec<Entry>) -> (r: Vec<Station>)
    requires
        distinct_keys(entries@),
        forall|i: int| 0 <= i < entries@.len() ==> (#[trigger] entries@[i]).wf(),
    ensures
        results_match(r@, models_of(entries@)),
        r@.len() == entries@.len(),
        forall|i: int|
            0 <= i < r@.len() ==> r@[i].min <= (#[trigger] r@[i]).mean && r@[i].mean <= r@[i].max,
{
    let ghost m = models_of(entries@);
    proof {
        assert forall|i: int| 0 <= i < entries@.len() implies m.dom().contains(
            (#[trigger] entries@[i]).key(),
        ) && m[entries@[i].key()] == entries@[i].model() by {
            crate::aggregate::lemma_models_of_index(entries@, i);
        }
        assert forall|k: u64| #[trigger] m.dom().contains(k) implies (exists|j: int|
            0 <= j < entries@.len() && (#[trigger] entries@[j]).key() == k) by {
            crate::aggregate::lemma_models_of_contains(entries@, k);
        }
    }
    let total: usize = entries.len();
    let mut remaining = entries;
    let mut picked: Vec<Entry> = Vec::new();
    while remaining.len() > 0
        invariant
            picked@.len() + remaining@.len() == total,
            elems_match(picked@, m),
            elems_match(remaining@, m),
            distinct_keys(picked@),
            distinct_keys(remaining@),
            keys_disjoint(picked@, remaining@),
            keys_cover(picked@, remaining@, m),
            entries_sorted(picked@),
            entries_below(picked@, remaining@),
        decreases remaining@.len(),
    {
        let mut best: usize = 0;
        let mut j: usize = 1;
        proof {
            lemma_lex_total(remaining@[0].name@, remaining@[0].name@);
        }
        while j < remaining.len()
            invariant
                remaining@.len() > 0,
                best < j <= remaining@.len(),
                forall|t: int|
                    0 <= t < j ==> lex_le(
                        remaining@[best as int].name@,
                        (#[trigger] remaining@[t]).name@,
                    ),
            decreases remaining@.len() - j,
        {
            if lex_le_bytes(remaining[j].name.as_slice(), remaining[best].name.as_slice()) {
                proof {
                    assert forall|t: int| 0 <= t < j + 1 implies lex_le(
                        remaining@[j as int].name@,
                        (#[trigger] remaining@[t]).name@,
                    ) by {
                        if t < j {
                            lemma_lex_trans(
                                remaining@[j as int].name@,
                                remaining@[best as int].name@,
                                remaining@[t].name@,
                            );
                        } else {
                            lemma_lex_total(remaining@[j as int].name@, remaining@[t].name@);
                        }
                    }
                }
                best = j;
            } else {
                proof {
                    lemma_lex_total(
                        remaining@[j as int].name@,
                        remaining@[best as int].name@,
                    );
                }
            }
            j = j + 1;
        }
        let ghost before = remaining@;
        let ghost pre_picked = picked@;
        let e = remaining.swap_remove(best);
        picked.push(e);
        proof {
            let after = remaining@;
            let now = picked@;
            assert(now =~= pre_picked.push(e));
            assert(forall|t: int|
                0 <= t < after.len() ==> (#[trigger] after[t]) == if t == best as int {
                    before.last()
                } else {
                    before[t]
                });
            assert(forall|i: int| 0 <= i < pre_picked.len() ==> now[i] == pre_picked[i]);
            assert(now.last() == e && e == before[best as int]);
            assert(entries_sorted(now));
            assert(entries_below(now, after));
            assert(distinct_keys(after));
            assert(keys_disjoint(now, after));
            assert forall|k: u64| #[trigger] m.dom().contains(k) implies (exists|i: int|
                0 <= i < now.len() && (#[trigger] now[i]).key() == k) || (exists|j: int|
                0 <= j < after.len() && (#[trigger] after[j]).key() == k) by {
                if exists|i: int| 0 <= i < pre_picked.len() && (#[trigger] pre_picked[i]).key()
                    == k {
                    let i = choose|i: int|
                        0 <= i < pre_picked.len() && (#[trigger] pre_picked[i]).key() == k;
                    assert(now[i].key() == k);
                } else {
                    let u = choose|u: int|
                        0 <= u < before.len() && (#[trigger] before[u]).key() == k;
                    if u == best as int {
                        assert(now[now.len() - 1].key() == k);
                    } else if u < before.len() - 1 {
                        assert(after[u].key() == k);
                    } else {
                        assert(best < before.len() - 1);
                        assert(after[best as int].key() == k);
                    }
                }
            }
        }
    }
    proof {
        assert(picked@.len() == total);
    }
    let ghost sorted_seq = picked@;
    let ghost ks = Seq::new(sorted_seq.len(), |i: int| sorted_seq[i].key());
    let count_entries: usize = picked.len();
    let mut out: Vec<Station> = Vec::new();
    let mut idx: usize = 0;
    while idx < count_entries
        invariant
            idx <= count_entries,
            count_entries == picked@.len(),
            picked@ == sorted_seq,
            elems_match(sorted_seq, m),
            ks == Seq::new(sorted_seq.len(), |i: int| sorted_seq[i].key()),
            out@.len() == idx,
            forall|i: int| 0 <= i < idx ==> station_matches(#[trigger] out@[i], m[ks[i]]),
            forall|i: int|
                0 <= i < idx ==> out@[i].min <= (#[trigger] out@[i]).mean && out@[i].mean
                    <= out@[i].max,
        decreases count_entries - idx,
    {
        let e = &picked[idx];
        proof {
            crate::aggregate::lemma_sum_within(e.model());
            lemma_round_in_bounds(e.sum as int, e.count as int, e.min as int, e.max as int);
        }
        let name = bytes_to_string(e.name.as_slice());
        let mean = rounded_mean(e.sum, e.count);
        let s = Station::new(name, e.min, e.max, mean);
        out.push(s);
        idx = idx + 1;
    }
    proof {
        assert(sorted_enumeration(ks, m)) by {
            assert forall|k: u64| #[trigger] m.dom().contains(k) implies ks.contains(k) by {
                let i = choose|i: int|
                    0 <= i < sorted_seq.len() && (#[trigger] sorted_seq[i]).key() == k;
                assert(ks[i] == k);
            }
        }
        assert(results_match(out@, m));
    }
    out
}

} // verus!
