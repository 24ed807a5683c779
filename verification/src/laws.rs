//! The engine's general laws, stated and proved once over the model: the
//! mean lies between the extremes, merging shards is associative and
//! commutative and loses nothing, rounding is idempotent, and any two
//! strategies report identical sorted results for the same input.

use vstd::prelude::*;

use crate::model::agg_empty;
use crate::model::agg_observe;
use crate::model::agg_rows;
use crate::model::buffer_agg;
use crate::model::concat_all;
use crate::model::hash_name;
use crate::model::lemma_agg_rows_merge;
use crate::model::lemma_round_exact;
use crate::model::lemma_round_in_bounds;
use crate::model::lemma_sharded_agg;
use crate::model::merge_all;
use crate::model::merge_maps;
use crate::model::round_half_from_zero;
use crate::model::EntryModel;
use crate::model::RowModel;
use crate::stats::lex_le;
use crate::stats::results_match;
use crate::stats::sorted_enumeration;
use crate::stats::station_matches;
use crate::stats::Station;

verus! {

/// For every well-formed aggregate, the rounded mean lies between the
/// minimum and the maximum.
pub proof fn lemma_mean_within_extremes(e: EntryModel)
    requires
        e.wf(),
    ensures
        e.min <= round_half_from_zero(e.sum, e.count as int) <= e.max,
{
    lemma_round_in_bounds(e.sum, e.count as int, e.min, e.max);
}

/// Combining two aggregates of one station is commutative in everything the
/// result reports; only the recorded display name keeps the left side's.
pub proof fn lemma_merge_entry_commutes(a: EntryModel, b: EntryModel)
    ensures
        a.merge(b).same_stats(b.merge(a)),
{
}

/// Combining aggregates of one station is associative.
pub proof fn lemma_merge_entry_assoc(a: EntryModel, b: EntryModel, c: EntryModel)
    ensures
        a.merge(b).merge(c) == a.merge(b.merge(c)),
{
}

/// Merging two shard maps is commutative in everything the result reports.
pub proof fn lemma_merge_maps_commutes(a: Map<u64, EntryModel>, b: Map<u64, EntryModel>)
    ensures
        merge_maps(a, b).dom() =~= merge_maps(b, a).dom(),
        forall|k: u64|
            merge_maps(a, b).dom().contains(k) ==> (#[trigger] merge_maps(a, b)[k]).same_stats(
                merge_maps(b, a)[k],
            ),
{
}

/// Merging shard maps is associative.
pub proof fn lemma_merge_maps_assoc(
    a: Map<u64, EntryModel>,
    b: Map<u64, EntryModel>,
    c: Map<u64, EntryModel>,
)
    ensures
        merge_maps(merge_maps(a, b), c) =~= merge_maps(a, merge_maps(b, c)),
{
}

/// Splitting the rows anywhere and merging the two partial aggregates gives
/// the one-shard aggregate: per station, the same minimum, maximum, sum and
/// count as one uninterrupted run.
pub proof fn lemma_split_is_lossless(r1: Seq<RowModel>, r2: Seq<RowModel>)
    ensures
        agg_rows(agg_empty(), r1 + r2) =~= merge_maps(
            agg_rows(agg_empty(), r1),
            agg_rows(agg_empty(), r2),
        ),
{
    lemma_agg_rows_merge(r1, r2);
}

/// The same, for arbitrarily many shards at arbitrary boundaries.
pub proof fn lemma_shards_merge_to_whole(shards: Seq<Seq<RowModel>>)
    ensures
        merge_all(shards.map(|i: int, rows: Seq<RowModel>| agg_rows(agg_empty(), rows)))
            =~= agg_rows(agg_empty(), concat_all(shards)),
{
    lemma_sharded_agg(shards);
}

/// Rounding is idempotent: a mean that is already quantized to tenths
/// rounds to itself, so re-aggregating a station's reported mean `count`
/// times reproduces that mean exactly.
pub proof fn lemma_rounding_idempotent(mean: int, count: int)
    requires
        count >= 1,
    ensures
        round_half_from_zero(mean * count, count) == mean,
{
    lemma_round_exact(mean, count);
}

/// Every key of an aggregate built from observations names the hash of the
/// entry it holds.
pub open spec fn keys_faithful(m: Map<u64, EntryModel>) -> bool {
    forall|k: u64| m.dom().contains(k) ==> hash_name((#[trigger] m[k]).name) == k
}

proof fn lemma_agg_observe_faithful(m: Map<u64, EntryModel>, name: Seq<u8>, t: int)
    requires
        keys_faithful(m),
    ensures
        keys_faithful(agg_observe(m, name, t)),
{
}

proof fn lemma_agg_rows_faithful(m: Map<u64, EntryModel>, rows: Seq<RowModel>)
    requires
        keys_faithful(m),
    ensures
        keys_faithful(agg_rows(m, rows)),
    decreases rows.len(),
{
    if rows.len() > 0 {
        lemma_agg_observe_faithful(m, rows[0].name, rows[0].temp);
        lemma_agg_rows_faithful(agg_observe(m, rows[0].name, rows[0].temp), rows.drop_first());
    }
}

/// The order is antisymmetric: names ordered both ways are equal.
proof fn lemma_lex_antisym(a: Seq<u8>, b: Seq<u8>)
    requires
        lex_le(a, b),
        lex_le(b, a),
    ensures
        a =~= b,
    decreases a.len(),
{
    if a.len() > 0 && b.len() > 0 && a[0] == b[0] {
        lemma_lex_antisym(a.drop_first(), b.drop_first());
        assert(a =~= seq![a[0]] + a.drop_first());
        assert(b =~= seq![b[0]] + b.drop_first());
    }
}

/// A faithful map has one sorted enumeration of its keys.
proof fn lemma_enumeration_unique(ks1: Seq<u64>, ks2: Seq<u64>, m: Map<u64, EntryModel>)
    requires
        sorted_enumeration(ks1, m),
        sorted_enumeration(ks2, m),
        keys_faithful(m),
    ensures
        ks1 =~= ks2,
    decreases ks1.len(),
{
    if ks1.len() == 0 {
        if ks2.len() > 0 {
            assert(m.dom().contains(ks2[0]));
            assert(ks1.contains(ks2[0]));
        }
    } else {
        if ks2.len() == 0 {
            assert(m.dom().contains(ks1[0]));
            assert(ks2.contains(ks1[0]));
            assert(false);
        }
        let k1 = ks1[0];
        let k2 = ks2[0];
        assert(ks2.contains(k1));
        assert(ks1.contains(k2));
        let j1 = choose|j: int| 0 <= j < ks2.len() && ks2[j] == k1;
        let j2 = choose|j: int| 0 <= j < ks1.len() && ks1[j] == k2;
        assert(lex_le(m[k2].name, m[k1].name)) by {
            if j1 > 0 {
                assert(lex_le(m[ks2[0]].name, m[ks2[j1]].name));
            } else {
                crate::stats::lemma_lex_total(m[k1].name, m[k1].name);
            }
        }
        assert(lex_le(m[k1].name, m[k2].name)) by {
            if j2 > 0 {
                assert(lex_le(m[ks1[0]].name, m[ks1[j2]].name));
            } else {
                crate::stats::lemma_lex_total(m[k1].name, m[k1].name);
            }
        }
        lemma_lex_antisym(m[k1].name, m[k2].name);
        assert(hash_name(m[k1].name) == k1 && hash_name(m[k2].name) == k2);
        assert(k1 == k2);
        let t1 = ks1.drop_first();
        let t2 = ks2.drop_first();
        let m1 = m.remove(k1);
        assert(keys_faithful(m1));
        assert(sorted_enumeration(t1, m1)) by {
            lemma_tail_enumeration(ks1, m);
        }
        assert(sorted_enumeration(t2, m1)) by {
            lemma_tail_enumeration(ks2, m);
        }
        lemma_enumeration_unique(t1, t2, m1);
        assert(ks1 =~= seq![k1] + t1);
        assert(ks2 =~= seq![k2] + t2);
    }
}

/// Dropping the first key of a sorted enumeration enumerates the map
/// without it.
proof fn lemma_tail_enumeration(ks: Seq<u64>, m: Map<u64, EntryModel>)
    requires
        sorted_enumeration(ks, m),
        ks.len() > 0,
    ensures
        sorted_enumeration(ks.drop_first(), m.remove(ks[0])),
{
    let k0 = ks[0];
    let t = ks.drop_first();
    let m1 = m.remove(k0);
    assert(forall|i: int| 0 <= i < t.len() ==> t[i] == ks[i + 1]);
    assert forall|k: u64| #[trigger] m1.dom().contains(k) implies t.contains(k) by {
        assert(m.dom().contains(k));
        assert(ks.contains(k));
        let i = choose|i: int| 0 <= i < ks.len() && ks[i] == k;
        assert(i != 0);
        assert(t[i - 1] == k);
    }
}

/// Two sorted result lists of the same observation-built aggregate are the
/// same list: every strategy that meets the processing contract reports
/// identical results, whatever its schedule.
pub proof fn lemma_strategies_agree(r1: Seq<Station>, r2: Seq<Station>, buf: Seq<u8>)
    requires
        results_match(r1, buffer_agg(buf)),
        results_match(r2, buffer_agg(buf)),
    ensures
        r1.len() == r2.len(),
        forall|i: int|
            0 <= i < r1.len() ==> (#[trigger] r1[i]).name@ == r2[i].name@ && r1[i].min == r2[i].min
                && r1[i].max == r2[i].max && r1[i].mean == r2[i].mean,
{
    let m = buffer_agg(buf);
    assert(keys_faithful(m)) by {
        lemma_agg_rows_faithful(agg_empty(), crate::model::parsed_rows(buf));
    }
    let ks1 = choose|ks: Seq<u64>|
        #[trigger] sorted_enumeration(ks, m) && r1.len() == ks.len() && (forall|i: int|
            0 <= i < ks.len() ==> station_matches(r1[i], m[#[trigger] ks[i]]));
    let ks2 = choose|ks: Seq<u64>|
        #[trigger] sorted_enumeration(ks, m) && r2.len() == ks.len() && (forall|i: int|
            0 <= i < ks.len() ==> station_matches(r2[i], m[#[trigger] ks[i]]));
    lemma_enumeration_unique(ks1, ks2, m);
    assert forall|i: int| 0 <= i < r1.len() implies (#[trigger] r1[i]).name@ == r2[i].name@
        && r1[i].min == r2[i].min && r1[i].max == r2[i].max && r1[i].mean == r2[i].mean by {
        assert(station_matches(r1[i], m[ks1[i]]));
        assert(station_matches(r2[i], m[ks2[i]]));
    }
}

} // verus!
