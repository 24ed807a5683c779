//! The engine around zero-copy row views: cursor reads over a shared byte
//! range, a hash key computed once per row, and the two strategies that
//! drive aggregation over located rows.

use vstd::prelude::*;

use crate::aggregate::AggMap;
use crate::model::agg_rows;
use crate::model::agg_empty;
use crate::model::buffer_agg;
use crate::model::buffer_ok;
use crate::model::find_first;
use crate::model::hash_name;
use crate::model::lemma_agg_rows_merge;
use crate::model::lemma_find_first;
use crate::model::lemma_find_first_unique;
use crate::model::name_of;
use crate::model::parsed_rows;
use crate::model::raw_rows;
use crate::model::row_model_of;
use crate::model::row_ok;
use crate::model::temp_bytes_of;
use crate::model::temp_value;
use crate::model::temp_value_of;
use crate::model::RowModel;
use crate::model::NEWLINE_CODE;
use crate::model::SEMICOLON_CODE;
use crate::parser::parse_temp_slice;
use crate::parser::ParserError;
use crate::processor::observe_row;
use crate::processor::process_post;
use crate::processor::aggregate_buffer;
use crate::search::find_byte_vectorized;
use crate::search::lemma_found_find_first;
use crate::stats::finalize;
use crate::stats::Station;
use crate::text::bytes_to_string;
use crate::text::lossy_decode;

verus! {

/// The additive station hash, stopping at the field delimiter: a row view
/// can be keyed without first splitting it.
pub fn hash_station_name(s: &[u8]) -> (r: u64)
    ensures
        r == hash_name(name_of(s@)),
{
    let n: usize = s.len();
    let mut result: u64 = 23;
    let mut i: usize = 0;
    while i < n
        invariant
            i <= n,
            n == s@.len(),
            result == hash_name(s@.take(i as int)),
            forall|j: int| 0 <= j < i ==> s@[j] != SEMICOLON_CODE,
        decreases n - i,
    {
        if s[i] == SEMICOLON_CODE {
            proof {
                lemma_find_first_unique(s@, SEMICOLON_CODE, i as int);
            }
            return result;
        }
        proof {
            assert(s@.take(i + 1).drop_last() =~= s@.take(i as int));
            assert(s@.take(i + 1).last() == s@[i as int]);
        }
        let m: u64 = 23 * (s[i] as u64);
        result = result.wrapping_add(m);
        i = i + 1;
    }
    proof {
        crate::model::lemma_find_first_absent(s@, SEMICOLON_CODE);
        assert(s@.take(n as int) =~= s@);
    }
    result
}

/// A zero-copy reference to one record's bytes within the shared byte
/// source, terminator excluded.
pub struct RowView<'a> {
    pub start: usize,
    pub length: usize,
    pub view: &'a [u8],
}

impl<'a> RowView<'a> {
    /// The bytes this view covers.
    pub open spec fn bytes(&self) -> Seq<u8> {
        self.view@
    }

    /// A view of `view`, recorded as starting at `start` in the source.
    pub fn new(view: &'a [u8], start: usize, length: usize) -> (r: Self)
        ensures
            r.bytes() == view@,
            r.start == start,
            r.length == length,
    {
        RowView { view, start, length }
    }

    /// The hash key of this row's station.
    pub fn key(&self) -> (r: u64)
        ensures
            r == hash_name(name_of(self.bytes())),
    {
        hash_station_name(self.view)
    }

    /// The station name of this row, decoded.  A view without a delimiter
    /// has no name; such a view is left out here and refused by the
    /// processors.
    pub fn name(&self) -> (r: String)
        requires
            find_first(self.bytes(), SEMICOLON_CODE) is Some,
        ensures
            r@ == lossy_decode(name_of(self.bytes())),
    {
        let found = find_byte_vectorized(self.view, 0, SEMICOLON_CODE);
        proof {
            assert(self.view@.skip(0) =~= self.view@);
            lemma_found_find_first(self.view@, 0, SEMICOLON_CODE, found);
        }
        let delimiter = match found {
            Some(d) => d,
            None => {
                proof {
                    assert(false);
                }
                0
            },
        };
        let name = bytes_to_string(&self.view[0..delimiter]);
        proof {
            assert(self.view@.subrange(0, delimiter as int) =~= name_of(self.bytes()));
        }
        name
    }

    /// The reading of this row, in tenths.  A view whose temperature text
    /// does not parse is left out here and refused by the processors.
    pub fn value(&self) -> (r: i64)
        requires
            find_first(self.bytes(), SEMICOLON_CODE) is Some,
            temp_value(temp_bytes_of(self.bytes())) is Some,
        ensures
            r as int == temp_value_of(temp_bytes_of(self.bytes())),
    {
        let n: usize = self.view.len();
        let found = find_byte_vectorized(self.view, 0, SEMICOLON_CODE);
        proof {
            assert(self.view@.skip(0) =~= self.view@);
            lemma_found_find_first(self.view@, 0, SEMICOLON_CODE, found);
        }
        let delimiter = match found {
            Some(d) => d,
            None => {
                proof {
                    assert(false);
                }
                0
            },
        };
        let tail = &self.view[delimiter + 1..n];
        proof {
            assert(tail@ =~= temp_bytes_of(self.bytes()));
        }
        match parse_temp_slice(tail) {
            Some(v) => v,
            None => {
                proof {
                    assert(false);
                }
                0
            },
        }
    }
}

/// The next row from the cursor, as a view without its terminator; the
/// cursor moves past the terminator.  With no terminator left the cursor
/// stays put and nothing is returned.
pub fn read_row<'a>(buf: &'a [u8], offset: &mut usize) -> (r: Option<RowView<'a>>)
    requires
        *old(offset) <= buf@.len(),
    ensures
        ({
            let suffix = buf@.skip(*old(offset) as int);
            match find_first(suffix, NEWLINE_CODE) {
                Some(nl) => {
                    &&& *final(offset) == *old(offset) + nl + 1
                    &&& match r {
                        Some(view) => view.bytes() == suffix.take(nl) && view.start == *old(
                            offset,
                        ) && view.length == nl,
                        None => false,
                    }
                },
                None => {
                    &&& *final(offset) == *old(offset)
                    &&& r is None
                },
            }
        }),
{
    let n: usize = buf.len();
    let found = find_byte_vectorized(buf, *offset, NEWLINE_CODE);
    proof {
        lemma_found_find_first(buf@, *offset as int, NEWLINE_CODE, found);
    }
    match found {
        Some(nl) => {
            assert(nl < n);
            let start = *offset;
            let size = nl - start;
            let result = RowView::new(&buf[start..nl], start, size);
            proof {
                assert(buf@.subrange(start as int, nl as int) =~= buf@.skip(start as int).take(
                    size as int,
                ));
            }
            *offset = nl + 1;
            Some(result)
        },
        None => None,
    }
}

/// The row view over an explicit byte range of the source, for a worker
/// resolving a row located by another thread.
pub fn read_range<'a>(buf: &'a [u8], start: usize, length: usize) -> (r: Option<RowView<'a>>)
    requires
        start + length <= buf@.len(),
    ensures
        match r {
            Some(view) => view.bytes() == buf@.subrange(start as int, start + length)
                && view.start == start && view.length == length,
            None => false,
        },
{
    let n: usize = buf.len();
    assert(start + length <= n);
    Some(RowView::new(&buf[start..start + length], start, length))
}

/// The row that a located `(start, length)` range covers.
pub open spec fn range_row(buf: Seq<u8>, rg: (usize, usize)) -> Seq<u8> {
    buf.subrange(rg.0 as int, rg.0 + rg.1)
}

/// The parsed rows that a run of located ranges covers.
pub open spec fn range_models(buf: Seq<u8>, rgs: Seq<(usize, usize)>) -> Seq<RowModel> {
    rgs.map(|i: int, rg: (usize, usize)| row_model_of(range_row(buf, rg)))
}

/// Every complete row of the buffer located as a `(start, length)` range,
/// terminator excluded, in order.
pub fn locate_rows(buf: &[u8]) -> (r: Vec<(usize, usize)>)
    ensures
        r@.len() == raw_rows(buf@).len(),
        forall|i: int|
            0 <= i < r@.len() ==> (#[trigger] r@[i]).0 + r@[i].1 < buf@.len() && range_row(
                buf@,
                r@[i],
            ) == raw_rows(buf@)[i],
{
    let n: usize = buf.len();
    let mut offset: usize = 0;
    let mut out: Vec<(usize, usize)> = Vec::new();
    proof {
        assert(buf@.skip(0) =~= buf@);
        assert(raw_rows(buf@).skip(0) =~= raw_rows(buf@));
    }
    loop
        invariant
            offset <= n,
            n == buf@.len(),
            out@.len() <= raw_rows(buf@).len(),
            raw_rows(buf@.skip(offset as int)) == raw_rows(buf@).skip(out@.len() as int),
            forall|i: int|
                0 <= i < out@.len() ==> (#[trigger] out@[i]).0 + out@[i].1 < buf@.len()
                    && range_row(buf@, out@[i]) == raw_rows(buf@)[i],
        ensures
            out@.len() == raw_rows(buf@).len(),
            forall|i: int|
                0 <= i < out@.len() ==> (#[trigger] out@[i]).0 + out@[i].1 < buf@.len()
                    && range_row(buf@, out@[i]) == raw_rows(buf@)[i],
        decreases n - offset,
    {
        let ghost suffix = buf@.skip(offset as int);
        let ghost done = out@.len() as int;
        match read_row(buf, &mut offset) {
            Some(view) => {
                proof {
                    lemma_find_first(suffix, NEWLINE_CODE);
                    let nlr = offset - view.start;
                    assert(raw_rows(suffix) == seq![suffix.take(nlr - 1)] + raw_rows(
                        suffix.skip(nlr),
                    ));
                    assert(raw_rows(buf@).skip(done)[0] == raw_rows(buf@)[done]);
                    assert(done < raw_rows(buf@).len());
                    assert(suffix.skip(nlr) =~= buf@.skip(offset as int));
                    assert(raw_rows(buf@).skip(done).drop_first() =~= raw_rows(buf@).skip(
                        done + 1,
                    ));
                    assert((seq![suffix.take(nlr - 1)] + raw_rows(buf@.skip(
                        offset as int,
                    ))).drop_first() =~= raw_rows(buf@.skip(offset as int)));
                    assert(range_row(buf@, (view.start, view.length)) =~= suffix.take(nlr - 1));
                }
                out.push((view.start, view.length));
            },
            None => {
                proof {
                    assert(raw_rows(suffix) =~= Seq::<Seq<u8>>::empty());
                    assert(raw_rows(buf@).skip(done).len() == 0);
                }
                break ;
            },
        }
    }
    out
}

/// A run of located rows folded into a shard map, first to last.  The first
/// row that does not parse stops the shard with its error.
pub fn aggregate_ranges(
    buf: &[u8],
    ranges: &Vec<(usize, usize)>,
    lo: usize,
    hi: usize,
    map: &mut AggMap,
) -> (r: Result<(), ParserError>)
    requires
        lo <= hi <= ranges@.len(),
        forall|j: int| lo <= j < hi ==> (#[trigger] ranges@[j]).0 + ranges@[j].1 <= buf@.len(),
        old(map).wf(),
        old(map).spec_rows() + (hi - lo) <= u64::MAX,
    ensures
        final(map).wf(),
        r is Ok <==> (forall|j: int| lo <= j < hi ==> row_ok(range_row(buf@, #[trigger] ranges@[j]))),
        r is Ok ==> final(map).model() == agg_rows(
            old(map).model(),
            range_models(buf@, ranges@.subrange(lo as int, hi as int)),
        ) && final(map).spec_rows() == old(map).spec_rows() + (hi - lo),
{
    let n: usize = buf.len();
    let ghost chunk = ranges@.subrange(lo as int, hi as int);
    let ghost models = range_models(buf@, chunk);
    let mut j: usize = lo;
    proof {
        assert(models.take(0) =~= Seq::<RowModel>::empty());
    }
    while j < hi
        invariant
            n == buf@.len(),
            lo <= j <= hi <= ranges@.len(),
            forall|t: int| lo <= t < hi ==> (#[trigger] ranges@[t]).0 + ranges@[t].1 <= buf@.len(),
            chunk == ranges@.subrange(lo as int, hi as int),
            models == range_models(buf@, chunk),
            map.wf(),
            old(map).spec_rows() + (hi - lo) <= u64::MAX,
            map.spec_rows() == old(map).spec_rows() + (j - lo),
            map.model() == agg_rows(old(map).model(), models.take(j - lo)),
            forall|t: int| lo <= t < j ==> row_ok(range_row(buf@, #[trigger] ranges@[t])),
        decreases hi - j,
    {
        let rg = ranges[j];
        assert(rg.0 + rg.1 <= n);
        let row_slice = &buf[rg.0..rg.0 + rg.1];
        proof {
            assert(row_slice@ =~= range_row(buf@, ranges@[j as int]));
            assert(chunk[j - lo] == ranges@[j as int]);
            assert(models[j - lo] == row_model_of(range_row(buf@, ranges@[j as int])));
        }
        match observe_row(map, row_slice) {
            Ok(()) => {
                proof {
                    assert(models.take(j - lo + 1) =~= models.take(j - lo).push(models[j - lo]));
                    crate::model::lemma_agg_rows_push(
                        old(map).model(),
                        models.take(j - lo),
                        models[j - lo],
                    );
                }
            },
            Err(e) => {
                proof {
                    assert(!row_ok(range_row(buf@, ranges@[j as int])));
                }
                return Err(e);
            },
        }
        j = j + 1;
    }
    proof {
        assert(models.take(hi - lo) =~= models);
    }
    Ok(())
}

/// One shard's aggregates folded into the destination map.
pub fn feed(src: AggMap, dst: &mut AggMap)
    requires
        src.wf(),
        old(dst).wf(),
        old(dst).spec_rows() + src.spec_rows() <= u64::MAX,
    ensures
        final(dst).wf(),
        final(dst).model() =~= crate::model::merge_maps(old(dst).model(), src.model()),
        final(dst).spec_rows() == old(dst).spec_rows() + src.spec_rows(),
{
    dst.absorb(src);
}

/// The single-threaded strategy: one pass, one shard, one reduction.
pub struct Sequential {}

impl Sequential {
    /// A fresh sequential strategy.
    pub fn new() -> (r: Self) {
        Sequential {  }
    }

    /// The whole buffer aggregated in one shard and reduced.
    pub fn process(&mut self, buf: &[u8]) -> (r: Result<Vec<Station>, ParserError>)
        ensures
            process_post(buf@, r),
    {
        let n: usize = buf.len();
        let mut map = AggMap::new();
        match aggregate_buffer(buf, &mut map) {
            Ok(()) => {
                proof {
                    assert(map.model() == buffer_agg(buf@));
                }
                Ok(finalize(map.into_entries()))
            },
            Err(e) => Err(e),
        }
    }
}

/// How many located rows one batch carries to a worker.
pub const BATCH_SIZE: usize = 4096;

/// The channel-sharded strategy: rows are located once, handed out in
/// fixed-size batches, aggregated into per-batch shard maps, and the shard
/// maps merged; the merged result equals the single-shard run's.
pub struct ParallelChannel {
    pub workers: usize,
}

impl ParallelChannel {
    /// A strategy for a pool of `workers` worker threads.
    pub fn new(workers: usize) -> (r: Self)
        ensures
            r.workers == workers,
    {
        ParallelChannel { workers }
    }

    /// The whole buffer processed batch by batch, each batch into a shard of
    /// its own, all shards merged and reduced.
    pub fn process(&mut self, buf: &[u8]) -> (r: Result<Vec<Station>, ParserError>)
        ensures
            process_post(buf@, r),
    {
        let ranges = locate_rows(buf);
        let ghost all = range_models(buf@, ranges@);
        proof {
            assert(all =~= parsed_rows(buf@));
        }
        let total: usize = ranges.len();
        let mut global = AggMap::new();
        let mut lo: usize = 0;
        proof {
            assert(all.take(0) =~= Seq::<RowModel>::empty());
        }
        while lo < total
            invariant
                lo <= total,
                total == ranges@.len(),
                all == range_models(buf@, ranges@),
                all =~= parsed_rows(buf@),
                raw_rows(buf@).len() == total,
                forall|i: int|
                    0 <= i < ranges@.len() ==> (#[trigger] ranges@[i]).0 + ranges@[i].1
                        < buf@.len() && range_row(buf@, ranges@[i]) == raw_rows(buf@)[i],
                global.wf(),
                global.spec_rows() == lo,
                global.model() == agg_rows(agg_empty(), all.take(lo as int)),
                forall|t: int| 0 <= t < lo ==> row_ok(#[trigger] raw_rows(buf@)[t]),
            decreases total - lo,
        {
            let hi: usize = if total - lo < BATCH_SIZE {
                total
            } else {
                lo + BATCH_SIZE
            };
            let mut shard = AggMap::new();
            match aggregate_ranges(buf, &ranges, lo, hi, &mut shard) {
                Ok(()) => {
                    proof {
                        assert(shard.model() == agg_rows(
                            agg_empty(),
                            range_models(buf@, ranges@.subrange(lo as int, hi as int)),
                        ));
                        assert(range_models(buf@, ranges@.subrange(lo as int, hi as int))
                            =~= all.subrange(lo as int, hi as int));
                        lemma_agg_rows_merge(
                            all.take(lo as int),
                            all.subrange(lo as int, hi as int),
                        );
                        assert(all.take(lo as int) + all.subrange(lo as int, hi as int)
                            =~= all.take(hi as int));
                        assert forall|t: int| 0 <= t < hi implies row_ok(
                            #[trigger] raw_rows(buf@)[t],
                        ) by {
                            if lo <= t {
                                assert(row_ok(range_row(buf@, ranges@[t])));
                            }
                        }
                    }
                    feed(shard, &mut global);
                },
                Err(e) => {
                    proof {
                        let t = choose|t: int|
                            lo <= t < hi && !row_ok(range_row(buf@, #[trigger] ranges@[t]));
                        assert(!row_ok(raw_rows(buf@)[t]));
                        assert(!buffer_ok(buf@));
                    }
                    return Err(e);
                },
            }
            lo = hi;
        }
        proof {
            assert(all.take(total as int) =~= all);
            assert(global.model() == buffer_agg(buf@));
            assert(buffer_ok(buf@));
        }
        Ok(finalize(global.into_entries()))
    }
}

} // verus!
