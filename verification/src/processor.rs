//! Processing strategies over a whole input buffer, and the station hash
//! they share.

use vstd::prelude::*;

use crate::aggregate::AggMap;
use crate::model::agg_observe;
use crate::model::agg_rows;
use crate::model::buffer_agg;
use crate::model::buffer_ok;
use crate::model::find_first;
use crate::model::hash_name;
use crate::model::lemma_find_first;
use crate::model::lemma_agg_rows_push;
use crate::model::lemma_temp_no_semi;
use crate::model::lemma_temp_value_in_range;
use crate::model::name_of;
use crate::model::parsed_rows;
use crate::model::raw_rows;
use crate::model::row_model_of;
use crate::model::row_ok;
use crate::model::row_well_formed;
use crate::model::sep_of;
use crate::model::temp_bytes_of;
use crate::model::temp_value;
use crate::model::temp_value_of;
use crate::model::NEWLINE_CODE;
use crate::model::SEMICOLON_CODE;
use crate::parser::parse_temp_slice;
use crate::parser::ParserError;
use crate::search::find_byte_naive;
use crate::search::lemma_found_find_first;
use crate::stats::finalize;
use crate::stats::results_match;
use crate::stats::Station;

verus! {

/// The additive station hash over a whole name slice.
pub fn hash_station_name(s: &[u8]) -> (r: u64)
    ensures
        r == hash_name(s@),
{
    let n: usize = s.len();
    let mut result: u64 = 23;
    let mut i: usize = 0;
    while i < n
        invariant
            i <= n,
            n == s@.len(),
            result == hash_name(s@.take(i as int)),
        decreases n - i,
    {
        proof {
            assert(s@.take(i + 1).drop_last() =~= s@.take(i as int));
            assert(s@.take(i + 1).last() == s@[i as int]);
        }
        let m: u64 = 23 * (s[i] as u64);
        result = result.wrapping_add(m);
        i = i + 1;
    }
    proof {
        assert(s@.take(n as int) =~= s@);
    }
    result
}

/// One row's bytes, terminator excluded, folded into a shard map.  A row
/// without a delimiter, or with an invalid temperature, is refused and the
/// map is left as it was.
pub fn observe_row(map: &mut AggMap, row: &[u8]) -> (r: Result<(), ParserError>)
    requires
        old(map).wf(),
        old(map).spec_rows() < u64::MAX,
    ensures
        final(map).wf(),
        r is Ok <==> row_ok(row@),
        r is Ok ==> final(map).model() == agg_observe(
            old(map).model(),
            name_of(row@),
            temp_value_of(temp_bytes_of(row@)),
        ) && final(map).spec_rows() == old(map).spec_rows() + 1,
        r is Err ==> *final(map) == *old(map),
{
    match crate::parser::parse_record(row) {
        Ok(pair) => {
            let (semi, t) = pair;
            let name = &row[0..semi];
            proof {
                assert(name@ =~= row@.take(semi as int));
                assert(name_of(row@) == name@);
            }
            map.observe(name, t);
            Ok(())
        },
        Err(e) => Err(e),
    }
}

/// Every complete row of the buffer folded into a shard map, first to last;
/// a trailing unterminated record is dropped.  The first malformed row stops
/// the run with its error, exactly when the buffer does not parse.
pub fn aggregate_buffer(buf: &[u8], map: &mut AggMap) -> (r: Result<(), ParserError>)
    requires
        old(map).wf(),
        old(map).spec_rows() + buf@.len() <= u64::MAX,
    ensures
        final(map).wf(),
        r is Ok <==> buffer_ok(buf@),
        r is Ok ==> final(map).model() == agg_rows(old(map).model(), parsed_rows(buf@)),
        final(map).spec_rows() <= old(map).spec_rows() + buf@.len(),
{
    let n: usize = buf.len();
    let mut offset: usize = 0;
    let ghost all = parsed_rows(buf@);
    let ghost mut done: int = 0;
    proof {
        assert(buf@.skip(0) =~= buf@);
        assert(raw_rows(buf@).skip(0) =~= raw_rows(buf@));
        assert(all.take(0) =~= Seq::<crate::model::RowModel>::empty());
    }
    loop
        invariant
            offset <= n,
            n == buf@.len(),
            old(map).spec_rows() + n <= u64::MAX,
            map.wf(),
            0 <= done <= all.len(),
            all == parsed_rows(buf@),
            raw_rows(buf@.skip(offset as int)) == raw_rows(buf@).skip(done),
            map.model() == agg_rows(old(map).model(), all.take(done)),
            forall|t: int| 0 <= t < done ==> row_ok(#[trigger] raw_rows(buf@)[t]),
            map.spec_rows() <= old(map).spec_rows() + offset,
        ensures
            done == all.len(),
            map.wf(),
            map.model() == agg_rows(old(map).model(), all.take(done)),
            forall|t: int| 0 <= t < done ==> row_ok(#[trigger] raw_rows(buf@)[t]),
            map.spec_rows() <= old(map).spec_rows() + offset,
            offset <= n,
        decreases n - offset,
    {
        let ghost suffix = buf@.skip(offset as int);
        let found = find_byte_naive(buf, offset, NEWLINE_CODE);
        proof {
            lemma_found_find_first(buf@, offset as int, NEWLINE_CODE, found);
        }
        match found {
            None => {
                proof {
                    assert(raw_rows(suffix) =~= Seq::<Seq<u8>>::empty());
                    assert(raw_rows(buf@).skip(done).len() == 0);
                    assert(done == all.len());
                }
                break ;
            },
            Some(nl) => {
                assert(nl < n);
                let ghost nlr = nl - offset;
                let ghost row = suffix.take(nlr);
                proof {
                    assert(raw_rows(suffix) == seq![suffix.take(nlr)] + raw_rows(
                        suffix.skip(nlr + 1),
                    ));
                    assert(raw_rows(buf@).skip(done)[0] == raw_rows(buf@)[done]);
                    assert(raw_rows(buf@)[done] == row);
                    assert(done < raw_rows(buf@).len());
                    assert(suffix.skip(nlr + 1) =~= buf@.skip(nl + 1));
                    assert(raw_rows(buf@).skip(done).drop_first() =~= raw_rows(buf@).skip(
                        done + 1,
                    ));
                    assert((seq![row] + raw_rows(buf@.skip(nl + 1))).drop_first() =~= raw_rows(
                        buf@.skip(nl + 1),
                    ));
                    assert(raw_rows(buf@.skip(nl + 1)) == raw_rows(buf@).skip(done + 1));
                }
                let row_slice = &buf[offset..nl];
                proof {
                    assert(row_slice@ =~= row);
                    assert(offset <= nl);
                    assert(map.spec_rows() < u64::MAX);
                }
                match observe_row(map, row_slice) {
                    Ok(()) => {
                        proof {
                            assert(row_ok(raw_rows(buf@)[done]));
                            assert(all[done] == row_model_of(row));
                            assert(all.take(done + 1) =~= all.take(done).push(all[done]));
                            lemma_agg_rows_push(old(map).model(), all.take(done), all[done]);
                            done = done + 1;
                        }
                        offset = nl + 1;
                    },
                    Err(e) => {
                        proof {
                            assert(!row_ok(raw_rows(buf@)[done]));
                        }
                        return Err(e);
                    },
                }
            },
        }
    }
    proof {
        assert(all.take(done) =~= all);
        assert(buffer_ok(buf@));
    }
    Ok(())
}

/// What every whole-buffer run promises: success exactly on parseable
/// buffers, and then the sorted per-station results of the buffer's
/// aggregate, every mean between its extremes.
pub open spec fn process_post(buf: Seq<u8>, r: Result<Vec<Station>, ParserError>) -> bool {
    &&& r is Ok <==> buffer_ok(buf)
    &&& match r {
        Ok(stations) => {
            &&& results_match(stations@, buffer_agg(buf))
            &&& forall|i: int|
                0 <= i < stations@.len() ==> stations@[i].min <= (#[trigger] stations@[i]).mean
                    && stations@[i].mean <= stations@[i].max
        },
        Err(_) => true,
    }
}

/// A single-threaded, sequential processor: one shard, one pass.
pub struct SequentialProcessor {}

impl SequentialProcessor {
    /// A fresh sequential processor.
    pub fn new() -> (r: Self) {
        SequentialProcessor {  }
    }

    /// The whole buffer aggregated in one pass and reduced.
    pub fn process(&mut self, buf: &[u8]) -> (r: Result<Vec<Station>, ParserError>)
        ensures
            process_post(buf@, r),
    {
        let n: usize = buf.len();
        let mut map = AggMap::new();
        match aggregate_buffer(buf, &mut map) {
            Ok(()) => {
                proof {
                    assert(map.model() == buffer_agg(buf@));
                }
                Ok(finalize(map.into_entries()))
            },
            Err(e) => Err(e),
        }
    }
}

/// One block of whole rows folded into the shared map.
pub fn process_block(block: &crate::reader::RowBuffer, map: &mut AggMap) -> (r: Result<
    (),
    ParserError,
>)
    requires
        old(map).wf(),
        old(map).spec_rows() + block.buffer@.len() <= u64::MAX,
    ensures
        final(map).wf(),
        r is Ok <==> buffer_ok(block.buffer@),
        r is Ok ==> final(map).model() == agg_rows(old(map).model(), parsed_rows(block.buffer@)),
        final(map).spec_rows() <= old(map).spec_rows() + block.buffer@.len(),
{
    aggregate_buffer(block.buffer.as_slice(), map)
}

/// How many bytes of rows one bulk covers at least.
pub const BULK_SIZE: usize = 67_108_864;

/// The bulk-parallel strategy's core: the source is carved into bulks of
/// whole rows, and each bulk is folded into one shared map; the result
/// equals the single-pass run's.
pub struct ParallelBulkProcessor {}

impl ParallelBulkProcessor {
    /// A fresh bulk processor.
    pub fn new() -> (r: Self) {
        ParallelBulkProcessor {  }
    }

    /// The whole buffer processed bulk by bulk into one map and reduced.
    pub fn process(&mut self, buf: &[u8]) -> (r: Result<Vec<Station>, ParserError>)
        ensures
            process_post(buf@, r),
    {
        let n: usize = buf.len();
        let ghost all = parsed_rows(buf@);
        let mut map = AggMap::new();
        let mut offset: usize = 0;
        let ghost mut done: int = 0;
        proof {
            assert(buf@.skip(0) =~= buf@);
            assert(raw_rows(buf@).skip(0) =~= raw_rows(buf@));
            assert(all.take(0) =~= Seq::<crate::model::RowModel>::empty());
        }
        loop
            invariant
                offset <= n,
                n == buf@.len(),
                map.wf(),
                all == parsed_rows(buf@),
                0 <= done <= all.len(),
                raw_rows(buf@.skip(offset as int)) == raw_rows(buf@).skip(done),
                map.model() == agg_rows(crate::model::agg_empty(), all.take(done)),
                forall|t: int| 0 <= t < done ==> row_ok(#[trigger] raw_rows(buf@)[t]),
                map.spec_rows() <= offset,
            ensures
                done == all.len(),
                map.model() == agg_rows(crate::model::agg_empty(), all.take(done)),
                forall|t: int| 0 <= t < done ==> row_ok(#[trigger] raw_rows(buf@)[t]),
                map.wf(),
            decreases n - offset,
        {
            match crate::reader::next_bulk(buf, offset, BULK_SIZE) {
                Some(pair) => {
                    let (block, end) = pair;
                    let ghost bw = block.buffer@;
                    let ghost cnt = raw_rows(bw).len() as int;
                    proof {
                        assert(raw_rows(buf@).skip(done) == raw_rows(bw) + raw_rows(
                            buf@.skip(end as int),
                        ));
                        assert(done + cnt <= raw_rows(buf@).len());
                        assert forall|t: int| 0 <= t < cnt implies raw_rows(bw)[t] == raw_rows(
                            buf@,
                        )[done + t] by {
                            assert(raw_rows(bw)[t] == (raw_rows(bw) + raw_rows(
                                buf@.skip(end as int),
                            ))[t]);
                            assert(raw_rows(buf@).skip(done)[t] == raw_rows(buf@)[done + t]);
                        }
                        assert(parsed_rows(bw) =~= all.subrange(done, done + cnt));
                        assert((raw_rows(bw) + raw_rows(buf@.skip(end as int))).skip(cnt)
                            =~= raw_rows(buf@.skip(end as int)));
                        assert(raw_rows(buf@).skip(done).skip(cnt) =~= raw_rows(buf@).skip(
                            done + cnt,
                        ));
                        assert(raw_rows(buf@.skip(end as int)) =~= raw_rows(buf@).skip(
                            done + cnt,
                        ));
                        assert(map.spec_rows() + bw.len() <= u64::MAX);
                    }
                    match process_block(&block, &mut map) {
                        Ok(()) => {
                            proof {
                                crate::model::lemma_agg_rows_append(
                                    crate::model::agg_empty(),
                                    all.take(done),
                                    all.subrange(done, done + cnt),
                                );
                                assert(all.take(done) + all.subrange(done, done + cnt)
                                    =~= all.take(done + cnt));
                                assert forall|t: int| 0 <= t < done + cnt implies row_ok(
                                    #[trigger] raw_rows(buf@)[t],
                                ) by {
                                    if done <= t {
                                        assert(row_ok(raw_rows(bw)[t - done]));
                                    }
                                }
                                done = done + cnt;
                            }
                            offset = end;
                        },
                        Err(e) => {
                            proof {
                                let t = choose|t: int|
                                    0 <= t < raw_rows(bw).len() && !row_ok(
                                        #[trigger] raw_rows(bw)[t],
                                    );
                                assert(!row_ok(raw_rows(buf@)[done + t]));
                            }
                            return Err(e);
                        },
                    }
                },
                None => {
                    proof {
                        assert(raw_rows(buf@).skip(done).len() == 0);
                    }
                    break ;
                },
            }
        }
        proof {
            assert(all.take(done) =~= all);
            assert(map.model() == buffer_agg(buf@));
            assert(buffer_ok(buf@));
        }
        Ok(finalize(map.into_entries()))
    }
}

/// How many parsed pairs the work buffer holds before it is drained.
pub const BUFFER_SIZE: usize = 4096;

/// The row a queued `(name, temperature text)` pair denotes.
pub open spec fn pair_model(p: (Seq<u8>, Seq<u8>)) -> crate::model::RowModel {
    crate::model::RowModel { name: p.0, temp: temp_value_of(p.1) }
}

/// A bounded buffer of `(name, temperature text)` pairs, filled by the
/// tokenizer and drained into the shared map in one sweep.
pub struct WorkBuffer {
    queue: Vec<(Vec<u8>, Vec<u8>)>,
    cap: usize,
}

impl Default for WorkBuffer {
    /// An empty buffer with the standard bound.
    fn default() -> (r: Self)
        ensures
            r.pairs().len() == 0,
            r.spec_cap() == BUFFER_SIZE,
    {
        let r = WorkBuffer { queue: Vec::new(), cap: BUFFER_SIZE };
        proof {
            assert(r.pairs() =~= Seq::<(Seq<u8>, Seq<u8>)>::empty());
        }
        r
    }
}

impl WorkBuffer {
    /// The queued pairs, as byte sequences.
    pub closed spec fn pairs(&self) -> Seq<(Seq<u8>, Seq<u8>)> {
        self.queue@.map(|i: int, p: (Vec<u8>, Vec<u8>)| (p.0@, p.1@))
    }

    /// The bound the buffer was made with.
    pub closed spec fn spec_cap(&self) -> int {
        self.cap as int
    }

    /// Whether the buffer has reached its bound.
    pub fn is_full(&self) -> (r: bool)
        ensures
            r == (self.pairs().len() == self.spec_cap()),
    {
        self.queue.len() == self.cap
    }

    /// How many pairs are queued.
    pub fn len(&self) -> (r: usize)
        ensures
            r as int == self.pairs().len(),
    {
        self.queue.len()
    }

    /// One pair queued.
    pub fn push(&mut self, name: Vec<u8>, temperature: Vec<u8>)
        ensures
            final(self).pairs() == old(self).pairs().push((name@, temperature@)),
            final(self).spec_cap() == old(self).spec_cap(),
    {
        let ghost before = self.queue@;
        self.queue.push((name, temperature));
        proof {
            assert(final(self).pairs() =~= old(self).pairs().push((name@, temperature@)));
        }
    }

    /// The queue drained into the map, first pair first; the first pair
    /// whose temperature text does not parse stops the sweep, and the queue
    /// is empty afterwards either way.
    pub fn run(&mut self, map: &mut AggMap) -> (r: Result<(), ParserError>)
        requires
            old(map).wf(),
            old(map).spec_rows() + old(self).pairs().len() <= u64::MAX,
        ensures
            final(self).pairs().len() == 0,
            final(self).spec_cap() == old(self).spec_cap(),
            final(map).wf(),
            r is Ok <==> (forall|j: int|
                0 <= j < old(self).pairs().len() ==> temp_value(
                    (#[trigger] old(self).pairs()[j]).1,
                ) is Some),
            r is Ok ==> final(map).model() == agg_rows(
                old(map).model(),
                old(self).pairs().map(|j: int, p: (Seq<u8>, Seq<u8>)| pair_model(p)),
            ) && final(map).spec_rows() == old(map).spec_rows() + old(self).pairs().len(),
    {
        let ghost ps = self.pairs();
        let ghost models = ps.map(|j: int, p: (Seq<u8>, Seq<u8>)| pair_model(p));
        let total: usize = self.queue.len();
        let mut i: usize = 0;
        proof {
            assert(models.take(0) =~= Seq::<crate::model::RowModel>::empty());
        }
        while i < total
            invariant
                i <= total,
                total as int == ps.len(),
                ps == self.pairs(),
                ps == old(self).pairs(),
                self.spec_cap() == old(self).spec_cap(),
                self.queue@.len() == total,
                models == ps.map(|j: int, p: (Seq<u8>, Seq<u8>)| pair_model(p)),
                map.wf(),
                old(map).spec_rows() + ps.len() <= u64::MAX,
                map.spec_rows() == old(map).spec_rows() + i,
                map.model() == agg_rows(old(map).model(), models.take(i as int)),
                forall|j: int| 0 <= j < i ==> temp_value((#[trigger] ps[j]).1) is Some,
            decreases total - i,
        {
            let t = match parse_temp_slice(self.queue[i].1.as_slice()) {
                Some(t) => t,
                None => {
                    proof {
                        assert(temp_value(ps[i as int].1) is None);
                    }
                    self.queue.clear();
                    proof {
                        assert(self.pairs() =~= Seq::<(Seq<u8>, Seq<u8>)>::empty());
                    }
                    return Err(ParserError::new("invalid temperature text"));
                },
            };
            proof {
                crate::model::lemma_temp_value_in_range(ps[i as int].1);
            }
            map.observe(self.queue[i].0.as_slice(), t);
            proof {
                assert(models[i as int] == pair_model(ps[i as int]));
                assert(models.take(i + 1) =~= models.take(i as int).push(models[i as int]));
                lemma_agg_rows_push(old(map).model(), models.take(i as int), models[i as int]);
            }
            i = i + 1;
        }
        proof {
            assert(models.take(total as int) =~= models);
        }
        self.queue.clear();
        proof {
            assert(self.pairs() =~= Seq::<(Seq<u8>, Seq<u8>)>::empty());
        }
        Ok(())
    }
}

/// The batched-fold strategy's core: the tokenizer fills a bounded work
/// buffer with owned `(name, temperature text)` pairs, and each full buffer
/// is drained into one shared map; the result equals the single-pass run's.
pub struct ParallelRayonProcessor {}

impl ParallelRayonProcessor {
    /// A fresh batched-fold processor.
    pub fn new() -> (r: Self) {
        ParallelRayonProcessor {  }
    }

    /// The whole buffer tokenized into batches, each batch drained into one
    /// map, and the map reduced.
    pub fn process(&mut self, buf: &[u8]) -> (r: Result<Vec<Station>, ParserError>)
        ensures
            process_post(buf@, r),
    {
        let n: usize = buf.len();
        let ghost all = parsed_rows(buf@);
        let mut work = WorkBuffer::default();
        let mut map = AggMap::new();
        let mut offset: usize = 0;
        let ghost mut done: int = 0;
        let ghost mut folded: int = 0;
        proof {
            assert(buf@.skip(0) =~= buf@);
            assert(raw_rows(buf@).skip(0) =~= raw_rows(buf@));
            assert(all.take(0) =~= Seq::<crate::model::RowModel>::empty());
            assert(work.pairs().map(|j: int, p: (Seq<u8>, Seq<u8>)| pair_model(p))
                =~= Seq::<crate::model::RowModel>::empty());
            assert(all.subrange(0, 0) =~= Seq::<crate::model::RowModel>::empty());
        }
        loop
            invariant
                offset <= n,
                n == buf@.len(),
                map.wf(),
                all == parsed_rows(buf@),
                0 <= folded <= done <= all.len(),
                done <= offset,
                raw_rows(buf@.skip(offset as int)) == raw_rows(buf@).skip(done),
                map.model() == agg_rows(crate::model::agg_empty(), all.take(folded)),
                map.spec_rows() == folded,
                work.pairs().len() == done - folded,
                work.pairs().map(|j: int, p: (Seq<u8>, Seq<u8>)| pair_model(p)) == all.subrange(
                    folded,
                    done,
                ),
                forall|j: int|
                    0 <= j < work.pairs().len() ==> (#[trigger] work.pairs()[j]).1
                        == temp_bytes_of(raw_rows(buf@)[folded + j]) && find_first(
                        raw_rows(buf@)[folded + j],
                        SEMICOLON_CODE,
                    ) is Some,
                forall|t: int| 0 <= t < folded ==> row_ok(#[trigger] raw_rows(buf@)[t]),
            ensures
                done == all.len(),
                map.wf(),
                map.model() == agg_rows(crate::model::agg_empty(), all.take(folded)),
                map.spec_rows() == folded,
                work.pairs().len() == done - folded,
                work.pairs().map(|j: int, p: (Seq<u8>, Seq<u8>)| pair_model(p)) == all.subrange(
                    folded,
                    done,
                ),
                forall|j: int|
                    0 <= j < work.pairs().len() ==> (#[trigger] work.pairs()[j]).1
                        == temp_bytes_of(raw_rows(buf@)[folded + j]) && find_first(
                        raw_rows(buf@)[folded + j],
                        SEMICOLON_CODE,
                    ) is Some,
                forall|t: int| 0 <= t < folded ==> row_ok(#[trigger] raw_rows(buf@)[t]),
            decreases n - offset,
        {
            let ghost suffix = buf@.skip(offset as int);
            let found = find_byte_naive(buf, offset, NEWLINE_CODE);
            proof {
                lemma_found_find_first(buf@, offset as int, NEWLINE_CODE, found);
            }
            let nl = match found {
                Some(nl) => nl,
                None => {
                    proof {
                        assert(raw_rows(suffix) =~= Seq::<Seq<u8>>::empty());
                        assert(raw_rows(buf@).skip(done).len() == 0);
                    }
                    break ;
                },
            };
            assert(nl < n);
            let ghost nlr = nl - offset;
            let ghost row = suffix.take(nlr);
            proof {
                assert(raw_rows(suffix) == seq![suffix.take(nlr)] + raw_rows(suffix.skip(nlr + 1)));
                assert(raw_rows(buf@).skip(done)[0] == raw_rows(buf@)[done]);
                assert(raw_rows(buf@)[done] == row);
                assert(done < raw_rows(buf@).len());
                assert(suffix.skip(nlr + 1) =~= buf@.skip(nl + 1));
                assert(raw_rows(buf@).skip(done).drop_first() =~= raw_rows(buf@).skip(done + 1));
                assert((seq![row] + raw_rows(buf@.skip(nl + 1))).drop_first() =~= raw_rows(
                    buf@.skip(nl + 1),
                ));
                assert(raw_rows(buf@.skip(nl + 1)) == raw_rows(buf@).skip(done + 1));
            }
            let semi_found = find_byte_naive(buf, offset, SEMICOLON_CODE);
            proof {
                lemma_found_find_first(buf@, offset as int, SEMICOLON_CODE, semi_found);
            }
            let semi = match semi_found {
                Some(semi) if semi < nl => semi,
                _ => {
                    proof {
                        match find_first(row, SEMICOLON_CODE) {
                            Some(s) => {
                                crate::model::lemma_find_first(row, SEMICOLON_CODE);
                                assert(suffix[s] == SEMICOLON_CODE);
                                assert(buf@[offset + s] == SEMICOLON_CODE);
                                assert(false);
                            },
                            None => {},
                        }
                        assert(!row_well_formed(row));
                        assert(!row_ok(raw_rows(buf@)[done]));
                        assert(!buffer_ok(buf@));
                    }
                    return Err(ParserError::new("row without a field delimiter"));
                },
            };
            proof {
                assert(suffix[semi - offset] == SEMICOLON_CODE);
                assert(forall|t: int| 0 <= t < semi - offset ==> row[t] == buf@[offset + t]);
                crate::model::lemma_find_first_unique(row, SEMICOLON_CODE, semi - offset);
                assert(sep_of(row) == semi - offset);
            }
            let name_vec = vstd::slice::slice_to_vec(&buf[offset..semi]);
            let text_vec = vstd::slice::slice_to_vec(&buf[semi + 1..nl]);
            proof {
                assert(name_vec@ =~= name_of(row));
                assert(text_vec@ =~= temp_bytes_of(row));
            }
            let ghost prev_pairs = work.pairs();
            work.push(name_vec, text_vec);
            proof {
                done = done + 1;
                assert(work.pairs().map(|j: int, p: (Seq<u8>, Seq<u8>)| pair_model(p))
                    =~= all.subrange(folded, done));
            }
            offset = nl + 1;
            if work.is_full() {
                let ghost queued = work.pairs();
                match work.run(&mut map) {
                    Ok(()) => {
                        proof {
                            crate::model::lemma_agg_rows_append(
                                crate::model::agg_empty(),
                                all.take(folded),
                                all.subrange(folded, done),
                            );
                            assert(all.take(folded) + all.subrange(folded, done) =~= all.take(
                                done,
                            ));
                            assert forall|t: int| 0 <= t < done implies row_ok(
                                #[trigger] raw_rows(buf@)[t],
                            ) by {
                                if folded <= t {
                                    let j = t - folded;
                                    assert(temp_value(queued[j].1) is Some);
                                    crate::model::lemma_temp_no_semi(queued[j].1);
                                    assert(row_well_formed(raw_rows(buf@)[t]));
                                }
                            }
                            folded = done;
                            assert(work.pairs().map(|j: int, p: (Seq<u8>, Seq<u8>)| pair_model(p))
                                =~= all.subrange(folded, done));
                        }
                    },
                    Err(e) => {
                        proof {
                            let j = choose|j: int|
                                0 <= j < queued.len() && !(temp_value(
                                    (#[trigger] queued[j]).1,
                                ) is Some);
                            assert(!row_ok(raw_rows(buf@)[folded + j]));
                            assert(!buffer_ok(buf@));
                        }
                        return Err(e);
                    },
                }
            }
        }
        if work.len() > 0 {
            let ghost queued = work.pairs();
            match work.run(&mut map) {
                Ok(()) => {
                    proof {
                        crate::model::lemma_agg_rows_append(
                            crate::model::agg_empty(),
                            all.take(folded),
                            all.subrange(folded, done),
                        );
                        assert(all.take(folded) + all.subrange(folded, done) =~= all.take(done));
                        assert forall|t: int| 0 <= t < done implies row_ok(
                            #[trigger] raw_rows(buf@)[t],
                        ) by {
                            if folded <= t {
                                let j = t - folded;
                                assert(temp_value(queued[j].1) is Some);
                                crate::model::lemma_temp_no_semi(queued[j].1);
                                assert(row_well_formed(raw_rows(buf@)[t]));
                            }
                        }
                        folded = done;
                    }
                },
                Err(e) => {
                    proof {
                        let j = choose|j: int|
                            0 <= j < queued.len() && !(temp_value((#[trigger] queued[j]).1) is Some);
                        assert(!row_ok(raw_rows(buf@)[folded + j]));
                        assert(!buffer_ok(buf@));
                    }
                    return Err(e);
                },
            }
        }
        proof {
            assert(folded == done);
            assert(all.take(done) =~= all);
            assert(map.model() == buffer_agg(buf@));
            assert(buffer_ok(buf@));
        }
        Ok(finalize(map.into_entries()))
    }
}

/// A processor that reads every row and reports nothing; a baseline.
pub struct NoopProcessor {}

impl NoopProcessor {
    /// A fresh baseline processor.
    pub fn new() -> (r: Self) {
        NoopProcessor {  }
    }

    /// Walks the rows and returns no results.
    pub fn process(&mut self, buf: &[u8]) -> (r: Vec<Station>)
        ensures
            r@.len() == 0,
    {
        let n: usize = buf.len();
        let mut offset: usize = 0;
        loop
            invariant
                offset <= n,
                n == buf@.len(),
            decreases n - offset,
        {
            match crate::parser::seek_row_naive(buf, offset) {
                Some(count) => {
                    proof {
                        crate::model::lemma_find_first(
                            buf@.skip(offset as int),
                            NEWLINE_CODE,
                        );
                    }
                    offset = offset + count;
                },
                None => {
                    break ;
                },
            }
        }
        Vec::new()
    }
}

} // verus!
