//! Carving the byte source into bulks of whole rows: each bulk ends on a
//! row boundary, so no record is ever split or lost between bulks.

use vstd::prelude::*;

use crate::model::lemma_raw_rows_concat;
use crate::model::raw_rows;
use crate::model::NEWLINE_CODE;
use crate::parser::seek_row_vectorized;

verus! {

/// A block of whole rows copied out of the byte source, with how many rows
/// it holds.
pub struct RowBuffer {
    pub count: usize,
    pub buffer: Vec<u8>,
}

impl RowBuffer {
    /// A block holding a copy of `buf`, declared to hold `count` rows.
    pub fn new(count: usize, buf: &[u8]) -> (r: Self)
        ensures
            r.count == count,
            r.buffer@ == buf@,
    {
        RowBuffer { count, buffer: vstd::slice::slice_to_vec(buf) }
    }
}

/// The next bulk of whole rows from `offset`: rows are taken until at least
/// `bulk` bytes are covered or none remain.  The bulk always ends right
/// after a terminator, so the remaining suffix starts on a row boundary and
/// no row is split; with no complete row left, nothing is returned and the
/// trailing unterminated bytes are dropped.
pub fn next_bulk(buf: &[u8], offset: usize, bulk: usize) -> (r: Option<(RowBuffer, usize)>)
    requires
        offset <= buf@.len(),
    ensures
        match r {
            Some(pair) => {
                &&& offset < pair.1 <= buf@.len()
                &&& pair.0.buffer@ == buf@.subrange(offset as int, pair.1 as int)
                &&& pair.0.count == raw_rows(pair.0.buffer@).len()
                &&& pair.0.count >= 1
                &&& raw_rows(buf@.skip(offset as int)) == raw_rows(pair.0.buffer@) + raw_rows(
                    buf@.skip(pair.1 as int),
                )
            },
            None => raw_rows(buf@.skip(offset as int)).len() == 0,
        },
{
    let n: usize = buf.len();
    let mut cur: usize = offset;
    let mut rows: usize = 0;
    proof {
        assert(raw_rows(buf@.skip(offset as int)).skip(0) =~= raw_rows(buf@.skip(offset as int)));
    }
    loop
        invariant
            offset <= cur <= n,
            n == buf@.len(),
            rows <= cur - offset,
            rows <= raw_rows(buf@.skip(offset as int)).len(),
            raw_rows(buf@.skip(offset as int)).skip(rows as int) == raw_rows(
                buf@.skip(cur as int),
            ),
            rows >= 1 ==> cur > offset && buf@[cur - 1] == NEWLINE_CODE,
            rows == 0 ==> cur == offset,
        ensures
            offset <= cur <= n,
            rows <= raw_rows(buf@.skip(offset as int)).len(),
            raw_rows(buf@.skip(offset as int)).skip(rows as int) == raw_rows(
                buf@.skip(cur as int),
            ),
            rows >= 1 ==> cur > offset && buf@[cur - 1] == NEWLINE_CODE,
            rows == 0 ==> raw_rows(buf@.skip(offset as int)).len() == 0,
        decreases n - cur,
    {
        let ghost suffix = buf@.skip(cur as int);
        match seek_row_vectorized(buf, cur) {
            Some(count) => {
                proof {
                    crate::model::lemma_find_first(suffix, NEWLINE_CODE);
                    let nlr = count - 1;
                    assert(suffix[nlr] == NEWLINE_CODE);
                    assert(buf@[cur + nlr] == NEWLINE_CODE);
                    assert(raw_rows(suffix) == seq![suffix.take(nlr)] + raw_rows(
                        suffix.skip(nlr + 1),
                    ));
                    assert(suffix.skip(nlr + 1) =~= buf@.skip(cur + count));
                    assert(raw_rows(buf@.skip(offset as int)).skip(rows as int).drop_first()
                        =~= raw_rows(buf@.skip(offset as int)).skip(rows + 1));
                    assert((seq![suffix.take(nlr)] + raw_rows(buf@.skip(
                        cur + count,
                    ))).drop_first() =~= raw_rows(buf@.skip(cur + count)));
                }
                cur = cur + count;
                rows = rows + 1;
                if cur - offset >= bulk {
                    break ;
                }
            },
            None => {
                proof {
                    crate::model::lemma_find_first(suffix, NEWLINE_CODE);
                    assert(raw_rows(suffix) =~= Seq::<Seq<u8>>::empty());
                    if rows == 0 {
                        assert(raw_rows(buf@.skip(offset as int)).len() == 0);
                    }
                }
                break ;
            },
        }
    }
    if rows == 0 {
        return None;
    }
    let chunk = &buf[offset..cur];
    let result = RowBuffer::new(rows, chunk);
    proof {
        let a = buf@.subrange(offset as int, cur as int);
        let b = buf@.skip(cur as int);
        assert(a.last() == buf@[cur - 1]);
        lemma_raw_rows_concat(a, b);
        assert(buf@.skip(offset as int) =~= a + b);
        assert(raw_rows(buf@.skip(offset as int)) == raw_rows(a) + raw_rows(b));
        assert(raw_rows(a).len() + raw_rows(b).len() == raw_rows(buf@.skip(offset as int)).len());
        assert(raw_rows(buf@.skip(offset as int)).skip(rows as int).len() == raw_rows(b).len());
        assert(raw_rows(a).len() == rows);
    }
    Some((result, cur))
}

} // verus!
