//! The tokenizer: streaming extraction of station names and temperature
//! values from the raw bytes, and the exact decimal-to-tenths conversion.

pub mod naive;
pub mod vectorized;

use vstd::prelude::*;

use crate::model::all_ascii_digits;
use crate::model::digits_value;
use crate::model::find_first;
use crate::model::is_ascii_digit;
use crate::model::lemma_find_first;
use crate::model::lemma_find_first_absent;
use crate::model::lemma_find_first_unique;
use crate::model::row_well_formed;
use crate::model::sep_of;
use crate::model::temp_value;
use crate::model::temp_value_of;
use crate::model::DOT_CODE;
use crate::model::MAX_ABS_TENTHS;
use crate::model::MINUS_CODE;
use crate::model::NEWLINE_CODE;
use crate::model::SEMICOLON_CODE;
use crate::search::find_byte_naive;
use crate::search::find_byte_vectorized;
use crate::search::lemma_found_find_first;
use crate::text::bytes_to_string;
use crate::text::lossy_decode;

verus! {

/// The error that a failed parse reports; the run aborts on it.
#[derive(Debug)]
pub struct ParserError {
    message: String,
}

impl ParserError {
    /// The message the error carries, as its characters.
    pub closed spec fn message_view(&self) -> Seq<char> {
        self.message@
    }

    /// A parse error carrying the given message.
    pub fn new(msg: &str) -> (r: Self)
        ensures
            r.message_view() == msg@,
    {
        ParserError { message: msg.to_owned() }
    }

    /// The message the error carries.
    pub fn message(&self) -> (r: &str)
        ensures
            r@ == self.message_view(),
    {
        self.message.as_str()
    }
}

/// One parsed record: a station name and its reading in tenths of a degree.
pub struct Row {
    pub station: String,
    pub temperature: i64,
}

impl Row {
    /// A record with the given fields.
    pub fn new(station: String, temperature: i64) -> (r: Self)
        ensures
            r.station == station,
            r.temperature == temperature,
    {
        Row { station, temperature }
    }
}

/// The tenths denoted by a whole temperature text, or `None` when the text
/// is not an optionally signed decimal with at most one fractional digit, or
/// its magnitude is beyond the supported bound.
#[verifier::loop_isolation(false)]
pub fn parse_temp_slice(s: &[u8]) -> (r: Option<i64>)
    ensures
        r is Some <==> temp_value(s@) is Some,
        r matches Some(t) ==> temp_value(s@) == Some(t as int),
{
    let n: usize = s.len();
    let negative = n > 0 && s[0] == MINUS_CODE;
    let start: usize = if negative { 1 } else { 0 };
    let ghost body: Seq<u8> = if negative {
        s@.drop_first()
    } else {
        s@
    };
    proof {
        assert(body =~= s@.subrange(start as int, n as int));
    }
    if n == start {
        return None;
    }
    let has_dot = n >= start + 2 && s[n - 2] == DOT_CODE;
    let digits_end: usize = if has_dot {
        n - 2
    } else {
        n
    };
    let ghost ip: Seq<u8> = if has_dot {
        body.take(body.len() - 2)
    } else {
        body
    };
    proof {
        assert(ip =~= s@.subrange(start as int, digits_end as int));
    }
    if digits_end == start {
        return None;
    }
    let mut acc: i64 = 0;
    let mut too_big = false;
    let mut i: usize = start;
    while i < digits_end
        invariant
            start <= i <= digits_end <= n,
            n == s@.len(),
            start + 1 <= digits_end,
            forall|j: int| start <= j < i ==> is_ascii_digit(#[trigger] s@[j]),
            !too_big ==> 0 <= acc <= MAX_ABS_TENTHS && acc as int == digits_value(
                s@.subrange(start as int, i as int),
            ),
            too_big ==> digits_value(s@.subrange(start as int, i as int)) > MAX_ABS_TENTHS as int,
        decreases digits_end - i,
    {
        let b = s[i];
        if b < 48 || b > 57 {
            proof {
                assert(ip[i - start] == s@[i as int]);
                assert(!all_ascii_digits(ip));
            }
            return None;
        }
        proof {
            assert(s@.subrange(start as int, i + 1).drop_last() =~= s@.subrange(
                start as int,
                i as int,
            ));
            assert(s@.subrange(start as int, i + 1).last() == s@[i as int]);
        }
        if too_big {
        } else if acc >= 100_000_000 {
            too_big = true;
        } else {
            acc = acc * 10 + (b - 48) as i64;
        }
        i = i + 1;
    }
    proof {
        assert(forall|j: int| 0 <= j < ip.len() ==> ip[j] == s@[start + j]);
        assert(all_ascii_digits(ip));
    }
    if has_dot {
        let fb = s[n - 1];
        proof {
            assert(body.last() == s@[n - 1]);
        }
        if fb < 48 || fb > 57 {
            return None;
        }
        if too_big {
            return None;
        }
        let t: i64 = acc * 10 + (fb - 48) as i64;
        if t > MAX_ABS_TENTHS {
            return None;
        }
        if negative {
            Some(-t)
        } else {
            Some(t)
        }
    } else {
        if too_big {
            return None;
        }
        let t: i64 = acc * 10;
        if t > MAX_ABS_TENTHS {
            return None;
        }
        if negative {
            Some(-t)
        } else {
            Some(t)
        }
    }
}

/// One whole record's bytes, terminator excluded, split and parsed: where
/// the name ends, and the reading in tenths.  A record without a delimiter,
/// or with an invalid temperature, is refused with the error the run
/// reports.
pub fn parse_record(row: &[u8]) -> (r: Result<(usize, i64), ParserError>)
    ensures
        r is Ok <==> crate::model::row_ok(row@),
        r matches Ok(pair) ==> pair.0 as int == sep_of(row@) && pair.0 < row@.len()
            && pair.1 as int == temp_value_of(crate::model::temp_bytes_of(row@))
            && crate::model::reading_in_range(pair.1 as int),
{
    let n: usize = row.len();
    let found = find_byte_naive(row, 0, SEMICOLON_CODE);
    proof {
        assert(row@.skip(0) =~= row@);
        lemma_found_find_first(row@, 0, SEMICOLON_CODE, found);
    }
    match found {
        None => Err(ParserError::new("row without a field delimiter")),
        Some(semi) => {
            assert(semi < n);
            let tail = &row[semi + 1..n];
            proof {
                assert(tail@ =~= row@.skip(semi + 1));
                assert(sep_of(row@) == semi as int);
                assert(crate::model::temp_bytes_of(row@) == tail@);
            }
            match parse_temp_slice(tail) {
                None => Err(ParserError::new("invalid temperature text")),
                Some(t) => {
                    proof {
                        crate::model::lemma_temp_value_in_range(tail@);
                        crate::model::lemma_temp_no_semi(tail@);
                        assert(row_well_formed(row@));
                    }
                    Ok((semi, t))
                },
            }
        },
    }
}

/// The station name of the next record: the bytes from the cursor to the
/// next field delimiter, decoded; the cursor moves past the delimiter.  With
/// no delimiter left, the cursor moves to the end and nothing is returned.
pub fn parse_station(buf: &[u8], offset: &mut usize) -> (r: Option<String>)
    requires
        *old(offset) <= buf@.len(),
    ensures
        ({
            let suffix = buf@.skip(*old(offset) as int);
            match find_first(suffix, SEMICOLON_CODE) {
                Some(sep) => {
                    &&& *final(offset) == *old(offset) + sep + 1
                    &&& match r {
                        Some(name) => name@ == lossy_decode(suffix.take(sep)),
                        None => false,
                    }
                },
                None => {
                    &&& *final(offset) == buf@.len()
                    &&& r is None
                },
            }
        }),
{
    let n: usize = buf.len();
    let ghost start = *offset as int;
    let found = find_byte_naive(buf, *offset, SEMICOLON_CODE);
    proof {
        lemma_found_find_first(buf@, start, SEMICOLON_CODE, found);
    }
    match found {
        Some(semi) => {
            assert(semi < n);
            let name = bytes_to_string(&buf[*offset..semi]);
            proof {
                assert(buf@.subrange(start, semi as int) =~= buf@.skip(start).take(
                    semi - start,
                ));
            }
            *offset = semi + 1;
            Some(name)
        },
        None => {
            *offset = n;
            None
        },
    }
}

/// The reading of the next record: the bytes from the cursor to the next
/// record terminator, parsed to tenths; the cursor moves past the
/// terminator.  With no terminator left, the cursor moves to the end and
/// nothing is returned.  Text that is no valid temperature is left out by
/// the precondition: such a record is a fatal parse error, which the callers
/// report before reaching this point.
pub fn parse_temp(buf: &[u8], offset: &mut usize) -> (r: Option<i64>)
    requires
        *old(offset) <= buf@.len(),
        ({
            let suffix = buf@.skip(*old(offset) as int);
            match find_first(suffix, NEWLINE_CODE) {
                Some(nl) => temp_value(suffix.take(nl)) is Some,
                None => true,
            }
        }),
    ensures
        ({
            let suffix = buf@.skip(*old(offset) as int);
            match find_first(suffix, NEWLINE_CODE) {
                Some(nl) => {
                    &&& *final(offset) == *old(offset) + nl + 1
                    &&& match r {
                        Some(t) => t as int == temp_value_of(suffix.take(nl)),
                        None => false,
                    }
                },
                None => {
                    &&& *final(offset) == buf@.len()
                    &&& r is None
                },
            }
        }),
{
    let n: usize = buf.len();
    let ghost start = *offset as int;
    let found = find_byte_naive(buf, *offset, NEWLINE_CODE);
    proof {
        lemma_found_find_first(buf@, start, NEWLINE_CODE, found);
    }
    match found {
        Some(nl) => {
            assert(nl < n);
            let text = &buf[*offset..nl];
            proof {
                assert(buf@.subrange(start, nl as int) =~= buf@.skip(start).take(nl - start));
            }
            let t = parse_temp_slice(text);
            *offset = nl + 1;
            match t {
                Some(v) => Some(v),
                None => None,
            }
        },
        None => {
            *offset = n;
            None
        },
    }
}

/// The next whole record from the cursor: name up to the delimiter, reading
/// up to the terminator.  Nothing is returned once either marker is missing,
/// and the cursor then rests at the end of the buffer.
pub fn parse_row(buf: &[u8], offset: &mut usize) -> (r: Option<Row>)
    requires
        *old(offset) <= buf@.len(),
        ({
            let suffix = buf@.skip(*old(offset) as int);
            match find_first(suffix, SEMICOLON_CODE) {
                Some(sep) => {
                    let rest = suffix.skip(sep + 1);
                    match find_first(rest, NEWLINE_CODE) {
                        Some(nl) => temp_value(rest.take(nl)) is Some,
                        None => true,
                    }
                },
                None => true,
            }
        }),
    ensures
        ({
            let suffix = buf@.skip(*old(offset) as int);
            match find_first(suffix, SEMICOLON_CODE) {
                Some(sep) => {
                    let rest = suffix.skip(sep + 1);
                    match find_first(rest, NEWLINE_CODE) {
                        Some(nl) => {
                            &&& *final(offset) == *old(offset) + sep + 1 + nl + 1
                            &&& match r {
                                Some(row) => row.station@ == lossy_decode(suffix.take(sep))
                                    && row.temperature as int == temp_value_of(rest.take(nl)),
                                None => false,
                            }
                        },
                        None => {
                            &&& *final(offset) == buf@.len()
                            &&& r is None
                        },
                    }
                },
                None => {
                    &&& *final(offset) == buf@.len()
                    &&& r is None
                },
            }
        }),
{
    let ghost start = *offset as int;
    match parse_station(buf, offset) {
        Some(station) => {
            proof {
                let suffix = buf@.skip(start);
                crate::model::lemma_find_first(suffix, SEMICOLON_CODE);
                assert(start <= *offset <= buf@.len());
                assert(forall|j: int|
                    0 <= j < buf@.len() - *offset ==> buf@.skip(*offset as int)[j] == buf@[*offset
                        + j]);
                assert(forall|j: int|
                    0 <= j < buf@.len() - *offset ==> #[trigger] suffix.skip(*offset - start)[j]
                        == buf@[*offset + j]);
                assert(buf@.skip(*offset as int) =~= suffix.skip(*offset - start));
            }
            match parse_temp(buf, offset) {
                Some(t) => Some(Row::new(station, t)),
                None => None,
            }
        },
        None => None,
    }
}

/// The scan functions ask of a complete row only what the input format
/// grants: exactly one field delimiter before the terminator.
pub open spec fn row_scan_pre(buf: Seq<u8>, start: int) -> bool {
    match find_first(buf.skip(start), NEWLINE_CODE) {
        Some(nl) => row_well_formed(buf.skip(start).take(nl)),
        None => true,
    }
}

/// What a row scan reports: the absolute index of the next row's field
/// delimiter and of its terminator, or nothing when no terminator is left.
pub open spec fn row_scan_post(buf: Seq<u8>, start: int, r: Option<(usize, usize)>) -> bool {
    let suffix = buf.skip(start);
    match find_first(suffix, NEWLINE_CODE) {
        Some(nl) => match r {
            Some(bounds) => bounds.0 == start + sep_of(suffix.take(nl)) && bounds.1 == start + nl,
            None => false,
        },
        None => r is None,
    }
}

/// What a row seek reports: how many bytes the next complete row occupies,
/// terminator included, or nothing when no terminator is left.
pub open spec fn seek_post(buf: Seq<u8>, start: int, r: Option<usize>) -> bool {
    match find_first(buf.skip(start), NEWLINE_CODE) {
        Some(nl) => r == Some((nl + 1) as usize),
        None => r is None,
    }
}

/// One contract, two interchangeable scanners: a linear scan and a
/// vectorized one must report identical boundaries for any accepted input.
pub trait RowParser {
    /// The boundaries of the next complete row.
    fn parse_row(buf: &[u8], start: usize) -> (r: Option<(usize, usize)>)
        requires
            start <= buf@.len(),
            row_scan_pre(buf@, start as int),
        ensures
            row_scan_post(buf@, start as int, r),
    ;

    /// The size of the next complete row.
    fn seek_row(buf: &[u8], start: usize) -> (r: Option<usize>)
        requires
            start <= buf@.len(),
        ensures
            seek_post(buf@, start as int, r),
    ;

    /// Every row of a block parsed into records.  The block must end on a
    /// row boundary and parse throughout; a row buffer carved from the
    /// source satisfies the former by construction.
    fn parse_row_buffer(buf: &crate::reader::RowBuffer) -> (r: Vec<Row>)
        requires
            crate::model::buffer_ok(buf.buffer@),
            buf.buffer@.len() == 0 || buf.buffer@.last() == NEWLINE_CODE,
        ensures
            rows_report(r@, buf.buffer@),
    ;
}

/// The parsed records report the buffer's rows, in order.
pub open spec fn rows_report(rs: Seq<Row>, buf: Seq<u8>) -> bool {
    &&& rs.len() == crate::model::parsed_rows(buf).len()
    &&& forall|i: int|
        0 <= i < rs.len() ==> (#[trigger] rs[i]).temperature as int == crate::model::parsed_rows(
            buf,
        )[i].temp && rs[i].station@ == lossy_decode(crate::model::parsed_rows(buf)[i].name)
}

/// The shared walk behind `parse_row_buffer`: rows are scanned with the
/// chosen scanner and parsed one by one.
pub fn parse_rows_in(buf: &crate::reader::RowBuffer, vectorized: bool) -> (r: Vec<Row>)
    requires
        crate::model::buffer_ok(buf.buffer@),
        buf.buffer@.len() == 0 || buf.buffer@.last() == NEWLINE_CODE,
    ensures
        rows_report(r@, buf.buffer@),
{
    let s = buf.buffer.as_slice();
    let n: usize = s.len();
    let ghost all = crate::model::parsed_rows(s@);
    let mut out: Vec<Row> = Vec::new();
    let mut offset: usize = 0;
    proof {
        assert(s@.skip(0) =~= s@);
        assert(crate::model::raw_rows(s@).skip(0) =~= crate::model::raw_rows(s@));
    }
    while offset < n
        invariant
            offset <= n,
            n == s@.len(),
            s@ == buf.buffer@,
            crate::model::buffer_ok(s@),
            s@.len() == 0 || s@.last() == NEWLINE_CODE,
            all == crate::model::parsed_rows(s@),
            out@.len() <= all.len(),
            crate::model::raw_rows(s@.skip(offset as int)) == crate::model::raw_rows(s@).skip(
                out@.len() as int,
            ),
            forall|i: int|
                0 <= i < out@.len() ==> (#[trigger] out@[i]).temperature as int == all[i].temp
                    && out@[i].station@ == lossy_decode(all[i].name),
        decreases n - offset,
    {
        let ghost suffix = s@.skip(offset as int);
        let ghost done = out@.len() as int;
        proof {
            assert(suffix.len() > 0 && suffix.last() == s@.last());
            lemma_find_first(suffix, NEWLINE_CODE);
            match find_first(suffix, NEWLINE_CODE) {
                Some(_) => {},
                None => {
                    assert(suffix[suffix.len() - 1] != NEWLINE_CODE);
                    assert(false);
                },
            }
            assert(crate::model::raw_rows(s@).skip(done).len() > 0) by {
                let nl = match find_first(suffix, NEWLINE_CODE) {
                    Some(nl) => nl,
                    None => 0,
                };
                assert(crate::model::raw_rows(suffix) == seq![suffix.take(nl)]
                    + crate::model::raw_rows(suffix.skip(nl + 1)));
            }
            assert(done < crate::model::raw_rows(s@).len());
            assert(crate::model::row_ok(crate::model::raw_rows(s@)[done]));
            assert(crate::model::raw_rows(s@)[done] == crate::model::raw_rows(s@).skip(done)[0]);
        }
        let scanned = if vectorized {
            parse_row_vectorized(s, offset)
        } else {
            parse_row_naive(s, offset)
        };
        let bounds = match scanned {
            Some(bounds) => bounds,
            None => {
                proof {
                    assert(false);
                }
                (0, 0)
            },
        };
        let (name_end, row_end) = bounds;
        let ghost nl = row_end - offset;
        let ghost row = suffix.take(nl);
        let ghost sep = name_end - offset;
        proof {
            lemma_find_first(suffix, NEWLINE_CODE);
            assert(crate::model::raw_rows(suffix) == seq![suffix.take(nl)]
                + crate::model::raw_rows(suffix.skip(nl + 1)));
            assert(row == crate::model::raw_rows(s@).skip(done)[0]);
            assert(row == crate::model::raw_rows(s@)[done]);
            assert(sep == sep_of(row));
            lemma_find_first(row, SEMICOLON_CODE);
            assert(sep < row.len());
            assert(name_end < row_end && row_end < n);
        }
        let name_slice = &s[offset..name_end];
        let temp_slice = &s[name_end + 1..row_end];
        proof {
            assert(name_slice@ =~= crate::model::name_of(row));
            assert(temp_slice@ =~= crate::model::temp_bytes_of(row));
        }
        let t = match parse_temp_slice(temp_slice) {
            Some(t) => t,
            None => {
                proof {
                    assert(false);
                }
                0
            },
        };
        let station = bytes_to_string(name_slice);
        out.push(Row::new(station, t));
        proof {
            assert(all[done] == crate::model::row_model_of(row));
            assert(crate::model::raw_rows(s@).skip(done).drop_first()
                =~= crate::model::raw_rows(s@).skip(done + 1));
            assert(crate::model::raw_rows(suffix) == seq![row] + crate::model::raw_rows(
                suffix.skip(nl + 1),
            ));
            assert((seq![row] + crate::model::raw_rows(suffix.skip(nl + 1))).drop_first()
                =~= crate::model::raw_rows(suffix.skip(nl + 1)));
            assert(suffix.skip(nl + 1) =~= s@.skip(row_end + 1));
        }
        offset = row_end + 1;
    }
    proof {
        assert(s@.skip(offset as int).len() == 0);
        assert(crate::model::raw_rows(s@.skip(offset as int)) =~= Seq::<Seq<u8>>::empty());
        assert(out@.len() == all.len());
    }
    out
}

/// The next row's boundaries by one linear scan that remembers the latest
/// delimiter seen.
pub fn parse_row_naive(buf: &[u8], start: usize) -> (r: Option<(usize, usize)>)
    requires
        start <= buf@.len(),
        row_scan_pre(buf@, start as int),
    ensures
        row_scan_post(buf@, start as int, r),
{
    let n: usize = buf.len();
    let ghost suffix = buf@.skip(start as int);
    let mut i: usize = start;
    let mut sep: usize = 0;
    let mut seen_sep = false;
    while i < n
        invariant
            start <= i <= n,
            n == buf@.len(),
            suffix == buf@.skip(start as int),
            row_scan_pre(buf@, start as int),
            forall|j: int| start <= j < i ==> buf@[j] != NEWLINE_CODE,
            seen_sep ==> start <= sep < i && buf@[sep as int] == SEMICOLON_CODE,
            seen_sep ==> forall|j: int| sep < j < i ==> buf@[j] != SEMICOLON_CODE,
            !seen_sep ==> forall|j: int| start <= j < i ==> buf@[j] != SEMICOLON_CODE,
        decreases n - i,
    {
        let b = buf[i];
        if b == NEWLINE_CODE {
            proof {
                let nl = i - start;
                assert(forall|j: int| 0 <= j < nl ==> suffix[j] == buf@[start + j]);
                assert(suffix[nl] == buf@[i as int]);
                lemma_find_first_unique(suffix, NEWLINE_CODE, nl);
                let row = suffix.take(nl);
                lemma_find_first(row, SEMICOLON_CODE);
                let s0 = sep_of(row);
                assert(find_first(row, SEMICOLON_CODE) is Some);
                assert(row[s0] == SEMICOLON_CODE);
                assert(buf@[start + s0] == SEMICOLON_CODE);
                assert(seen_sep);
                let sr = sep - start;
                assert(row[sr] == SEMICOLON_CODE);
                if s0 < sr {
                    let tail = row.skip(s0 + 1);
                    lemma_find_first(tail, SEMICOLON_CODE);
                    assert(tail[sr - s0 - 1] == row[sr]);
                } else if sr < s0 {
                    assert(buf@[start + s0] != SEMICOLON_CODE);
                }
                assert(sep == start + s0);
            }
            return Some((sep, i));
        }
        if b == SEMICOLON_CODE {
            sep = i;
            seen_sep = true;
        }
        i = i + 1;
    }
    proof {
        assert(forall|j: int| 0 <= j < suffix.len() ==> suffix[j] == buf@[start + j]);
        lemma_find_first_absent(suffix, NEWLINE_CODE);
    }
    None
}

/// The next row's boundaries by two vectorized searches, one per marker.
pub fn parse_row_vectorized(buf: &[u8], start: usize) -> (r: Option<(usize, usize)>)
    requires
        start <= buf@.len(),
        row_scan_pre(buf@, start as int),
    ensures
        row_scan_post(buf@, start as int, r),
{
    let ghost suffix = buf@.skip(start as int);
    let semi_found = find_byte_vectorized(buf, start, SEMICOLON_CODE);
    let nl_found = find_byte_vectorized(buf, start, NEWLINE_CODE);
    proof {
        lemma_found_find_first(buf@, start as int, NEWLINE_CODE, nl_found);
        if let Some(nl) = find_first(suffix, NEWLINE_CODE) {
            lemma_find_first(suffix, NEWLINE_CODE);
            let row = suffix.take(nl);
            lemma_find_first(row, SEMICOLON_CODE);
            let s0 = sep_of(row);
            assert(row[s0] == SEMICOLON_CODE);
            assert(buf@[start + s0] == SEMICOLON_CODE);
            match semi_found {
                Some(semi) => {
                    assert(semi <= start + s0);
                    assert(suffix[semi - start] == SEMICOLON_CODE);
                    assert(semi - start < nl);
                    lemma_find_first_unique(row, SEMICOLON_CODE, semi - start);
                },
                None => {
                    assert(buf@[start + s0] != SEMICOLON_CODE);
                },
            }
        }
    }
    match semi_found {
        Some(semi) => match nl_found {
            Some(nl) => Some((semi, nl)),
            None => None,
        },
        None => None,
    }
}

/// The size of the next complete row, by a linear scan.
pub fn seek_row_naive(buf: &[u8], start: usize) -> (r: Option<usize>)
    requires
        start <= buf@.len(),
    ensures
        seek_post(buf@, start as int, r),
{
    let n: usize = buf.len();
    let found = find_byte_naive(buf, start, NEWLINE_CODE);
    proof {
        lemma_found_find_first(buf@, start as int, NEWLINE_CODE, found);
    }
    match found {
        Some(nl) => {
            assert(nl < n);
            Some(nl - start + 1)
        },
        None => None,
    }
}

/// The size of the next complete row, by the vectorized search.
pub fn seek_row_vectorized(buf: &[u8], start: usize) -> (r: Option<usize>)
    requires
        start <= buf@.len(),
    ensures
        seek_post(buf@, start as int, r),
{
    let n: usize = buf.len();
    let found = find_byte_vectorized(buf, start, NEWLINE_CODE);
    proof {
        lemma_found_find_first(buf@, start as int, NEWLINE_CODE, found);
    }
    match found {
        Some(nl) => {
            assert(nl < n);
            Some(nl - start + 1)
        },
        None => None,
    }
}

} // verus!
