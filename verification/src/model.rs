//! The mathematical model of the engine: how a byte buffer decomposes into
//! rows, how a row splits into a station name and a temperature, what value a
//! temperature text denotes, and how observations fold into per-station
//! aggregates.

use vstd::prelude::*;

verus! {

/// ASCII code for newline, the record terminator.
pub const NEWLINE_CODE: u8 = 10;

/// ASCII code for semicolon, the field delimiter.
pub const SEMICOLON_CODE: u8 = 59;

/// ASCII code for the minus sign.
pub const MINUS_CODE: u8 = 45;

/// ASCII code for the decimal point.
pub const DOT_CODE: u8 = 46;

/// A temperature reading, in tenths of a degree, is kept within this bound so
/// that sums of readings never overflow their accumulator.
pub const MAX_ABS_TENTHS: i64 = 999_999_999;

/// The index of the first occurrence of `b` in `s`, if any.
pub open spec fn find_first(s: Seq<u8>, b: u8) -> Option<int>
    decreases s.len(),
{
    if s.len() == 0 {
        None
    } else if s[0] == b {
        Some(0int)
    } else {
        match find_first(s.drop_first(), b) {
            Some(i) => Some(i + 1),
            None => None,
        }
    }
}

/// `find_first` returns the least index holding `b`, or `None` when `b` does
/// not occur.
pub proof fn lemma_find_first(s: Seq<u8>, b: u8)
    ensures
        match find_first(s, b) {
            Some(i) => 0 <= i < s.len() && s[i] == b && forall|j: int| 0 <= j < i ==> s[j] != b,
            None => forall|j: int| 0 <= j < s.len() ==> s[j] != b,
        },
    decreases s.len(),
{
    if s.len() != 0 && s[0] != b {
        lemma_find_first(s.drop_first(), b);
        assert(forall|j: int| 1 <= j < s.len() ==> s[j] == s.drop_first()[j - 1]);
    }
}

/// The first occurrence is pinned down by its defining properties.
pub proof fn lemma_find_first_unique(s: Seq<u8>, b: u8, i: int)
    requires
        0 <= i < s.len(),
        s[i] == b,
        forall|j: int| 0 <= j < i ==> s[j] != b,
    ensures
        find_first(s, b) == Some(i),
{
    lemma_find_first(s, b);
    match find_first(s, b) {
        Some(k) => {
            if k < i {
                assert(s[k] != b);
            }
            if i < k {
                assert(s[i] != b);
            }
        },
        None => {
            assert(s[i] != b);
        },
    }
}

/// When `b` does not occur in `s`, `find_first` says so.
pub proof fn lemma_find_first_absent(s: Seq<u8>, b: u8)
    requires
        forall|j: int| 0 <= j < s.len() ==> s[j] != b,
    ensures
        find_first(s, b) is None,
{
    lemma_find_first(s, b);
    if let Some(k) = find_first(s, b) {
        assert(s[k] != b);
    }
}

/// The complete rows of a buffer, in order, each without its terminating
/// newline.  Bytes after the last newline form no row: a trailing
/// unterminated record is dropped.
pub open spec fn raw_rows(buf: Seq<u8>) -> Seq<Seq<u8>>
    decreases buf.len(),
        via raw_rows_decreases
{
    match find_first(buf, NEWLINE_CODE) {
        None => Seq::empty(),
        Some(nl) => seq![buf.take(nl)] + raw_rows(buf.skip(nl + 1)),
    }
}

#[via_fn]
proof fn raw_rows_decreases(buf: Seq<u8>) {
    lemma_find_first(buf, NEWLINE_CODE);
}

/// A buffer without a newline holds no complete row.
pub proof fn lemma_raw_rows_none(buf: Seq<u8>)
    requires
        forall|j: int| 0 <= j < buf.len() ==> buf[j] != NEWLINE_CODE,
    ensures
        raw_rows(buf) == Seq::<Seq<u8>>::empty(),
{
    lemma_find_first_absent(buf, NEWLINE_CODE);
}

/// A block that ends on a row boundary contributes its rows unchanged: no
/// row is split across the boundary.
pub proof fn lemma_raw_rows_concat(a: Seq<u8>, b: Seq<u8>)
    requires
        a.len() == 0 || a.last() == NEWLINE_CODE,
    ensures
        raw_rows(a + b) == raw_rows(a) + raw_rows(b),
    decreases a.len(),
{
    if a.len() == 0 {
        assert(a + b =~= b);
        assert(raw_rows(a) =~= Seq::<Seq<u8>>::empty());
        assert(raw_rows(a) + raw_rows(b) =~= raw_rows(b));
    } else {
        lemma_find_first(a, NEWLINE_CODE);
        let i = match find_first(a, NEWLINE_CODE) {
            Some(i) => i,
            None => {
                assert(a.last() == NEWLINE_CODE);
                assert(false);
                0
            },
        };
        assert(forall|j: int| 0 <= j < a.len() ==> (a + b)[j] == a[j]);
        lemma_find_first_unique(a + b, NEWLINE_CODE, i);
        let a1 = a.skip(i + 1);
        assert(a1.len() == 0 || a1.last() == a.last());
        assert((a + b).take(i) =~= a.take(i));
        assert((a + b).skip(i + 1) =~= a1 + b);
        lemma_raw_rows_concat(a1, b);
        assert(raw_rows(a + b) == seq![a.take(i)] + (raw_rows(a1) + raw_rows(b)));
        assert(raw_rows(a) == seq![a.take(i)] + raw_rows(a1));
        assert(seq![a.take(i)] + (raw_rows(a1) + raw_rows(b)) =~= (seq![a.take(i)] + raw_rows(a1))
            + raw_rows(b));
    }
}

/// Where the name of a row ends: the first semicolon, or the row's end when
/// there is none.
pub open spec fn sep_of(row: Seq<u8>) -> int {
    match find_first(row, SEMICOLON_CODE) {
        Some(s) => s,
        None => row.len() as int,
    }
}

/// The station name of a row: the bytes before the first semicolon.
pub open spec fn name_of(row: Seq<u8>) -> Seq<u8> {
    row.take(sep_of(row))
}

/// The temperature text of a row: the bytes after the first semicolon.
pub open spec fn temp_bytes_of(row: Seq<u8>) -> Seq<u8> {
    row.skip(sep_of(row) + 1)
}

/// A row is well formed when it holds exactly one semicolon.
pub open spec fn row_well_formed(row: Seq<u8>) -> bool {
    match find_first(row, SEMICOLON_CODE) {
        Some(s) => find_first(row.skip(s + 1), SEMICOLON_CODE) is None,
        None => false,
    }
}

/// ASCII decimal digit.
pub open spec fn is_ascii_digit(b: u8) -> bool {
    0x30 <= b <= 0x39
}

/// Every byte of `s` is an ASCII decimal digit.
pub open spec fn all_ascii_digits(s: Seq<u8>) -> bool {
    forall|i: int| 0 <= i < s.len() ==> is_ascii_digit(#[trigger] s[i])
}

/// The value of a string of decimal digits, most significant first.
pub open spec fn digits_value(s: Seq<u8>) -> int
    decreases s.len(),
{
    if s.len() == 0 {
        0
    } else {
        10 * digits_value(s.drop_last()) + (s.last() - 0x30)
    }
}

/// A digit string never denotes a negative value.
pub proof fn lemma_digits_value_nonneg(s: Seq<u8>)
    requires
        all_ascii_digits(s),
    ensures
        digits_value(s) >= 0,
    decreases s.len(),
{
    if s.len() > 0 {
        assert(all_ascii_digits(s.drop_last()));
        lemma_digits_value_nonneg(s.drop_last());
    }
}

/// The tenths denoted by an unsigned temperature text: either a non-empty
/// digit string, or a non-empty digit string followed by a decimal point and
/// exactly one fractional digit.
pub open spec fn unsigned_tenths(s: Seq<u8>) -> Option<int> {
    if s.len() >= 2 && s[s.len() - 2] == DOT_CODE {
        let ip = s.take(s.len() - 2);
        if ip.len() >= 1 && all_ascii_digits(ip) && is_ascii_digit(s.last()) {
            Some(10 * digits_value(ip) + (s.last() - 0x30))
        } else {
            None
        }
    } else if s.len() >= 1 && all_ascii_digits(s) {
        Some(10 * digits_value(s))
    } else {
        None
    }
}

/// The tenths denoted by a temperature text, with an optional leading minus
/// sign; a value beyond the supported magnitude is refused.
pub open spec fn temp_value(s: Seq<u8>) -> Option<int> {
    let negative = s.len() >= 1 && s[0] == MINUS_CODE;
    let body = if negative { s.drop_first() } else { s };
    match unsigned_tenths(body) {
        Some(v) => if v <= MAX_ABS_TENTHS as int {
            Some(if negative { -v } else { v })
        } else {
            None
        },
        None => None,
    }
}

/// A text that parses as a temperature holds digits, at most one decimal
/// point and at most one leading minus sign, so never a field delimiter.
pub proof fn lemma_temp_no_semi(s: Seq<u8>)
    ensures
        temp_value(s) is Some ==> find_first(s, SEMICOLON_CODE) is None,
{
    if temp_value(s) is Some {
        let negative = s.len() >= 1 && s[0] == MINUS_CODE;
        let body = if negative {
            s.drop_first()
        } else {
            s
        };
        let off: int = if negative {
            1
        } else {
            0
        };
        assert forall|i: int| 0 <= i < s.len() implies s[i] != SEMICOLON_CODE by {
            if negative && i == 0 {
                assert(s[i] == MINUS_CODE);
            } else {
                let bi = i - off;
                assert(body[bi] == s[i]);
                if body.len() >= 2 && body[body.len() - 2] == DOT_CODE {
                    let ip = body.take(body.len() - 2);
                    if bi == body.len() - 2 {
                        assert(s[i] == DOT_CODE);
                    } else if bi == body.len() - 1 {
                        assert(is_ascii_digit(body[bi]));
                    } else {
                        assert(ip[bi] == body[bi]);
                        assert(is_ascii_digit(ip[bi]));
                    }
                } else {
                    assert(is_ascii_digit(body[bi]));
                }
            }
        }
        lemma_find_first_absent(s, SEMICOLON_CODE);
    }
}

/// The magnitude bound that every accepted reading satisfies.
pub open spec fn reading_in_range(t: int) -> bool {
    -(MAX_ABS_TENTHS as int) <= t <= MAX_ABS_TENTHS as int
}

pub proof fn lemma_temp_value_in_range(s: Seq<u8>)
    ensures
        temp_value(s) matches Some(v) ==> reading_in_range(v),
{
    let negative = s.len() >= 1 && s[0] == MINUS_CODE;
    let body = if negative { s.drop_first() } else { s };
    if temp_value(s) is Some {
        if body.len() >= 2 && body[body.len() - 2] == DOT_CODE {
            lemma_digits_value_nonneg(body.take(body.len() - 2));
        } else {
            lemma_digits_value_nonneg(body);
        }
    }
}

/// The additive station hash: 23 plus 23 times each name byte, wrapping at
/// the width of `u64`.  Distinct names may collide; the hash-keyed maps
/// inherit that weakness knowingly.
pub open spec fn hash_name(s: Seq<u8>) -> u64
    decreases s.len(),
{
    if s.len() == 0 {
        23u64
    } else {
        ((hash_name(s.drop_last()) + 23 * s.last()) % 0x1_0000_0000_0000_0000) as u64
    }
}

/// The running aggregate for one station: the least and greatest reading,
/// their sum, how many there were, and the name under which the station was
/// first seen.  All temperatures are in tenths.
pub ghost struct EntryModel {
    pub min: int,
    pub max: int,
    pub sum: int,
    pub count: nat,
    pub name: Seq<u8>,
}

impl EntryModel {
    /// The aggregate after one first observation.
    pub open spec fn first(name: Seq<u8>, t: int) -> EntryModel {
        EntryModel { min: t, max: t, sum: t, count: 1, name }
    }

    /// The aggregate after one further observation.
    pub open spec fn observe(self, t: int) -> EntryModel {
        EntryModel {
            min: if t < self.min { t } else { self.min },
            max: if t > self.max { t } else { self.max },
            sum: self.sum + t,
            count: self.count + 1,
            name: self.name,
        }
    }

    /// Two aggregates of the same station combined; the left name is kept.
    pub open spec fn merge(self, other: EntryModel) -> EntryModel {
        EntryModel {
            min: if other.min < self.min { other.min } else { self.min },
            max: if other.max > self.max { other.max } else { self.max },
            sum: self.sum + other.sum,
            count: self.count + other.count,
            name: self.name,
        }
    }

    /// Every reachable aggregate satisfies this: bounds ordered and the sum
    /// between `count * min` and `count * max`.
    pub open spec fn wf(self) -> bool {
        &&& reading_in_range(self.min)
        &&& reading_in_range(self.max)
        &&& self.min <= self.max
        &&& self.count >= 1
        &&& self.count * self.min <= self.sum <= self.count * self.max
    }

    /// The two aggregates agree on everything the result reports.
    pub open spec fn same_stats(self, other: EntryModel) -> bool {
        self.min == other.min && self.max == other.max && self.sum == other.sum && self.count
            == other.count
    }
}

/// A parsed row: a station name and its reading in tenths.
pub ghost struct RowModel {
    pub name: Seq<u8>,
    pub temp: int,
}

/// One observation folded into a hash-keyed aggregation map.
pub open spec fn agg_observe(m: Map<u64, EntryModel>, name: Seq<u8>, t: int) -> Map<
    u64,
    EntryModel,
> {
    let key = hash_name(name);
    if m.dom().contains(key) {
        m.insert(key, m[key].observe(t))
    } else {
        m.insert(key, EntryModel::first(name, t))
    }
}

/// A sequence of rows folded into a hash-keyed aggregation map, first row
/// first.
pub open spec fn agg_rows(m: Map<u64, EntryModel>, rows: Seq<RowModel>) -> Map<u64, EntryModel>
    decreases rows.len(),
{
    if rows.len() == 0 {
        m
    } else {
        agg_rows(agg_observe(m, rows[0].name, rows[0].temp), rows.drop_first())
    }
}

/// The empty aggregation map.
pub open spec fn agg_empty() -> Map<u64, EntryModel> {
    Map::empty()
}

/// Two aggregation maps combined key by key; for a shared key the entries
/// merge, the left name winning.
pub open spec fn merge_maps(a: Map<u64, EntryModel>, b: Map<u64, EntryModel>) -> Map<
    u64,
    EntryModel,
> {
    Map::new(
        |k: u64| a.dom().contains(k) || b.dom().contains(k),
        |k: u64|
            if a.dom().contains(k) && b.dom().contains(k) {
                a[k].merge(b[k])
            } else if a.dom().contains(k) {
                a[k]
            } else {
                b[k]
            },
    )
}

/// Folding rows one by one commutes with folding them in two runs.
pub proof fn lemma_agg_rows_append(m: Map<u64, EntryModel>, r1: Seq<RowModel>, r2: Seq<RowModel>)
    ensures
        agg_rows(m, r1 + r2) == agg_rows(agg_rows(m, r1), r2),
    decreases r1.len(),
{
    if r1.len() == 0 {
        assert(r1 + r2 =~= r2);
    } else {
        assert((r1 + r2).drop_first() =~= r1.drop_first() + r2);
        lemma_agg_rows_append(agg_observe(m, r1[0].name, r1[0].temp), r1.drop_first(), r2);
    }
}

/// Observing into a merged map equals merging after observing on the right.
proof fn lemma_observe_merge(
    a: Map<u64, EntryModel>,
    b: Map<u64, EntryModel>,
    name: Seq<u8>,
    t: int,
)
    ensures
        agg_observe(merge_maps(a, b), name, t) =~= merge_maps(a, agg_observe(b, name, t)),
{
}

/// Splitting a run of rows anywhere and merging the two partial maps gives
/// the same aggregate as one single run.
pub proof fn lemma_agg_rows_merge(r1: Seq<RowModel>, r2: Seq<RowModel>)
    ensures
        agg_rows(agg_empty(), r1 + r2) =~= merge_maps(
            agg_rows(agg_empty(), r1),
            agg_rows(agg_empty(), r2),
        ),
    decreases r2.len(),
{
    let e = agg_empty();
    if r2.len() == 0 {
        assert(r1 + r2 =~= r1);
        assert(agg_rows(e, r2) == e);
        assert(agg_rows(e, r1) =~= merge_maps(agg_rows(e, r1), e));
    } else {
        let r2h = r2.drop_last();
        let x = r2.last();
        let a = agg_rows(e, r1);
        let b2h = agg_rows(e, r2h);
        lemma_agg_rows_merge(r1, r2h);
        assert(r1 + r2 =~= (r1 + r2h).push(x));
        lemma_agg_rows_push(e, r1 + r2h, x);
        lemma_observe_merge(a, b2h, x.name, x.temp);
        assert(r2h.push(x) =~= r2);
        lemma_agg_rows_push(e, r2h, x);
        assert(agg_rows(e, r2) == agg_observe(b2h, x.name, x.temp));
        assert(agg_rows(e, r1 + r2) == agg_observe(merge_maps(a, b2h), x.name, x.temp));
    }
}

/// Folding one more row at the end is one more observation.
pub proof fn lemma_agg_rows_push(m: Map<u64, EntryModel>, rows: Seq<RowModel>, x: RowModel)
    ensures
        agg_rows(m, rows.push(x)) == agg_observe(agg_rows(m, rows), x.name, x.temp),
    decreases rows.len(),
{
    let s = rows.push(x);
    if rows.len() == 0 {
        assert(s[0] == x);
        assert(s.drop_first() =~= Seq::<RowModel>::empty());
        assert(agg_rows(m, s) == agg_rows(
            agg_observe(m, x.name, x.temp),
            Seq::<RowModel>::empty(),
        ));
        assert(agg_rows(agg_observe(m, x.name, x.temp), Seq::<RowModel>::empty())
            == agg_observe(m, x.name, x.temp));
        assert(agg_rows(m, rows) == m);
    } else {
        let m1 = agg_observe(m, rows[0].name, rows[0].temp);
        assert(s[0] == rows[0]);
        assert(s.drop_first() =~= rows.drop_first().push(x));
        assert(agg_rows(m, s) == agg_rows(m1, rows.drop_first().push(x)));
        lemma_agg_rows_push(m1, rows.drop_first(), x);
        assert(agg_rows(m, rows) == agg_rows(m1, rows.drop_first()));
    }
}

/// A sequence of row sequences joined in order.
pub open spec fn concat_all(rs: Seq<Seq<RowModel>>) -> Seq<RowModel>
    decreases rs.len(),
{
    if rs.len() == 0 {
        Seq::empty()
    } else {
        concat_all(rs.drop_last()) + rs.last()
    }
}

/// A sequence of aggregation maps merged in order.
pub open spec fn merge_all(ms: Seq<Map<u64, EntryModel>>) -> Map<u64, EntryModel>
    decreases ms.len(),
{
    if ms.len() == 0 {
        agg_empty()
    } else {
        merge_maps(merge_all(ms.drop_last()), ms.last())
    }
}

/// Aggregating shard by shard and merging the shard maps equals aggregating
/// the shards' rows in one run.
pub proof fn lemma_sharded_agg(rs: Seq<Seq<RowModel>>)
    ensures
        merge_all(rs.map(|i: int, rows: Seq<RowModel>| agg_rows(agg_empty(), rows))) =~= agg_rows(
            agg_empty(),
            concat_all(rs),
        ),
    decreases rs.len(),
{
    let f = |i: int, rows: Seq<RowModel>| agg_rows(agg_empty(), rows);
    if rs.len() == 0 {
    } else {
        let rsh = rs.drop_last();
        lemma_sharded_agg(rsh);
        assert(rs.map(f).drop_last() =~= rsh.map(f));
        assert(rs.map(f).last() == agg_rows(agg_empty(), rs.last()));
        lemma_agg_rows_merge(concat_all(rsh), rs.last());
    }
}

/// The mean in tenths: the quotient of the summed tenths by the count,
/// rounded to the nearest integer with halves moved away from zero.
pub open spec fn round_half_from_zero(sum: int, count: int) -> int
    recommends
        count >= 1,
{
    if sum >= 0 {
        (2 * sum + count) / (2 * count)
    } else {
        -((2 * (-sum) + count) / (2 * count))
    }
}

proof fn lemma_round_nonneg_bounds(sum: int, count: int, lo: int, hi: int)
    requires
        sum >= 0,
        count >= 1,
        count * lo <= sum,
        sum <= count * hi,
    ensures
        lo <= (2 * sum + count) / (2 * count) <= hi,
{
    let a = 2 * sum + count;
    let d = 2 * count;
    assert(d * lo <= a) by (nonlinear_arith)
        requires
            count * lo <= sum,
            count >= 1,
            a == 2 * sum + count,
            d == 2 * count,
    ;
    assert(a < d * (hi + 1)) by (nonlinear_arith)
        requires
            sum <= count * hi,
            count >= 1,
            a == 2 * sum + count,
            d == 2 * count,
    ;
    vstd::arithmetic::div_mod::lemma_div_is_ordered(d * lo, a, d);
    vstd::arithmetic::div_mod::lemma_div_multiples_vanish(lo, d);
    vstd::arithmetic::div_mod::lemma_multiply_divide_lt(a, d, hi + 1);
}

/// The rounded mean never leaves the interval spanned by the extremes.
pub proof fn lemma_round_in_bounds(sum: int, count: int, lo: int, hi: int)
    requires
        count >= 1,
        count * lo <= sum,
        sum <= count * hi,
    ensures
        lo <= round_half_from_zero(sum, count) <= hi,
{
    if sum >= 0 {
        lemma_round_nonneg_bounds(sum, count, lo, hi);
    } else {
        assert(count * (-hi) <= -sum && -sum <= count * (-lo)) by (nonlinear_arith)
            requires
                count * lo <= sum,
                sum <= count * hi,
        ;
        lemma_round_nonneg_bounds(-sum, count, -hi, -lo);
    }
}

/// Rounding is idempotent: a sum that is an exact multiple of the count
/// rounds to that multiple, so re-rounding a mean changes nothing.
pub proof fn lemma_round_exact(m: int, count: int)
    requires
        count >= 1,
    ensures
        round_half_from_zero(m * count, count) == m,
{
    let d = 2 * count;
    if m * count >= 0 {
        assert(2 * (m * count) + count == d * m + count) by (nonlinear_arith)
            requires
                d == 2 * count,
        ;
        vstd::arithmetic::div_mod::lemma_div_multiples_vanish_fancy(m, count, d);
    } else {
        assert(2 * (-(m * count)) + count == d * (-m) + count) by (nonlinear_arith)
            requires
                d == 2 * count,
        ;
        vstd::arithmetic::div_mod::lemma_div_multiples_vanish_fancy(-m, count, d);
    }
}

/// Whether a row parses: one semicolon and a valid temperature.
pub open spec fn row_ok(row: Seq<u8>) -> bool {
    row_well_formed(row) && temp_value(temp_bytes_of(row)) is Some
}

/// Every complete row of the buffer parses.
pub open spec fn buffer_ok(buf: Seq<u8>) -> bool {
    forall|i: int| 0 <= i < raw_rows(buf).len() ==> row_ok(#[trigger] raw_rows(buf)[i])
}

/// The reading a valid temperature text denotes.
pub open spec fn temp_value_of(s: Seq<u8>) -> int {
    match temp_value(s) {
        Some(v) => v,
        None => 0,
    }
}

/// The parsed form of one well-formed row.
pub open spec fn row_model_of(row: Seq<u8>) -> RowModel {
    RowModel { name: name_of(row), temp: temp_value_of(temp_bytes_of(row)) }
}

/// The parsed rows of a buffer, in order.
pub open spec fn parsed_rows(buf: Seq<u8>) -> Seq<RowModel> {
    raw_rows(buf).map(|i: int, row: Seq<u8>| row_model_of(row))
}

/// The hash-keyed aggregate of a whole buffer.
pub open spec fn buffer_agg(buf: Seq<u8>) -> Map<u64, EntryModel> {
    agg_rows(agg_empty(), parsed_rows(buf))
}

/// One observation folded into a name-keyed aggregation map: the exact
/// variant, in which distinct names never share an entry.
pub open spec fn name_agg_observe(m: Map<Seq<u8>, EntryModel>, name: Seq<u8>, t: int) -> Map<
    Seq<u8>,
    EntryModel,
> {
    if m.dom().contains(name) {
        m.insert(name, m[name].observe(t))
    } else {
        m.insert(name, EntryModel::first(name, t))
    }
}

} // verus!
