use brc::brc::aggregate_ranges;
use brc::parser::naive::NaiveRowParser;
use brc::parser::vectorized::VectorizedRowParser;
use brc::parser::RowParser;
use brc::brc::feed;
use brc::brc::hash_station_name;
use brc::brc::locate_rows;
use brc::brc::read_range;
use brc::brc::read_row;
use brc::brc::ParallelChannel;
use brc::brc::Sequential;
use brc::aggregate::AggMap;
use brc::reader::next_bulk;
use brc::reader::RowBuffer;
use brc::stats::lex_le_bytes;
use brc::stats::rounded_mean;
use brc::stats::Station;

const THREE_ROWS: &str = "Paris;10.2\nLondon;8.1\nJakarta;80.3\n";

#[test]
fn sequential_strategy_processes_three_rows() {
    let results = Sequential::new().process(THREE_ROWS.as_bytes()).unwrap();
    assert_eq!(results.len(), 3);
    assert_eq!(results[0].name, "Jakarta");
    assert_eq!(results[0].min, 803);
}

#[test]
fn channel_strategy_matches_sequential() {
    let a = ParallelChannel::new(32).process(THREE_ROWS.as_bytes()).unwrap();
    let b = Sequential::new().process(THREE_ROWS.as_bytes()).unwrap();
    assert_eq!(a.len(), b.len());
    for (x, y) in a.iter().zip(b.iter()) {
        assert_eq!(x.name, y.name);
        assert_eq!(x.min, y.min);
        assert_eq!(x.max, y.max);
        assert_eq!(x.mean, y.mean);
    }
}

#[test]
fn read_row_walks_the_cursor() {
    let buf = THREE_ROWS.as_bytes();
    let mut offset = 0;
    let row1 = read_row(buf, &mut offset).unwrap();
    assert_eq!(row1.start, 0);
    assert_eq!(row1.length, 10);
    assert_eq!(row1.name(), "Paris");
    assert_eq!(row1.value(), 102);

    let row2 = read_row(buf, &mut offset).unwrap();
    assert_eq!(row2.name(), "London");
    assert_eq!(row2.value(), 81);

    let row3 = read_row(buf, &mut offset).unwrap();
    assert_eq!(row3.name(), "Jakarta");
    assert_eq!(row3.value(), 803);

    assert!(read_row(buf, &mut offset).is_none());
}

#[test]
fn read_range_resolves_a_located_row() {
    let buf = THREE_ROWS.as_bytes();
    let view = read_range(buf, 11, 10).unwrap();
    assert_eq!(view.name(), "London");
    assert_eq!(view.value(), 81);
}

#[test]
fn locate_rows_finds_every_boundary() {
    let ranges = locate_rows(THREE_ROWS.as_bytes());
    assert_eq!(ranges, vec![(0, 10), (11, 10), (22, 12)]);

    // Trailing bytes without a terminator form no row.
    let partial = locate_rows(b"a;1\nb;2");
    assert_eq!(partial, vec![(0, 3)]);
}

#[test]
fn aggregate_ranges_folds_a_shard() {
    let buf = THREE_ROWS.as_bytes();
    let ranges = locate_rows(buf);
    let mut map = AggMap::new();
    aggregate_ranges(buf, &ranges, 0, 2, &mut map).unwrap();
    assert_eq!(map.rows(), 2);
}

#[test]
fn feed_merges_two_shards() {
    let buf = THREE_ROWS.as_bytes();
    let ranges = locate_rows(buf);
    let mut left = AggMap::new();
    let mut right = AggMap::new();
    aggregate_ranges(buf, &ranges, 0, 2, &mut left).unwrap();
    aggregate_ranges(buf, &ranges, 2, 3, &mut right).unwrap();
    feed(right, &mut left);
    assert_eq!(left.rows(), 3);

    let merged = brc::stats::finalize(left.into_entries());
    let whole = Sequential::new().process(buf).unwrap();
    assert_eq!(merged.len(), whole.len());
    for (x, y) in merged.iter().zip(whole.iter()) {
        assert_eq!(x.name, y.name);
        assert_eq!(x.min, y.min);
        assert_eq!(x.max, y.max);
        assert_eq!(x.mean, y.mean);
    }
}

#[test]
fn split_anywhere_merge_matches_single_run() {
    let buf = "a;1\nb;2\na;3\nc;-4\nb;5\n".as_bytes();
    let whole = Sequential::new().process(buf).unwrap();
    let ranges = locate_rows(buf);
    for cut in 0..=ranges.len() {
        let mut left = AggMap::new();
        let mut right = AggMap::new();
        aggregate_ranges(buf, &ranges, 0, cut, &mut left).unwrap();
        aggregate_ranges(buf, &ranges, cut, ranges.len(), &mut right).unwrap();
        feed(right, &mut left);
        let merged = brc::stats::finalize(left.into_entries());
        assert_eq!(merged.len(), whole.len());
        for (x, y) in merged.iter().zip(whole.iter()) {
            assert_eq!(x.name, y.name);
            assert_eq!(x.min, y.min);
            assert_eq!(x.max, y.max);
            assert_eq!(x.mean, y.mean);
        }
    }
}

#[test]
fn next_bulk_splits_on_row_boundaries() {
    let buf = THREE_ROWS.as_bytes();
    // A tiny bulk bound: each bulk holds exactly one row.
    let (block, end) = next_bulk(buf, 0, 1).unwrap();
    assert_eq!(block.count, 1);
    assert_eq!(block.buffer, b"Paris;10.2\n".to_vec());
    assert_eq!(end, 11);

    // A large bound swallows everything that remains.
    let (rest, rest_end) = next_bulk(buf, end, 1_000_000).unwrap();
    assert_eq!(rest.count, 2);
    assert_eq!(rest_end, buf.len());

    assert!(next_bulk(buf, rest_end, 1).is_none());
}

#[test]
fn row_buffer_copies_its_block() {
    let rb = RowBuffer::new(2, b"a;1\nb;2\n");
    assert_eq!(rb.count, 2);
    assert_eq!(rb.buffer, b"a;1\nb;2\n".to_vec());
}

#[test]
fn parse_row_buffer_reads_whole_blocks() {
    let rb = RowBuffer::new(2, b"a;1.5\nb;-2\n");
    let rows = NaiveRowParser::parse_row_buffer(&rb);
    assert_eq!(rows.len(), 2);
    assert_eq!(rows[0].station, "a");
    assert_eq!(rows[0].temperature, 15);
    assert_eq!(rows[1].station, "b");
    assert_eq!(rows[1].temperature, -20);

    let rows2 = VectorizedRowParser::parse_row_buffer(&rb);
    assert_eq!(rows2.len(), 2);
    assert_eq!(rows2[1].station, "b");
    assert_eq!(rows2[1].temperature, -20);
}

#[test]
fn brc_hash_stops_at_the_delimiter() {
    assert_eq!(hash_station_name(b"foo;1.2"), hash_station_name(b"foo"));
    assert_eq!(hash_station_name(b"foo"), 23 + 23 * (102 + 111 + 111));
}

#[test]
fn lex_order_is_bytewise() {
    assert!(lex_le_bytes(b"Jakarta", b"London"));
    assert!(lex_le_bytes(b"London", b"Paris"));
    assert!(lex_le_bytes(b"a", b"ab"));
    assert!(!lex_le_bytes(b"ab", b"a"));
    assert!(lex_le_bytes(b"", b"a"));
    assert!(lex_le_bytes(b"same", b"same"));
}

#[test]
fn rounded_mean_is_exact_on_quantized_sums() {
    assert_eq!(rounded_mean(987, 3), 329);
    assert_eq!(rounded_mean(732, 3), 244);
    assert_eq!(rounded_mean(65, 2), 33);
    assert_eq!(rounded_mean(-65, 2), -33);
    assert_eq!(rounded_mean(10, 1), 10);
}

#[test]
fn station_new_keeps_its_fields() {
    let s = Station::new("X".to_string(), 1, 3, 2);
    assert_eq!(s.name, "X");
    assert_eq!(s.min, 1);
    assert_eq!(s.max, 3);
    assert_eq!(s.mean, 2);
}
