use brc::processor::hash_station_name;
use brc::processor::NoopProcessor;
use brc::processor::ParallelBulkProcessor;
use brc::processor::ParallelRayonProcessor;
use brc::processor::SequentialProcessor;
use brc::processor::WorkBuffer;
use brc::processor::BUFFER_SIZE;
use brc::stats::Station;

const ONE_ROW: &str = "foo;1\n";
const THREE_ROWS: &str = "Paris;10.2\nLondon;8.1\nJakarta;80.3\n";
const NINE_ROWS: &str = "Paris;8.1\nLondon;-9.2\nJakarta;2.2\nParis;80.3\nLondon;55.3\nJakarta;90.3\nParis;10.3\nLondon;27.1\nJakarta;6.2\n";

fn check_1_row(results: &[Station]) {
    assert_eq!(results.len(), 1);

    assert_eq!(results[0].max, 10);
    assert_eq!(results[0].mean, 10);
    assert_eq!(results[0].min, 10);
    assert_eq!(results[0].name, "foo");
}

fn check_3_rows(results: &[Station]) {
    assert_eq!(results.len(), 3);

    let paris = results.iter().find(|x| x.name == "Paris").unwrap();
    assert_eq!(paris.max, 102);
    assert_eq!(paris.mean, 102);
    assert_eq!(paris.min, 102);

    let london = results.iter().find(|x| x.name == "London").unwrap();
    assert_eq!(london.max, 81);
    assert_eq!(london.mean, 81);
    assert_eq!(london.min, 81);

    let jakarta = results.iter().find(|x| x.name == "Jakarta").unwrap();
    assert_eq!(jakarta.max, 803);
    assert_eq!(jakarta.mean, 803);
    assert_eq!(jakarta.min, 803);
}

fn check_9_rows(results: &[Station]) {
    assert_eq!(results.len(), 3);

    let paris = results.iter().find(|x| x.name == "Paris").unwrap();
    assert_eq!(paris.min, 81);
    assert_eq!(paris.max, 803);
    assert_eq!(paris.mean, 329);

    let london = results.iter().find(|x| x.name == "London").unwrap();
    assert_eq!(london.min, -92);
    assert_eq!(london.max, 553);
    assert_eq!(london.mean, 244);

    let jakarta = results.iter().find(|x| x.name == "Jakarta").unwrap();
    assert_eq!(jakarta.min, 22);
    assert_eq!(jakarta.max, 903);
    assert_eq!(jakarta.mean, 329);
}

#[test]
fn sequential_test_1_row() {
    let results = SequentialProcessor::new().process(ONE_ROW.as_bytes()).unwrap();
    check_1_row(&results);
}

#[test]
fn sequential_test_3_rows() {
    let results = SequentialProcessor::new().process(THREE_ROWS.as_bytes()).unwrap();
    check_3_rows(&results);
}

#[test]
fn sequential_test_9_rows_duplicate_stations() {
    let results = SequentialProcessor::new().process(NINE_ROWS.as_bytes()).unwrap();
    check_9_rows(&results);
}

#[test]
fn parallel_rayon_test_1_row() {
    let results = ParallelRayonProcessor::new().process(ONE_ROW.as_bytes()).unwrap();
    check_1_row(&results);
}

#[test]
fn parallel_rayon_test_3_rows() {
    let results = ParallelRayonProcessor::new().process(THREE_ROWS.as_bytes()).unwrap();
    check_3_rows(&results);
}

#[test]
fn parallel_rayon_test_9_rows_duplicate_stations() {
    let results = ParallelRayonProcessor::new().process(NINE_ROWS.as_bytes()).unwrap();
    check_9_rows(&results);
}

#[test]
fn parallel_bulk_matches_sequential() {
    let a = ParallelBulkProcessor::new().process(NINE_ROWS.as_bytes()).unwrap();
    let b = SequentialProcessor::new().process(NINE_ROWS.as_bytes()).unwrap();
    assert_eq!(a.len(), b.len());
    for (x, y) in a.iter().zip(b.iter()) {
        assert_eq!(x.name, y.name);
        assert_eq!(x.min, y.min);
        assert_eq!(x.max, y.max);
        assert_eq!(x.mean, y.mean);
    }
}

#[test]
fn results_come_sorted_by_name() {
    let results = SequentialProcessor::new().process(THREE_ROWS.as_bytes()).unwrap();
    assert_eq!(results[0].name, "Jakarta");
    assert_eq!(results[1].name, "London");
    assert_eq!(results[2].name, "Paris");
}

#[test]
fn empty_input_yields_no_stations() {
    let results = SequentialProcessor::new().process(b"").unwrap();
    assert_eq!(results.len(), 0);
}

#[test]
fn trailing_unterminated_record_is_dropped() {
    let results = SequentialProcessor::new().process(b"a;1\nb;2").unwrap();
    assert_eq!(results.len(), 1);
    assert_eq!(results[0].name, "a");
}

#[test]
fn missing_delimiter_is_fatal() {
    let r = SequentialProcessor::new().process(b"nodelimiter\n");
    assert!(r.is_err());
}

#[test]
fn invalid_temperature_is_fatal() {
    let r = SequentialProcessor::new().process(b"foo;oops\n");
    assert!(r.is_err());
    let r2 = ParallelRayonProcessor::new().process(b"foo;1.23\n");
    assert!(r2.is_err());
}

#[test]
fn hash_collision_merges_stations_silently() {
    // "ab" and "ba" share the additive hash: the hash-keyed engine folds
    // them into one station under the first name seen.
    assert_eq!(hash_station_name(b"ab"), hash_station_name(b"ba"));
    let results = SequentialProcessor::new().process(b"ab;1\nba;2\n").unwrap();
    assert_eq!(results.len(), 1);
    assert_eq!(results[0].name, "ab");
    assert_eq!(results[0].min, 10);
    assert_eq!(results[0].max, 20);
    assert_eq!(results[0].mean, 15);
}

#[test]
fn hash_is_the_documented_sum() {
    // 23 plus 23 times each byte of "foo".
    assert_eq!(hash_station_name(b"foo"), 23 + 23 * (102 + 111 + 111));
}

#[test]
fn rounding_is_half_away_from_zero() {
    // Two readings 3.0 and 3.5 average to 3.25, which rounds to 3.3;
    // -3.0 and -3.5 average to -3.25, which rounds to -3.3.
    let warm = SequentialProcessor::new().process(b"x;3.0\nx;3.5\n").unwrap();
    assert_eq!(warm[0].mean, 33);
    let cold = SequentialProcessor::new().process(b"x;-3.0\nx;-3.5\n").unwrap();
    assert_eq!(cold[0].mean, -33);
}

#[test]
fn noop_processor_reports_nothing() {
    let results = NoopProcessor::new().process(THREE_ROWS.as_bytes());
    assert_eq!(results.len(), 0);
}

#[test]
fn work_buffer_tracks_its_bound() {
    let mut wb = WorkBuffer::default();
    assert_eq!(wb.len(), 0);
    assert!(!wb.is_full());
    for _ in 0..BUFFER_SIZE {
        wb.push(b"x".to_vec(), b"1".to_vec());
    }
    assert_eq!(wb.len(), BUFFER_SIZE);
    assert!(wb.is_full());
}

#[test]
fn work_buffer_drains_into_the_map() {
    let mut wb = WorkBuffer::default();
    wb.push(b"a".to_vec(), b"1.0".to_vec());
    wb.push(b"b".to_vec(), b"2.0".to_vec());
    let mut map = brc::aggregate::AggMap::new();
    wb.run(&mut map).unwrap();
    assert_eq!(wb.len(), 0);
    assert_eq!(map.rows(), 2);
}
