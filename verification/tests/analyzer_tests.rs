use brc::analyzer::Analyzer;
use brc::brc::RowView;

#[test]
fn analyzer_test_1_row() {
    let mut analyzer = Analyzer::new();
    analyzer.observe(b"foo", 10);

    let results = analyzer.collect();

    assert_eq!(results.len(), 1);

    assert_eq!(results[0].max, 10);
    assert_eq!(results[0].mean, 10);
    assert_eq!(results[0].min, 10);
    assert_eq!(results[0].name, "foo");
}

#[test]
fn analyzer_test_3_rows() {
    let mut analyzer = Analyzer::new();
    analyzer.observe(b"Paris", 102);
    analyzer.observe(b"London", 81);
    analyzer.observe(b"Jakarta", 803);

    let results = analyzer.collect();

    assert_eq!(results.len(), 3);

    let paris = results.clone().into_iter().find(|x| x.name == "Paris").unwrap();
    assert_eq!(paris.name, "Paris");
    assert_eq!(paris.max, 102);
    assert_eq!(paris.mean, 102);
    assert_eq!(paris.min, 102);

    let london = results.clone().into_iter().find(|x| x.name == "London").unwrap();
    assert_eq!(london.name, "London");
    assert_eq!(london.max, 81);
    assert_eq!(london.mean, 81);
    assert_eq!(london.min, 81);

    let jakarta = results.clone().into_iter().find(|x| x.name == "Jakarta").unwrap();
    assert_eq!(jakarta.name, "Jakarta");
    assert_eq!(jakarta.max, 803);
    assert_eq!(jakarta.mean, 803);
    assert_eq!(jakarta.min, 803);
}

#[test]
fn analyzer_test_9_rows_duplicate_stations() {
    let mut analyzer = Analyzer::new();
    analyzer.observe(b"Paris", 81);
    analyzer.observe(b"London", -92);
    analyzer.observe(b"Jakarta", 22);
    analyzer.observe(b"Paris", 803);
    analyzer.observe(b"London", 553);
    analyzer.observe(b"Jakarta", 903);
    analyzer.observe(b"Paris", 103);
    analyzer.observe(b"London", 271);
    analyzer.observe(b"Jakarta", 62);

    let results = analyzer.collect();

    assert_eq!(results.len(), 3);

    let paris = results.clone().into_iter().find(|x| x.name == "Paris").unwrap();
    assert_eq!(paris.name, "Paris");
    assert_eq!(paris.min, 81);
    assert_eq!(paris.max, 803);
    assert_eq!(paris.mean, 329);

    let london = results.clone().into_iter().find(|x| x.name == "London").unwrap();
    assert_eq!(london.name, "London");
    assert_eq!(london.min, -92);
    assert_eq!(london.max, 553);
    assert_eq!(london.mean, 244);

    let jakarta = results.clone().into_iter().find(|x| x.name == "Jakarta").unwrap();
    assert_eq!(jakarta.name, "Jakarta");
    assert_eq!(jakarta.min, 22);
    assert_eq!(jakarta.max, 903);
    assert_eq!(jakarta.mean, 329);
}

#[test]
fn analyzer_results_are_sorted_by_name() {
    let mut analyzer = Analyzer::new();
    analyzer.observe(b"Paris", 102);
    analyzer.observe(b"London", 81);
    analyzer.observe(b"Jakarta", 803);

    let results = analyzer.collect();

    assert_eq!(results[0].name, "Jakarta");
    assert_eq!(results[1].name, "London");
    assert_eq!(results[2].name, "Paris");
}

#[test]
fn analyzer_keeps_colliding_names_apart() {
    // The additive hash cannot tell "ab" from "ba"; the exact variant can.
    let mut analyzer = Analyzer::new();
    analyzer.observe(b"ab", 10);
    analyzer.observe(b"ba", 20);

    let results = analyzer.collect();

    assert_eq!(results.len(), 2);
    assert_eq!(results[0].name, "ab");
    assert_eq!(results[0].mean, 10);
    assert_eq!(results[1].name, "ba");
    assert_eq!(results[1].mean, 20);
}

#[test]
fn analyzer_walks_long_collision_buckets() {
    // Every permutation of the same bytes lands in one bucket of the
    // additive hash; each still gets its own accumulator.
    let names: [&[u8]; 6] = [b"abc", b"acb", b"bac", b"bca", b"cab", b"cba"];
    let mut analyzer = Analyzer::new();
    for (i, name) in names.iter().enumerate() {
        analyzer.observe(name, (i as i64 + 1) * 10);
        analyzer.observe(name, (i as i64 + 1) * 10);
    }

    let results = analyzer.collect();

    assert_eq!(results.len(), 6);
    assert_eq!(results[0].name, "abc");
    assert_eq!(results[0].mean, 10);
    assert_eq!(results[5].name, "cba");
    assert_eq!(results[5].mean, 60);
}

#[test]
fn row_view_into_row() {
    let buf = b"Hello world;2.4";
    let row = RowView::new(buf, 0, buf.len());

    assert_eq!(row.name(), "Hello world");
    assert_eq!(row.value(), 24);
}

#[test]
fn row_view_key_hashes_name_only() {
    let buf = b"Hello world;2.4";
    let row = RowView::new(buf, 0, buf.len());
    let bare = RowView::new(b"Hello world", 0, 11);

    assert_eq!(row.key(), bare.key());
}
