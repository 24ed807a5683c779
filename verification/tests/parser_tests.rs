use brc::parser::parse_row;
use brc::parser::parse_row_naive;
use brc::parser::parse_row_vectorized;
use brc::parser::parse_station;
use brc::parser::parse_temp;
use brc::parser::parse_temp_slice;
use brc::parser::seek_row_naive;
use brc::parser::seek_row_vectorized;
use brc::parser::ParserError;
use brc::parser::Row;

#[test]
fn test_parse_station() {
    let buf = "foo;1";
    let mut offset = 0;
    let station = parse_station(buf.as_bytes(), &mut offset);

    assert!(station.is_some());
    assert_eq!(station.unwrap(), "foo");
    assert_eq!(offset, 4);
}

#[test]
fn test_parse_temperature() {
    let buf = "10.2\n";
    let mut offset = 0;
    let temp = parse_temp(buf.as_bytes(), &mut offset);

    assert!(temp.is_some());
    assert_eq!(temp.unwrap(), 102);
    assert_eq!(offset, 5);
}

#[test]
fn test_parse_row() {
    let buf = "St. Petersburg;10.2\n";
    let mut offset = 0;

    let res = parse_row(buf.as_bytes(), &mut offset);

    assert!(res.is_some());
    if let Some(row) = res {
        assert_eq!(row.station, "St. Petersburg");
        assert_eq!(row.temperature, 102);
    }
}

#[test]
fn test_parse_row_multiple() {
    let buf = "St. Petersburg;10.2\nParis;44.2\n";
    let mut offset = 0;

    let res1 = parse_row(buf.as_bytes(), &mut offset);
    let res2 = parse_row(buf.as_bytes(), &mut offset);

    assert!(res1.is_some());
    if let Some(row) = res1 {
        assert_eq!(row.station, "St. Petersburg");
        assert_eq!(row.temperature, 102);
    }

    assert!(res2.is_some());
    if let Some(row) = res2 {
        assert_eq!(row.station, "Paris");
        assert_eq!(row.temperature, 442);
    }

    let last = parse_row(buf.as_bytes(), &mut offset);

    assert!(last.is_none());
}

#[test]
fn test_parse_row_naive_1_row() {
    let buf = "St. Petersburg;10.2\n";

    let res = parse_row_naive(buf.as_bytes(), 0);

    assert!(res.is_some());
    let (name_end, row_end) = res.unwrap();
    assert_eq!(&buf.as_bytes()[0..name_end], "St. Petersburg".as_bytes());
    let temp = parse_temp_slice(&buf.as_bytes()[name_end + 1..row_end]);
    assert_eq!(temp, Some(102));
}

#[test]
fn test_parse_row_vectorized_1_row() {
    let buf = "St. Petersburg;10.2\n";

    let res = parse_row_vectorized(buf.as_bytes(), 0);

    assert!(res.is_some());
    let (name_end, row_end) = res.unwrap();
    assert_eq!(&buf.as_bytes()[0..name_end], "St. Petersburg".as_bytes());
    let temp = parse_temp_slice(&buf.as_bytes()[name_end + 1..row_end]);
    assert_eq!(temp, Some(102));
}

fn collect_rows(buf: &[u8], vectorized: bool) -> Vec<Row> {
    let mut rows: Vec<Row> = Vec::new();
    let mut offset = 0;
    loop {
        let res = if vectorized {
            parse_row_vectorized(buf, offset)
        } else {
            parse_row_naive(buf, offset)
        };
        let (name_end, row_end) = match res {
            Some(bounds) => bounds,
            None => break,
        };
        let station = String::from_utf8_lossy(&buf[offset..name_end]).to_string();
        let temp = parse_temp_slice(&buf[name_end + 1..row_end]).unwrap();
        rows.push(Row::new(station, temp));
        offset = row_end + 1;
    }
    rows
}

#[test]
fn test_parse_row_vectorized_multiple() {
    let buf = "St. Petersburg;10.2\nParis;44.2\n";

    let rows = collect_rows(buf.as_bytes(), true);

    assert_eq!(rows[0].station, "St. Petersburg");
    assert_eq!(rows[0].temperature, 102);

    assert_eq!(rows[1].station, "Paris");
    assert_eq!(rows[1].temperature, 442);
}

#[test]
fn test_parse_row_naive_multiple() {
    let buf = "St. Petersburg;10.2\nParis;44.2\n";

    let rows = collect_rows(buf.as_bytes(), false);

    assert_eq!(rows[0].station, "St. Petersburg");
    assert_eq!(rows[0].temperature, 102);

    assert_eq!(rows[1].station, "Paris");
    assert_eq!(rows[1].temperature, 442);
}

#[test]
fn naive_and_vectorized_agree_on_boundaries() {
    let buf = "Alpha;1.5\nB;-2\nLong station name;33.3\n";
    let mut offset = 0;
    loop {
        let a = parse_row_naive(buf.as_bytes(), offset);
        let b = parse_row_vectorized(buf.as_bytes(), offset);
        assert_eq!(a, b);
        match a {
            Some((_, row_end)) => offset = row_end + 1,
            None => break,
        }
    }
}

#[test]
fn seek_row_reports_row_sizes() {
    let buf = "ab;1\ncdef;2.5\n";
    assert_eq!(seek_row_naive(buf.as_bytes(), 0), Some(5));
    assert_eq!(seek_row_vectorized(buf.as_bytes(), 0), Some(5));
    assert_eq!(seek_row_naive(buf.as_bytes(), 5), Some(9));
    assert_eq!(seek_row_vectorized(buf.as_bytes(), 5), Some(9));
    assert_eq!(seek_row_naive(buf.as_bytes(), 14), None);
    assert_eq!(seek_row_vectorized(buf.as_bytes(), 14), None);
}

#[test]
fn temperature_grammar_accepts_plain_values() {
    assert_eq!(parse_temp_slice(b"1"), Some(10));
    assert_eq!(parse_temp_slice(b"0.0"), Some(0));
    assert_eq!(parse_temp_slice(b"-0.0"), Some(0));
    assert_eq!(parse_temp_slice(b"-9.2"), Some(-92));
    assert_eq!(parse_temp_slice(b"80.3"), Some(803));
    assert_eq!(parse_temp_slice(b"007.5"), Some(75));
    assert_eq!(parse_temp_slice(b"99999999.9"), Some(999_999_999));
    assert_eq!(parse_temp_slice(b"-99999999.9"), Some(-999_999_999));
}

#[test]
fn temperature_grammar_rejects_other_text() {
    assert_eq!(parse_temp_slice(b""), None);
    assert_eq!(parse_temp_slice(b"-"), None);
    assert_eq!(parse_temp_slice(b"."), None);
    assert_eq!(parse_temp_slice(b".5"), None);
    assert_eq!(parse_temp_slice(b"1."), None);
    assert_eq!(parse_temp_slice(b"1.23"), None);
    assert_eq!(parse_temp_slice(b"abc"), None);
    assert_eq!(parse_temp_slice(b"1a.2"), None);
    assert_eq!(parse_temp_slice(b"--1"), None);
    assert_eq!(parse_temp_slice(b"100000000"), None);
    assert_eq!(parse_temp_slice(b"999999999"), None);
}

#[test]
fn parser_error_carries_its_message() {
    let e = ParserError::new("boom");
    assert_eq!(e.message(), "boom");
}
