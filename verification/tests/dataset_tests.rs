use linear_regression::dataset::{fallback_dataset, load_dataset, parse_dataset, ParseError,
    Sample};
use linear_regression::fixed::Fx;

#[test]
fn fallback_has_24_documented_pairs() {
    let data = fallback_dataset();
    assert_eq!(data.len(), 24);
    assert_eq!(data[0], Sample { x: Fx { units: 240_000_000_000 }, y: Fx { units: 3_650_000_000 } });
    assert_eq!(data[23], Sample { x: Fx { units: 61_789_000_000 }, y: Fx { units: 8_290_000_000 } });
}

#[test]
fn two_column_rows_parse_after_header() {
    let text = b"km,price\n10000,20000\n20000.5,30000.25\n";
    let data = parse_dataset(text).unwrap();
    assert_eq!(data.len(), 2);
    assert_eq!(data[0].x.units, 10_000_000_000);
    assert_eq!(data[0].y.units, 20_000_000_000);
    assert_eq!(data[1].x.units, 20_000_500_000);
    assert_eq!(data[1].y.units, 30_000_250_000);
}

#[test]
fn header_only_or_empty_text_gives_empty_dataset() {
    assert_eq!(parse_dataset(b"km,price\n").unwrap().len(), 0);
    assert_eq!(parse_dataset(b"km,price").unwrap().len(), 0);
    assert_eq!(parse_dataset(b"").unwrap().len(), 0);
}

#[test]
fn one_bad_row_aborts_the_whole_load() {
    assert_eq!(parse_dataset(b"km,price\n10000,20000\noops,1\n"), Err(ParseError));
    assert_eq!(parse_dataset(b"km,price\n10000\n"), Err(ParseError));
    assert_eq!(parse_dataset(b"km,price\n1,2,3\n"), Err(ParseError));
    assert_eq!(parse_dataset(b"km,price\n1, 2\n"), Err(ParseError));
}

#[test]
fn blank_lines_and_crlf_are_tolerated() {
    let text = b"km,price\r\n10000,20000\r\n\r\n5,6\n\n";
    let data = parse_dataset(text).unwrap();
    assert_eq!(data.len(), 2);
    assert_eq!(data[1].x.units, 5_000_000);
    assert_eq!(data[1].y.units, 6_000_000);
}

#[test]
fn row_count_is_capped_at_the_supported_size() {
    let mut text = String::from("km,price\n");
    for _ in 0..100_000 {
        text.push_str("1,2\n");
    }
    assert_eq!(parse_dataset(text.as_bytes()).unwrap().len(), 100_000);
    text.push_str("1,2\n");
    assert_eq!(parse_dataset(text.as_bytes()), Err(ParseError));
}

#[test]
fn missing_or_malformed_source_falls_back() {
    let fallback = fallback_dataset();
    assert_eq!(load_dataset(None), fallback);
    assert_eq!(load_dataset(Some(b"km,price\nbroken\n")), fallback);
    let good = load_dataset(Some(b"km,price\n1,2\n"));
    assert_eq!(good.len(), 1);
    assert_eq!(good[0].x.units, 1_000_000);
}
