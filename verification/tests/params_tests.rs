use linear_regression::fixed::Fx;
use linear_regression::params::{format_params, parse_params, CorruptError};

#[test]
fn format_is_canonical_line() {
    let line = format_params(Fx { units: 1_500_000 }, Fx { units: 2_500_000 });
    assert_eq!(line, b"1.500000,2.500000\n".to_vec());
}

#[test]
fn format_negative_and_zero() {
    let line = format_params(Fx { units: -500_000 }, Fx { units: 0 });
    assert_eq!(line, b"-0.500000,0.000000\n".to_vec());
}

#[test]
fn test_save_and_load_params() {
    let line = format_params(Fx { units: 1_500_000 }, Fx { units: 2_500_000 });
    let (theta0, theta1) = parse_params(&line).unwrap();
    assert_eq!(theta0.units, 1_500_000);
    assert_eq!(theta1.units, 2_500_000);
}

#[test]
fn round_trip_is_exact_for_many_values() {
    let samples: Vec<i64> = vec![
        0,
        1,
        -1,
        999_999,
        -999_999,
        1_000_000,
        42_125_000,
        -42_125_000,
        1_000_000_000_000,
        -1_000_000_000_000,
    ];
    for &units in &samples {
        let line = format_params(Fx { units }, Fx { units: -units });
        let (a, b) = parse_params(&line).unwrap();
        assert_eq!(a.units, units);
        assert_eq!(b.units, -units);
    }
}

#[test]
fn malformed_line_is_corrupt_not_default() {
    assert_eq!(parse_params(b"abc"), Err(CorruptError));
    assert_eq!(parse_params(b"abc\n"), Err(CorruptError));
    assert_eq!(parse_params(b"1.5"), Err(CorruptError));
    assert_eq!(parse_params(b"1.5,abc\n"), Err(CorruptError));
    assert_eq!(parse_params(b"1,2,3\n"), Err(CorruptError));
    assert_eq!(parse_params(b",\n"), Err(CorruptError));
}

#[test]
fn empty_file_reads_as_untrained() {
    let (a, b) = parse_params(b"").unwrap();
    assert_eq!(a.units, 0);
    assert_eq!(b.units, 0);
}

#[test]
fn fields_are_trimmed_and_only_first_line_counts() {
    let (a, b) = parse_params(b" 0.500000 ,\t-0.250000\njunk on later lines\n").unwrap();
    assert_eq!(a.units, 500_000);
    assert_eq!(b.units, -250_000);
}

#[test]
fn plain_integers_and_signs_parse() {
    let (a, b) = parse_params(b"+3,-4\n").unwrap();
    assert_eq!(a.units, 3_000_000);
    assert_eq!(b.units, -4_000_000);
}

#[test]
fn out_of_range_or_overlong_fraction_is_corrupt() {
    assert_eq!(parse_params(b"1000001.000000,0\n"), Err(CorruptError));
    assert_eq!(parse_params(b"0.1234567,0\n"), Err(CorruptError));
    assert_eq!(parse_params(b"1e5,0\n"), Err(CorruptError));
}
