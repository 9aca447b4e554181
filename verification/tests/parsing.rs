use fundu::Duration;
use fundu::DurationParser;
use fundu::ParseError;
use fundu::TimeUnit;

fn dur(secs: u64, nanos: u32) -> Duration {
    Duration::new(secs, nanos)
}

#[test]
fn one_nanosecond() {
    let parser = DurationParser::new();
    assert_eq!(parser.parse("1ns"), Ok(dur(0, 1)));
}

#[test]
fn one_of_each_unit() {
    let parser = DurationParser::new();
    assert_eq!(parser.parse("1ns"), Ok(dur(0, 1)));
    assert_eq!(parser.parse("1Ms"), Ok(dur(0, 1_000)));
    assert_eq!(parser.parse("1ms"), Ok(dur(0, 1_000_000)));
    assert_eq!(parser.parse("1s"), Ok(dur(1, 0)));
    assert_eq!(parser.parse("1m"), Ok(dur(60, 0)));
    assert_eq!(parser.parse("1h"), Ok(dur(3600, 0)));
    assert_eq!(parser.parse("1d"), Ok(dur(86400, 0)));
    assert_eq!(parser.parse("1w"), Ok(dur(604800, 0)));
    assert_eq!(parser.parse("1M"), Ok(dur(2629800, 0)));
    assert_eq!(parser.parse("1y"), Ok(dur(31557600, 0)));
}

#[test]
fn bare_number_defaults_to_seconds() {
    let parser = DurationParser::new();
    assert_eq!(parser.parse("1"), Ok(dur(1, 0)));
    assert_eq!(parser.parse("42"), Ok(dur(42, 0)));
}

#[test]
fn fractional_exactness() {
    let parser = DurationParser::new();
    assert_eq!(parser.parse("1.5m"), Ok(dur(90, 0)));
    assert_eq!(parser.parse("1.5h"), Ok(dur(5400, 0)));
    assert_eq!(parser.parse("0.5"), Ok(dur(0, 500_000_000)));
    assert_eq!(parser.parse(".5"), Ok(dur(0, 500_000_000)));
    assert_eq!(parser.parse("5."), Ok(dur(5, 0)));
}

#[test]
fn scientific_exponents() {
    let parser = DurationParser::new();
    assert_eq!(parser.parse("1e3"), Ok(dur(1000, 0)));
    assert_eq!(parser.parse("1.23e2"), Ok(dur(123, 0)));
    assert_eq!(parser.parse("1e-9"), Ok(dur(0, 1)));
    assert_eq!(parser.parse("1E3"), Ok(dur(1000, 0)));
    assert_eq!(parser.parse("1e+3"), Ok(dur(1000, 0)));
    assert_eq!(
        parser.parse("123456789.123456789e+5"),
        Ok(dur(12_345_678_912_345, 678_900_000))
    );
}

#[test]
fn sub_nanosecond_truncates_toward_zero() {
    let parser = DurationParser::new();
    assert_eq!(parser.parse("0.5ns"), Ok(dur(0, 0)));
    assert_eq!(parser.parse("1.9ns"), Ok(dur(0, 1)));
    assert_eq!(parser.parse("0.0000000001"), Ok(dur(0, 0)));
}

#[test]
fn far_negative_exponent_underflows_to_zero() {
    let parser = DurationParser::new();
    assert_eq!(parser.parse("1e-1000"), Ok(dur(0, 0)));
    assert_eq!(parser.parse("1e-100000000000000000000000000000000000000"), Ok(dur(0, 0)));
}

#[test]
fn far_positive_exponent_saturates_to_max() {
    let parser = DurationParser::new();
    let max = dur(u64::MAX, 999_999_999);
    assert_eq!(parser.parse("1e1000"), Ok(max));
    assert_eq!(parser.parse("1e100000000000000000000000000000000000000"), Ok(max));
    let thousand_digits = "9".repeat(1000);
    assert_eq!(parser.parse(&thousand_digits), Ok(max));
}

#[test]
fn saturation_boundary_is_exact() {
    let parser = DurationParser::new();
    assert_eq!(
        parser.parse("18446744073709551615s"),
        Ok(dur(u64::MAX, 0))
    );
    assert_eq!(
        parser.parse("18446744073709551615.999999999s"),
        Ok(dur(u64::MAX, 999_999_999))
    );
    assert_eq!(
        parser.parse("18446744073709551616s"),
        Ok(dur(u64::MAX, 999_999_999))
    );
}

#[test]
fn parsing_twice_is_identical() {
    let parser = DurationParser::new();
    let first = parser.parse("123.456e-2m");
    let second = parser.parse("123.456e-2m");
    assert_eq!(first, second);
    let other = DurationParser::without_time_units();
    assert_eq!(other.parse("7"), Ok(dur(7, 0)));
    // the other parser's table does not influence the first parser
    assert_eq!(parser.parse("123.456e-2m"), first);
}

#[test]
fn negative_is_rejected() {
    let parser = DurationParser::new();
    assert_eq!(parser.parse("-1s"), Err(ParseError::NegativeValue { offset: 0 }));
    assert_eq!(parser.parse("-0"), Err(ParseError::NegativeValue { offset: 0 }));
}

#[test]
fn case_of_identifiers_is_load_bearing() {
    let parser = DurationParser::new();
    let micro = parser.parse("1Ms").unwrap();
    let milli = parser.parse("1ms").unwrap();
    assert_eq!(micro, dur(0, 1_000));
    assert_eq!(milli, dur(0, 1_000_000));
    assert_eq!(milli.subsec_nanos(), 1000 * micro.subsec_nanos());
    assert_eq!(parser.parse("1m"), Ok(dur(60, 0)));
    assert_eq!(parser.parse("1M"), Ok(dur(2_629_800, 0)));
}

#[test]
fn adversarially_long_inputs_parse_exactly() {
    let parser = DurationParser::new();
    // five thousand digits, value 10^4999, far past saturation
    let mut big = String::from("1");
    big.push_str(&"0".repeat(4999));
    assert_eq!(parser.parse(&big), Ok(dur(u64::MAX, 999_999_999)));
    // a long zero-heavy mantissa whose value is tiny but exact
    let mut tiny = String::from("0.");
    tiny.push_str(&"0".repeat(4000));
    let mut tiny_one = tiny.clone();
    tiny_one.push('1');
    assert_eq!(parser.parse(&tiny_one), Ok(dur(0, 0)));
    // a long mantissa pulled back into range by its exponent
    let mut pulled = String::from("1");
    pulled.push_str(&"0".repeat(3000));
    pulled.push_str("e-3000");
    assert_eq!(parser.parse(&pulled), Ok(dur(1, 0)));
}

#[test]
fn empty_input_is_rejected() {
    let parser = DurationParser::new();
    assert_eq!(parser.parse(""), Err(ParseError::EmptyInput));
}

#[test]
fn malformed_numbers_are_rejected_with_offsets() {
    let parser = DurationParser::new();
    assert_eq!(parser.parse("e5"), Err(ParseError::InvalidNumber { offset: 0 }));
    assert_eq!(parser.parse("+"), Err(ParseError::InvalidNumber { offset: 1 }));
    assert_eq!(parser.parse("."), Err(ParseError::InvalidNumber { offset: 0 }));
    assert_eq!(parser.parse("1e"), Err(ParseError::InvalidNumber { offset: 2 }));
    assert_eq!(parser.parse("1e+"), Err(ParseError::InvalidNumber { offset: 3 }));
    assert_eq!(parser.parse("1.2e-"), Err(ParseError::InvalidNumber { offset: 5 }));
}

#[test]
fn unknown_suffix_is_rejected_with_its_text() {
    let parser = DurationParser::new();
    assert_eq!(
        parser.parse("1x"),
        Err(ParseError::UnknownUnit { offset: 1, text: b"x".to_vec() })
    );
    assert_eq!(
        parser.parse("1.5 m"),
        Err(ParseError::UnknownUnit { offset: 3, text: b" m".to_vec() })
    );
}

#[test]
fn trailing_bytes_without_units_are_rejected() {
    let parser = DurationParser::without_time_units();
    assert_eq!(parser.parse("1s"), Err(ParseError::TrailingCharacters { offset: 1 }));
    assert_eq!(parser.parse("1"), Ok(dur(1, 0)));
}

#[test]
fn zeros_and_leading_zeros() {
    let parser = DurationParser::new();
    assert_eq!(parser.parse("0"), Ok(dur(0, 0)));
    assert_eq!(parser.parse("0.0ns"), Ok(dur(0, 0)));
    assert_eq!(parser.parse("00042s"), Ok(dur(42, 0)));
    assert_eq!(parser.parse("1e0"), Ok(dur(1, 0)));
    assert_eq!(parser.parse("0e1000"), Ok(dur(0, 0)));
}

#[test]
fn whitespace_is_not_tolerated() {
    let parser = DurationParser::new();
    assert_eq!(
        parser.parse("1 "),
        Err(ParseError::UnknownUnit { offset: 1, text: b" ".to_vec() })
    );
    let bare = DurationParser::without_time_units();
    assert_eq!(bare.parse("1 "), Err(ParseError::TrailingCharacters { offset: 1 }));
}

#[test]
fn leading_plus_is_accepted() {
    let parser = DurationParser::new();
    assert_eq!(parser.parse("+1s"), Ok(dur(1, 0)));
    assert_eq!(parser.parse("+1.5m"), Ok(dur(90, 0)));
}

#[test]
fn custom_unit_tables_restrict_lookup() {
    let parser = DurationParser::with_time_units(&[TimeUnit::NanoSecond, TimeUnit::Minute]);
    assert_eq!(parser.parse("42ns"), Ok(dur(0, 42)));
    assert_eq!(parser.parse("2m"), Ok(dur(120, 0)));
    assert_eq!(
        parser.parse("1h"),
        Err(ParseError::UnknownUnit { offset: 1, text: b"h".to_vec() })
    );
}

#[test]
fn configured_default_unit_applies_to_bare_numbers() {
    let mut parser = DurationParser::new();
    parser.set_default_unit(TimeUnit::Minute);
    assert_eq!(parser.parse("2"), Ok(dur(120, 0)));
    assert_eq!(parser.parse("2s"), Ok(dur(2, 0)));
}
