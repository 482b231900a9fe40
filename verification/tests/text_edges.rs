use roc_dec::parse::read_text;
use roc_dec::{ParseError, RocDec};

const DECIMAL_MAX: u64 = 10_000_000_000_000_000_000;

fn parse(text: &str) -> Result<RocDec, ParseError> {
    RocDec::try_from(text)
}

#[test]
fn to_string_folds_a_pending_carry() {
    assert_eq!(RocDec::new(0, DECIMAL_MAX + 5).to_string(), "1.0000000000000000005");
    assert_eq!(RocDec::new(0, u64::MAX).to_string(), "1.8446744073709551615");
    assert_eq!(RocDec::new(-1, DECIMAL_MAX).to_string(), "-2.0");
    assert_eq!(RocDec::new(-360, DECIMAL_MAX + 42).to_string(), "-361.0000000000000000042");
    assert_eq!(RocDec::new(i64::MAX - 1, DECIMAL_MAX).to_string(), "9223372036854775807.0");
    assert_eq!(RocDec::new(i64::MIN + 1, DECIMAL_MAX).to_string(), "-9223372036854775808.0");
}

#[test]
fn to_string_strips_trailing_zeros_only() {
    assert_eq!(RocDec::new(1, 5_000_000_000_000_000_000).to_string(), "1.5");
    assert_eq!(RocDec::new(1, 10).to_string(), "1.000000000000000001");
    assert_eq!(RocDec::new(-5, 1200).to_string(), "-5.00000000000000012");
    assert_eq!(RocDec::new(100, 1_000_000_000_000_000_000).to_string(), "100.1");
    assert_eq!(RocDec::new(0, 9_000_000_000_000_000_009).to_string(), "0.9000000000000000009");
}

#[test]
fn to_string_boundary_values() {
    assert_eq!(RocDec::new(i64::MIN, 0).to_string(), "-9223372036854775808.0");
    assert_eq!(RocDec::new(i64::MIN, DECIMAL_MAX).to_string(), "-9223372036854775809.0");
    assert_eq!(RocDec::new(i64::MAX, DECIMAL_MAX).to_string(), "9223372036854775808.0");
}

#[test]
fn string_from_value() {
    let text: String = RocDec::new(-12, 3_400_000_000_000_000_000).into();
    assert_eq!(text, "-12.34");
    assert_eq!(String::from(RocDec::new(0, 0)), "0.0");
}

#[test]
fn parse_plain_values() {
    assert_eq!(parse("0.0"), Ok(RocDec::new(0, 0)));
    assert_eq!(parse("12.34"), Ok(RocDec::new(12, 3_400_000_000_000_000_000)));
    assert_eq!(parse("-12.34"), Ok(RocDec::new(-12, 3_400_000_000_000_000_000)));
    assert_eq!(parse("1.0000000000000000001"), Ok(RocDec::new(1, 1)));
    assert_eq!(parse("1.9999999999999999999"), Ok(RocDec::new(1, 9_999_999_999_999_999_999)));
    assert_eq!(parse("9223372036854775807.5"), Ok(RocDec::new(i64::MAX, 5_000_000_000_000_000_000)));
    assert_eq!(parse("-9223372036854775808.5"), Ok(RocDec::new(i64::MIN, 5_000_000_000_000_000_000)));
}

#[test]
fn parse_signs_and_leading_zeros() {
    assert_eq!(parse("+5.5"), Ok(RocDec::new(5, 5_000_000_000_000_000_000)));
    assert_eq!(parse("-0.5"), Ok(RocDec::new(0, 5_000_000_000_000_000_000)));
    assert_eq!(parse("007.25"), Ok(RocDec::new(7, 2_500_000_000_000_000_000)));
    assert_eq!(parse("-007.25"), Ok(RocDec::new(-7, 2_500_000_000_000_000_000)));
    assert_eq!(parse("0000000000000000000000000000000000000001.0"), Ok(RocDec::new(1, 0)));
    assert_eq!(
        parse("-00000000000000000000009223372036854775808.0"),
        Ok(RocDec::new(i64::MIN, 0))
    );
}

#[test]
fn parse_empty_fraction_is_zero() {
    assert_eq!(parse("5."), Ok(RocDec::new(5, 0)));
    assert_eq!(parse("-5."), Ok(RocDec::new(-5, 0)));
}

#[test]
fn parse_needs_exactly_one_point() {
    assert_eq!(parse(""), Err(ParseError {}));
    assert_eq!(parse("123"), Err(ParseError {}));
    assert_eq!(parse("-123"), Err(ParseError {}));
    assert_eq!(parse("1.2.3"), Err(ParseError {}));
    assert_eq!(parse("1..2"), Err(ParseError {}));
    assert_eq!(parse("1.2."), Err(ParseError {}));
    assert_eq!(parse(".1.2"), Err(ParseError {}));
}

#[test]
fn parse_refuses_what_is_not_a_number() {
    assert_eq!(parse("."), Err(ParseError {}));
    assert_eq!(parse(".5"), Err(ParseError {}));
    assert_eq!(parse("-.5"), Err(ParseError {}));
    assert_eq!(parse("+.5"), Err(ParseError {}));
    assert_eq!(parse("abc.1"), Err(ParseError {}));
    assert_eq!(parse("1.abc"), Err(ParseError {}));
    assert_eq!(parse("1.2a"), Err(ParseError {}));
    assert_eq!(parse("1a.2"), Err(ParseError {}));
    assert_eq!(parse(" 1.0"), Err(ParseError {}));
    assert_eq!(parse("1.0 "), Err(ParseError {}));
    assert_eq!(parse("1.+5"), Err(ParseError {}));
    assert_eq!(parse("1.-5"), Err(ParseError {}));
    assert_eq!(parse("--1.5"), Err(ParseError {}));
    assert_eq!(parse("1-.5"), Err(ParseError {}));
    assert_eq!(parse("1,5"), Err(ParseError {}));
    assert_eq!(parse("1/.5"), Err(ParseError {}));
    assert_eq!(parse("1:.5"), Err(ParseError {}));
}

#[test]
fn parse_refuses_other_scripts() {
    assert_eq!(parse("\u{ff11}.0"), Err(ParseError {}));
    assert_eq!(parse("1.\u{ff10}"), Err(ParseError {}));
    assert_eq!(parse("\u{e9}.1"), Err(ParseError {}));
    assert_eq!(parse("1\u{2024}5"), Err(ParseError {}));
}

#[test]
fn parse_refuses_a_fraction_of_twenty_digits() {
    assert_eq!(parse("1.00000000000000000001"), Err(ParseError {}));
    assert_eq!(parse("1.00000000000000000000"), Err(ParseError {}));
    assert_eq!(parse("1.0000000000000000000"), Ok(RocDec::new(1, 0)));
}

#[test]
fn parse_refuses_a_whole_part_out_of_range() {
    assert_eq!(parse("9223372036854775809.0"), Err(ParseError {}));
    assert_eq!(parse("-9223372036854775810.0"), Err(ParseError {}));
    assert_eq!(parse("99999999999999999999.0"), Err(ParseError {}));
    assert_eq!(parse("100000000000000000000.0"), Err(ParseError {}));
    assert_eq!(parse("340282366920938463463374607431768211456.0"), Err(ParseError {}));
    assert_eq!(parse("-99999999999999999999999999999999999999999999.0"), Err(ParseError {}));
}

#[test]
fn parse_one_beyond_the_whole_word() {
    assert_eq!(parse("9223372036854775808.0"), Ok(RocDec::new(i64::MAX, DECIMAL_MAX)));
    assert_eq!(parse("-9223372036854775809.0"), Ok(RocDec::new(i64::MIN, DECIMAL_MAX)));
    assert_eq!(
        parse("9223372036854775808.8446744073709551615"),
        Ok(RocDec::new(i64::MAX, u64::MAX))
    );
    assert_eq!(
        parse("-9223372036854775809.8446744073709551615"),
        Ok(RocDec::new(i64::MIN, u64::MAX))
    );
    let text = "-9223372036854775809.8446744073709551615";
    assert_eq!(parse(text).unwrap().to_string(), text);
}

#[test]
fn parse_one_beyond_needs_room_in_the_fraction_word() {
    assert_eq!(parse("9223372036854775808.8446744073709551616"), Err(ParseError {}));
    assert_eq!(parse("-9223372036854775809.8446744073709551616"), Err(ParseError {}));
    assert_eq!(parse("9223372036854775808.9"), Err(ParseError {}));
}

#[test]
fn parse_one_beyond_only_as_written() {
    assert_eq!(parse("+9223372036854775808.0"), Err(ParseError {}));
    assert_eq!(parse("09223372036854775808.0"), Err(ParseError {}));
    assert_eq!(parse("-09223372036854775809.0"), Err(ParseError {}));
}

#[test]
fn read_text_takes_bytes() {
    assert_eq!(read_text(b"12.5"), Ok(RocDec::new(12, 5_000_000_000_000_000_000)));
    assert_eq!(read_text(b""), Err(ParseError {}));
    assert_eq!(read_text(&[0xff, b'.', b'0']), Err(ParseError {}));
    assert_eq!(read_text(&[b'1', b'.', 0x80]), Err(ParseError {}));
}

#[test]
fn text_round_trip() {
    let values = [
        RocDec::new(0, 0),
        RocDec::new(0, 1),
        RocDec::new(0, u64::MAX),
        RocDec::new(5, DECIMAL_MAX + 3),
        RocDec::new(-5, DECIMAL_MAX + 3),
        RocDec::new(-1, 9_999_999_999_999_999_999),
        RocDec::new(i64::MAX, 0),
        RocDec::new(i64::MAX, u64::MAX),
        RocDec::new(i64::MAX - 1, u64::MAX),
        RocDec::new(i64::MIN, 0),
        RocDec::new(i64::MIN, u64::MAX),
        RocDec::new(i64::MIN + 1, u64::MAX),
        RocDec::new(123_456_789, 1_230_000_000_000_000_000),
    ];
    for v in values {
        let text = v.to_string();
        let back = parse(&text).unwrap();
        assert_eq!(back.to_string(), text);
    }
    assert_eq!(parse(&RocDec::new(5, DECIMAL_MAX + 3).to_string()), Ok(RocDec::new(6, 3)));
    assert_eq!(parse(&RocDec::new(-5, DECIMAL_MAX + 3).to_string()), Ok(RocDec::new(-6, 3)));
    assert_eq!(
        parse(&RocDec::new(i64::MAX, u64::MAX).to_string()),
        Ok(RocDec::new(i64::MAX, u64::MAX))
    );
}
