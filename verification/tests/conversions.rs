use roc_dec::RocDec;
use std::convert::TryInto;

fn assert_reflexive(hi: i64, lo: u64, expected_str: &str) {
    let dec = RocDec::new(hi, lo);
    let string = dec.to_string();

    assert_eq!(&string, expected_str);

    // There's more than one way to represent a given string as a RocDec,
    // but if we convert it into a RocDec and then back into a string again,
    // it should be the same as the string we started from.
    assert_eq!(
        Ok(RocDec::new(hi, lo).to_string()),
        string.as_str().try_into().map(RocDec::to_string)
    );
}

#[test]
fn to_string() {
    // zero low bits
    assert_reflexive(0, 0, "0.0");
    assert_reflexive(1, 0, "1.0");
    assert_reflexive(-1, 0, "-1.0");
    assert_reflexive(10, 0, "10.0");
    assert_reflexive(-10, 0, "-10.0");
    assert_reflexive(360, 0, "360.0");
    assert_reflexive(-360, 0, "-360.0");

    // different sized high bits and low bits
    assert_reflexive(0, 1, "0.0000000000000000001");
    assert_reflexive(360, 1, "360.0000000000000000001");
    assert_reflexive(360, 100, "360.00000000000000001");
    assert_reflexive(360, 120, "360.000000000000000012");
    assert_reflexive(3600, 120, "3600.000000000000000012");

    // edge cases: what if there are more than 19 decimal digits stored
    // in the low bits?
    assert_reflexive(360, 9999999999999999999, "360.9999999999999999999");
    assert_reflexive(360, 10000000000000000000, "361.0");
    assert_reflexive(360, 10000000000000000001, "361.0000000000000000001");
    assert_reflexive(360, 10000000000000000042, "361.0000000000000000042");
    assert_reflexive(
        360,
        u64::MAX,
        &format!("361.{}", u64::MAX - RocDec::DECIMAL_MAX),
    );
    assert_reflexive(i64::MAX, 0, "9223372036854775807.0");
    assert_reflexive(i64::MIN, 0, "-9223372036854775808.0");
    assert_reflexive(
        i64::MAX,
        u64::MAX,
        "9223372036854775808.8446744073709551615",
    );
    assert_reflexive(
        i64::MIN,
        u64::MAX,
        "-9223372036854775809.8446744073709551615",
    );
}
