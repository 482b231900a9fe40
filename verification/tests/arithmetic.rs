use roc_dec::RocDec;
use std::convert::TryInto;

fn assert_added(hi1: i64, lo1: u64, hi2: i64, lo2: u64, expected: &str) {
    let dec1 = RocDec::new(hi1, lo1);
    let dec2 = RocDec::new(hi2, lo2);

    assert_eq!(expected, dec1.add(dec2).unwrap().to_string());
}

fn assert_add(dec1: &str, dec2: &str, expected: &str) {
    let dec1: RocDec = dec1.try_into().unwrap();
    let dec2: RocDec = dec2.try_into().unwrap();

    assert_eq!(expected, dec1.add(dec2).unwrap().to_string());
}

fn assert_subtracted(hi1: i64, lo1: u64, hi2: i64, lo2: u64, expected: &str) {
    let dec1 = RocDec::new(hi1, lo1);
    let dec2 = RocDec::new(hi2, lo2);

    assert_eq!(expected, dec1.sub(dec2).unwrap().to_string());
}

fn assert_sub(dec1: &str, dec2: &str, expected: &str) {
    let dec1: RocDec = dec1.try_into().unwrap();
    let dec2: RocDec = dec2.try_into().unwrap();

    assert_eq!(expected, dec1.sub(dec2).unwrap().to_string());
}

fn assert_multiplied(hi1: i64, lo1: u64, hi2: i64, lo2: u64, expected: &str) {
    let dec1 = RocDec::new(hi1, lo1);
    let dec2 = RocDec::new(hi2, lo2);

    assert_eq!(expected, dec1.mul(dec2).unwrap().to_string());
}

fn assert_mul(dec1: &str, dec2: &str, expected: &str) {
    let dec1: RocDec = dec1.try_into().unwrap();
    let dec2: RocDec = dec2.try_into().unwrap();

    assert_eq!(expected, dec1.mul(dec2).unwrap().to_string());
}

#[test]
fn add() {
    // integers
    assert_added(0, 0, 0, 0, "0.0");
    assert_add("0.0", "0.0", "0.0");
    assert_added(360, 0, 360, 0, "720.0");
    assert_add("360.0", "360.0", "720.0");
    assert_added(123, 0, 456, 0, "579.0");
    assert_add("123.0", "456.0", "579.0");

    // non-integers
    assert_add("0.1", "0.2", "0.3");
    assert_added(111, 555, 222, 444, "333.0000000000000000999");
    assert_add(
        "111.0000000000000000555",
        "222.0000000000000000444",
        "333.0000000000000000999",
    );
}

#[test]
fn sub() {
    // integers
    assert_subtracted(0, 0, 0, 0, "0.0");
    assert_sub("0.0", "0.0", "0.0");
    assert_subtracted(360, 0, 360, 0, "0.0");
    assert_sub("360.0", "360.0", "0.0");
    assert_subtracted(123, 0, 456, 0, "-333.0");
    assert_sub("123.0", "456.0", "-333.0");

    // non-integers
    assert_sub("0.3", "0.2", "0.1");
    assert_subtracted(111, 555, 222, 444, "-111.0000000000000000111");
    assert_sub(
        "111.0000000000000000555",
        "222.0000000000000000444",
        "-111.0000000000000000111",
    );
}

#[test]
fn mul() {
    // integers
    assert_multiplied(0, 0, 0, 0, "0.0");
    assert_mul("0.0", "0.0", "0.0");
    assert_multiplied(2, 0, 3, 0, "6.0");
    assert_mul("2.0", "3.0", "6.0");
    assert_mul("2.0", "3.0", "6.0");
    assert_mul("15.0", "74.0", "1110.0");

    // non-integers
    assert_mul("1.1", "2.2", "2.42");
    assert_mul("2.0", "1.5", "3.0");
    assert_mul("2.3", "3.8", "8.74");
    assert_mul("1.01", "7.02", "7.0902");
    assert_mul("1.001", "7.002", "7.009002");
    assert_mul("1.0001", "7.0002", "7.00090002");
    assert_mul("1.00001", "7.00002", "7.0000900002");
    assert_mul("1.000001", "7.000002", "7.000009000002");
    assert_mul("1.0000001", "7.0000002", "7.00000090000002");
    assert_mul("1.00000001", "7.00000002", "7.0000000900000002");
    assert_mul("1.000000001", "7.000000002", "7.000000009000000002");
    assert_mul("-1.000000001", "7.000000002", "-7.000000009000000002");
    assert_mul("1.000000001", "-7.000000002", "-7.000000009000000002");
}
