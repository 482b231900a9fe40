use roc_dec::decimalize;

const DECIMAL_MAX: u128 = 10_000_000_000_000_000_000;

#[test]
fn decimalize_small_numbers() {
    assert_eq!(decimalize(0), (0, 0));
    assert_eq!(decimalize(1), (0, 1));
    assert_eq!(decimalize(DECIMAL_MAX - 1), (0, 9_999_999_999_999_999_999));
    assert_eq!(decimalize(DECIMAL_MAX), (1, 0));
    assert_eq!(decimalize(DECIMAL_MAX + 1), (1, 1));
}

#[test]
fn decimalize_splits_by_ten_to_the_nineteenth() {
    assert_eq!(
        decimalize(12_345_678_901_234_567_890_123_456_789),
        (1_234_567_890, 1_234_567_890_123_456_789)
    );
    assert_eq!(decimalize(u64::MAX as u128), (1, 8_446_744_073_709_551_615));
    assert_eq!(
        decimalize(1u128 << 126),
        (8_507_059_173_023_461_586, 5_843_651_857_942_052_864)
    );
}

#[test]
fn decimalize_largest_quotient() {
    let num: u128 = 184_467_440_737_095_516_159_999_999_999_999_999_999;
    assert_eq!(decimalize(num), (u64::MAX, 9_999_999_999_999_999_999));
    assert_eq!(decimalize(num - 9_999_999_999_999_999_999), (u64::MAX, 0));
}

#[test]
fn decimalize_agrees_with_division() {
    let mut num: u128 = 1;
    while num < (1u128 << 126) {
        let (hi, lo) = decimalize(num);
        assert_eq!(hi as u128, num / DECIMAL_MAX);
        assert_eq!(lo as u128, num % DECIMAL_MAX);
        num = num * 3 + 7;
    }
}
