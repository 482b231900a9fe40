//! Reading a value from decimal text.

use crate::arith::fits_whole;
use crate::decimal::{ParseError, RocDec};
use crate::digits::{
    all_digits, decimal_text, digit_value, digits_value, is_digit, lemma_decimal_text,
    lemma_decimal_text_unique, lemma_digits_value_step, pow10, zeros,
};
use vstd::prelude::*;
use vstd::std_specs::convert::TryFromSpecImpl;
use vstd::string::*;
use vstd::utf8::is_ascii_chars;

verus! {

/// Where the first point stands, or the length of the text if it has none.
pub open spec fn first_point(s: Seq<char>) -> nat
    decreases s.len(),
{
    if s.len() == 0 || s[0] == '.' {
        0
    } else {
        1 + first_point(s.drop_first())
    }
}

/// The fraction word written by the text after the point: up to nineteen
/// digits, filled up with zeros on the right to exactly nineteen.
pub open spec fn parsed_fraction(s: Seq<char>) -> Option<u64> {
    if s.len() <= 19 && all_digits(s) {
        Some(digits_value(s + zeros((19 - s.len()) as nat)) as u64)
    } else {
        None
    }
}

/// The integer written by the text before the point: an optional `-` or `+`
/// and then at least one digit. The integer may be of any size.
pub open spec fn parsed_integer(s: Seq<char>) -> Option<int> {
    if s.len() > 0 && (s[0] == '-' || s[0] == '+') {
        let digits = s.subrange(1, s.len() as int);
        if digits.len() > 0 && all_digits(digits) {
            Some(
                if s[0] == '-' {
                    -(digits_value(digits) as int)
                } else {
                    digits_value(digits) as int
                },
            )
        } else {
            None
        }
    } else if s.len() > 0 && all_digits(s) {
        Some(digits_value(s) as int)
    } else {
        None
    }
}

/// The whole part of the highest value: one more than the whole word can hold.
pub open spec fn highest_whole_text() -> Seq<char> {
    decimal_text(0x8000_0000_0000_0000)
}

/// The whole part of the lowest value: one less than the whole word can hold.
pub open spec fn lowest_whole_text() -> Seq<char> {
    seq!['-'] + decimal_text(0x8000_0000_0000_0001)
}

/// The value that a text stands for, or the refusal of the text.
///
/// The text is split at its first point and must have one. What follows the
/// point must be a fraction of at most nineteen digits; a second point is no
/// digit, so a text with two points is refused. What precedes the point must
/// be an integer that fits the whole word, or one of the two whole parts that
/// lie one unit beyond it: those are stored with the whole word at its limit
/// and the extra unit as a pending carry in the fraction word, as far as the
/// fraction word can hold it.
pub open spec fn parsed(s: Seq<char>) -> Result<RocDec, ParseError> {
    let point = first_point(s) as int;
    if point >= s.len() {
        Err(ParseError {  })
    } else {
        let before = s.subrange(0, point);
        let after = s.subrange(point + 1, s.len() as int);
        match parsed_fraction(after) {
            None => Err(ParseError {  }),
            Some(lo) => {
                let whole = parsed_integer(before);
                if whole is Some && fits_whole(whole->0) {
                    Ok(RocDec { hi: whole->0 as i64, lo })
                } else if before == lowest_whole_text() && lo + RocDec::DECIMAL_MAX <= u64::MAX {
                    Ok(RocDec { hi: i64::MIN, lo: (lo + RocDec::DECIMAL_MAX) as u64 })
                } else if before == highest_whole_text() && lo + RocDec::DECIMAL_MAX <= u64::MAX {
                    Ok(RocDec { hi: i64::MAX, lo: (lo + RocDec::DECIMAL_MAX) as u64 })
                } else {
                    Err(ParseError {  })
                }
            },
        }
    }
}

/// The text that a run of bytes stands for, each byte read as the character
/// of that code. For ASCII text these are its characters.
pub open spec fn chars_of(bytes: Seq<u8>) -> Seq<char> {
    Seq::new(bytes.len(), |i: int| bytes[i] as char)
}

/// The first point is at `i` when a point stands there, or the text ends
/// there, and no point stands before.
pub proof fn lemma_first_point(s: Seq<char>, i: int)
    requires
        0 <= i <= s.len(),
        forall|j: int| 0 <= j < i ==> s[j] != '.',
        i < s.len() ==> s[i] == '.',
    ensures
        first_point(s) == i,
    decreases i,
{
    if i > 0 {
        let rest = s.drop_first();
        assert forall|j: int| 0 <= j < i - 1 implies rest[j] != '.' by {
            assert(rest[j] == s[j + 1]);
        }
        lemma_first_point(rest, i - 1);
    }
}

/// Finds the first point in the text.
fn find_point(bytes: &[u8]) -> (point: usize)
    ensures
        point == first_point(chars_of(bytes@)),
        point <= bytes.len(),
{
    let mut i: usize = 0;
    while i < bytes.len() && bytes[i] != 46
        invariant
            i <= bytes.len(),
            forall|j: int| 0 <= j < i ==> chars_of(bytes@)[j] != '.',
        decreases bytes.len() - i,
    {
        i = i + 1;
    }
    proof {
        lemma_first_point(chars_of(bytes@), i as int);
    }
    i
}

/// Reads the fraction word from the bytes that follow the point.
fn read_fraction(bytes: &[u8], start: usize) -> (r: Option<u64>)
    requires
        start <= bytes.len(),
    ensures
        r == parsed_fraction(chars_of(bytes@).subrange(start as int, bytes.len() as int)),
{
    let ghost after = chars_of(bytes@).subrange(start as int, bytes.len() as int);
    let len = bytes.len() - start;
    if len > 19 {
        return None;
    }
    let ghost padded = after + zeros((19 - len) as nat);
    let mut acc: u64 = 0;
    let mut i: usize = 0;
    while i < 19
        invariant
            i <= 19,
            len <= 19,
            len == bytes.len() - start,
            after == chars_of(bytes@).subrange(start as int, bytes.len() as int),
            padded == after + zeros((19 - len) as nat),
            padded.len() == 19,
            acc == digits_value(padded.take(i as int)),
            acc < pow10(i as nat),
            forall|j: int| 0 <= j < i && j < len ==> is_digit(#[trigger] after[j]),
        decreases 19 - i,
    {
        let c: u8 = if i < len { bytes[start + i] } else { 48 };
        if c < 48 || c > 57 {
            assert(!is_digit(after[i as int]));
            return None;
        }
        proof {
            reveal_with_fuel(pow10, 20);
            lemma_pow10_step(i as nat);
            lemma_digits_value_step(padded, i as int);
            assert(digit_value(padded[i as int]) == c - 48);
        }
        acc = acc * 10 + (c - 48) as u64;
        i = i + 1;
    }
    proof {
        assert(padded.take(19) =~= padded);
        assert(all_digits(after));
    }
    Some(acc)
}

/// Ten to a power up to eighteen leaves room for one more digit in 64 bits.
proof fn lemma_pow10_step(k: nat)
    requires
        k < 19,
    ensures
        pow10(k + 1) == 10 * pow10(k),
        pow10(k + 1) <= 10_000_000_000_000_000_000,
    decreases 19 - k,
{
    reveal_with_fuel(pow10, 2);
    if k < 18 {
        lemma_pow10_step(k + 1);
    } else {
        reveal_with_fuel(pow10, 20);
    }
}

/// A bound above every whole part that can be stored. Magnitudes are read
/// only up to it, so that texts of any length can be read in 128 bits.
pub const MAGNITUDE_CAP: u128 = 100_000_000_000_000_000_000;

/// A magnitude, read only up to the cap.
pub open spec fn capped(n: nat) -> nat {
    if n >= MAGNITUDE_CAP {
        MAGNITUDE_CAP as nat
    } else {
        n
    }
}

/// Reads a run of digits as a capped magnitude, or finds that one of the
/// bytes is no digit.
fn read_digits(bytes: &[u8], start: usize, end: usize) -> (r: Option<u128>)
    requires
        start <= end <= bytes.len(),
    ensures
        r is Some == all_digits(chars_of(bytes@).subrange(start as int, end as int)),
        r is Some ==> r->0 == capped(
            digits_value(chars_of(bytes@).subrange(start as int, end as int)),
        ),
{
    let ghost digits = chars_of(bytes@).subrange(start as int, end as int);
    let mut acc: u128 = 0;
    let mut i: usize = start;
    while i < end
        invariant
            start <= i <= end <= bytes.len(),
            digits == chars_of(bytes@).subrange(start as int, end as int),
            acc == capped(digits_value(digits.take(i - start))),
            forall|j: int| 0 <= j < i - start ==> is_digit(#[trigger] digits[j]),
        decreases end - i,
    {
        let c: u8 = bytes[i];
        if c < 48 || c > 57 {
            assert(!is_digit(digits[i - start]));
            return None;
        }
        proof {
            lemma_digits_value_step(digits, i - start);
            assert(digit_value(digits[i - start]) == c - 48);
        }
        let next: u128 = acc * 10 + (c - 48) as u128;
        acc = if next >= MAGNITUDE_CAP { MAGNITUDE_CAP } else { next };
        i = i + 1;
    }
    proof {
        assert(digits.take(end - start) =~= digits);
    }
    Some(acc)
}

/// What is known of the two whole parts that lie beyond the whole word.
pub proof fn lemma_limit_texts()
    ensures
        all_digits(highest_whole_text()),
        highest_whole_text().len() > 0,
        highest_whole_text()[0] != '0',
        digits_value(highest_whole_text()) == 0x8000_0000_0000_0000,
        lowest_whole_text().len() > 1,
        lowest_whole_text()[0] == '-',
        lowest_whole_text().subrange(1, lowest_whole_text().len() as int) == decimal_text(
            0x8000_0000_0000_0001,
        ),
{
    lemma_decimal_text(0x8000_0000_0000_0000);
    lemma_decimal_text(0x8000_0000_0000_0001);
    let low = lowest_whole_text();
    assert(low.subrange(1, low.len() as int) =~= decimal_text(0x8000_0000_0000_0001));
}

/// A text is the whole part of the highest value exactly when it is a run of
/// digits without a leading zero that is worth two to the 63rd.
proof fn lemma_is_highest(before: Seq<char>)
    ensures
        before == highest_whole_text() <==> (before.len() > 0 && all_digits(before) && before[0]
            != '0' && digits_value(before) == 0x8000_0000_0000_0000),
{
    lemma_limit_texts();
    if before.len() > 0 && all_digits(before) && before[0] != '0' {
        lemma_decimal_text_unique(before);
    }
}

/// A text is the whole part of the lowest value exactly when it is a minus
/// sign and a run of digits without a leading zero that is worth one more
/// than two to the 63rd.
proof fn lemma_is_lowest(before: Seq<char>)
    ensures
        before == lowest_whole_text() <==> (before.len() > 1 && before[0] == '-' && all_digits(
            before.subrange(1, before.len() as int),
        ) && before[1] != '0' && digits_value(before.subrange(1, before.len() as int))
            == 0x8000_0000_0000_0001),
{
    lemma_limit_texts();
    lemma_decimal_text(0x8000_0000_0000_0001);
    if before.len() > 1 {
        let tail = before.subrange(1, before.len() as int);
        assert(tail[0] == before[1]);
        let low = lowest_whole_text();
        assert(low[1] == decimal_text(0x8000_0000_0000_0001)[0]);
        if before[0] == '-' && all_digits(tail) && tail[0] != '0' && digits_value(tail)
            == 0x8000_0000_0000_0001 {
            lemma_decimal_text_unique(tail);
            assert(before =~= seq!['-'] + tail);
        }
    }
}

/// Reads a value from the bytes of a text. The contract is that of `parsed`,
/// on the characters that the bytes stand for.
pub fn read_text(bytes: &[u8]) -> (r: Result<RocDec, ParseError>)
    ensures
        r == parsed(chars_of(bytes@)),
{
    let ghost s = chars_of(bytes@);
    let n = bytes.len();
    let point = find_point(bytes);
    if point >= n {
        return Err(ParseError {  });
    }
    let ghost before = s.subrange(0, point as int);
    let lo = match read_fraction(bytes, point + 1) {
        None => {
            return Err(ParseError {  });
        },
        Some(lo) => lo,
    };
    proof {
        lemma_is_highest(before);
        lemma_is_lowest(before);
    }
    if point == 0 {
        return Err(ParseError {  });
    }
    let first = bytes[0];
    assert(before[0] == first as char);
    let negative = first == 45;
    let signed = negative || first == 43;
    let start: usize = if signed { 1 } else { 0 };
    let ghost digits = s.subrange(start as int, point as int);
    proof {
        if signed {
            assert(digits =~= before.subrange(1, before.len() as int));
            assert(!is_digit(before[0]));
        } else {
            assert(digits =~= before);
        }
    }
    if start == point {
        return Err(ParseError {  });
    }
    let magnitude = match read_digits(bytes, start, point) {
        None => {
            return Err(ParseError {  });
        },
        Some(magnitude) => magnitude,
    };
    assert(digits[0] == bytes[start as int] as char);
    if negative {
        if magnitude <= 0x8000_0000_0000_0000 {
            Ok(RocDec { hi: (0 - magnitude as i128) as i64, lo })
        } else if magnitude == 0x8000_0000_0000_0001 && bytes[1] != 48 {
            match lo.checked_add(RocDec::DECIMAL_MAX) {
                Some(lo) => Ok(RocDec { hi: i64::MIN, lo }),
                None => Err(ParseError {  }),
            }
        } else {
            Err(ParseError {  })
        }
    } else {
        if magnitude <= 0x7fff_ffff_ffff_ffff {
            Ok(RocDec { hi: magnitude as i64, lo })
        } else if !signed && magnitude == 0x8000_0000_0000_0000 && first != 48 {
            match lo.checked_add(RocDec::DECIMAL_MAX) {
                Some(lo) => Ok(RocDec { hi: i64::MAX, lo }),
                None => Err(ParseError {  }),
            }
        } else {
            Err(ParseError {  })
        }
    }
}

/// The first point is within the text or at its end, and a point stands there
/// if it is within.
proof fn lemma_first_point_is_point(s: Seq<char>)
    ensures
        first_point(s) <= s.len(),
        first_point(s) < s.len() ==> s[first_point(s) as int] == '.',
    decreases s.len(),
{
    if s.len() != 0 && s[0] != '.' {
        lemma_first_point_is_point(s.drop_first());
    }
}

/// Only texts made of digits, signs and a point are accepted, so every
/// accepted text is ASCII.
proof fn lemma_parsed_is_ascii(s: Seq<char>)
    requires
        parsed(s) is Ok,
    ensures
        is_ascii_chars(s),
{
    lemma_first_point_is_point(s);
    lemma_limit_texts();
    lemma_decimal_text(0x8000_0000_0000_0001);
    let point = first_point(s) as int;
    let before = s.subrange(0, point);
    let after = s.subrange(point + 1, s.len() as int);
    assert forall|i: int| 0 <= i < s.len() implies '\0' <= #[trigger] s[i] <= '\u{7f}' by {
        if i < point {
            assert(s[i] == before[i]);
            if i > 0 {
                let tail = before.subrange(1, before.len() as int);
                assert(before[i] == tail[i - 1]);
            }
        } else if i > point {
            assert(s[i] == after[i - point - 1]);
        }
    }
}

impl<'a> TryFrom<&'a str> for RocDec {
    type Error = ParseError;

    /// Reads a value from decimal text.
    fn try_from(value: &'a str) -> (r: Result<RocDec, ParseError>)
        ensures
            r == parsed(value@),
    {
        if !value.is_ascii() {
            proof {
                if parsed(value@) is Ok {
                    lemma_parsed_is_ascii(value@);
                }
            }
            return Err(ParseError {  });
        }
        let bytes = value.as_bytes();
        proof {
            broadcast use is_ascii_spec_bytes;

            assert(value@ =~= chars_of(bytes@));
        }
        read_text(bytes)
    }
}

impl<'a> TryFromSpecImpl<&'a str> for RocDec {
    open spec fn obeys_try_from_spec() -> bool {
        true
    }

    open spec fn try_from_spec(v: &'a str) -> Result<RocDec, ParseError> {
        parsed(v@)
    }
}

} // verus!
