//! Decimal digit sequences: what a run of digit characters is worth, and the
//! characters that a number is written with.

use vstd::prelude::*;
use vstd::string::*;

verus! {

/// One of the ten decimal digit characters.
pub open spec fn is_digit(c: char) -> bool {
    '0' <= c <= '9'
}

/// The number that a digit character stands for.
pub open spec fn digit_value(c: char) -> nat {
    (c as int - '0' as int) as nat
}

/// The character for a digit below ten.
pub open spec fn digit_char(d: nat) -> char {
    ((d + 48) as u8) as char
}

/// Every character is a decimal digit.
pub open spec fn all_digits(s: Seq<char>) -> bool {
    forall|i: int| 0 <= i < s.len() ==> is_digit(#[trigger] s[i])
}

/// The number written by a run of digits, most significant first. The empty
/// run is worth zero.
pub open spec fn digits_value(s: Seq<char>) -> nat
    decreases s.len(),
{
    if s.len() == 0 {
        0
    } else {
        digits_value(s.drop_last()) * 10 + digit_value(s.last())
    }
}

/// The digits of `n` without leading zeros; zero is written as one digit.
pub open spec fn decimal_text(n: nat) -> Seq<char>
    decreases n,
{
    if n < 10 {
        seq![digit_char(n)]
    } else {
        decimal_text(n / 10).push(digit_char(n % 10))
    }
}

/// The lowest `width` digits of `n`, with leading zeros.
pub open spec fn padded_text(n: nat, width: nat) -> Seq<char>
    decreases width,
{
    if width == 0 {
        Seq::empty()
    } else {
        padded_text(n / 10, (width - 1) as nat).push(digit_char(n % 10))
    }
}

/// A run of `count` zero digits.
pub open spec fn zeros(count: nat) -> Seq<char> {
    Seq::new(count, |i: int| '0')
}

/// The sequence without its trailing zero digits.
pub open spec fn trim_zeros(s: Seq<char>) -> Seq<char>
    decreases s.len(),
{
    if s.len() > 0 && s.last() == '0' {
        trim_zeros(s.drop_last())
    } else {
        s
    }
}

/// Ten to the power `k`.
pub open spec fn pow10(k: nat) -> nat
    decreases k,
{
    if k == 0 {
        1
    } else {
        10 * pow10((k - 1) as nat)
    }
}

/// A digit character and its value determine each other.
pub proof fn lemma_digit_char(d: nat)
    requires
        d < 10,
    ensures
        is_digit(digit_char(d)),
        digit_value(digit_char(d)) == d,
        digit_char(d) != '.',
        digit_char(d) != '-',
        digit_char(d) != '+',
        (digit_char(d) == '0') == (d == 0),
{
}

/// A digit is the character of its value.
pub proof fn lemma_digit_value(c: char)
    requires
        is_digit(c),
    ensures
        digit_value(c) < 10,
        digit_char(digit_value(c)) == c,
{
}

/// The one-character text of a digit below ten.
pub(crate) fn digit_str(d: u64) -> (r: &'static str)
    requires
        d < 10,
    ensures
        r@ == seq![digit_char(d as nat)],
{
    proof {
        reveal_strlit("0");
        reveal_strlit("1");
        reveal_strlit("2");
        reveal_strlit("3");
        reveal_strlit("4");
        reveal_strlit("5");
        reveal_strlit("6");
        reveal_strlit("7");
        reveal_strlit("8");
        reveal_strlit("9");
    }
    let r = if d == 0 {
        "0"
    } else if d == 1 {
        "1"
    } else if d == 2 {
        "2"
    } else if d == 3 {
        "3"
    } else if d == 4 {
        "4"
    } else if d == 5 {
        "5"
    } else if d == 6 {
        "6"
    } else if d == 7 {
        "7"
    } else if d == 8 {
        "8"
    } else {
        "9"
    };
    assert(r@ =~= seq![digit_char(d as nat)]);
    r
}

/// Appends the digits of `n`, without leading zeros.
pub(crate) fn push_decimal(buf: &mut String, n: u64)
    ensures
        final(buf)@ == old(buf)@ + decimal_text(n as nat),
    decreases n,
{
    if n >= 10 {
        push_decimal(buf, n / 10);
    }
    buf.append(digit_str(n % 10));
    assert(final(buf)@ =~= old(buf)@ + decimal_text(n as nat));
}

/// Appends the lowest `width` digits of `n`, with leading zeros.
pub(crate) fn push_padded(buf: &mut String, n: u64, width: u32)
    ensures
        final(buf)@ == old(buf)@ + padded_text(n as nat, width as nat),
    decreases width,
{
    if width > 0 {
        push_padded(buf, n / 10, width - 1);
        buf.append(digit_str(n % 10));
    }
    assert(final(buf)@ =~= old(buf)@ + padded_text(n as nat, width as nat));
}

/// Reading one more digit multiplies what was read by ten and adds the digit.
pub proof fn lemma_digits_value_step(s: Seq<char>, i: int)
    requires
        0 <= i < s.len(),
    ensures
        digits_value(s.take(i + 1)) == digits_value(s.take(i)) * 10 + digit_value(s[i]),
{
    assert(s.take(i + 1).drop_last() =~= s.take(i));
}

/// A run of digits that does not start with zero is worth at least one.
pub proof fn lemma_leading_digit(s: Seq<char>)
    requires
        all_digits(s),
        s.len() > 0,
        s[0] != '0',
    ensures
        digits_value(s) >= 1,
    decreases s.len(),
{
    if s.len() > 1 {
        lemma_leading_digit(s.drop_last());
    } else {
        assert(s.drop_last().len() == 0);
        lemma_digit_value(s[0]);
    }
}

/// The text of a number consists of digits, is worth the number, and starts
/// with zero only for zero itself.
pub proof fn lemma_decimal_text(n: nat)
    ensures
        decimal_text(n).len() >= 1,
        all_digits(decimal_text(n)),
        digits_value(decimal_text(n)) == n,
        (decimal_text(n)[0] == '0') == (n == 0),
    decreases n,
{
    lemma_digit_char(n % 10);
    if n < 10 {
        let t = decimal_text(n);
        assert(t.drop_last().len() == 0);
        assert(digits_value(t.drop_last()) == 0);
    } else {
        lemma_decimal_text(n / 10);
        let head = decimal_text(n / 10);
        let t = head.push(digit_char(n % 10));
        assert(t.drop_last() =~= head);
        assert(t[0] == head[0]);
        assert forall|i: int| 0 <= i < t.len() implies is_digit(#[trigger] t[i]) by {
            if i < head.len() {
                assert(t[i] == head[i]);
            }
        }
    }
}

/// A number has only one text without a leading zero.
pub proof fn lemma_decimal_text_unique(s: Seq<char>)
    requires
        all_digits(s),
        s.len() > 0,
        s[0] != '0',
    ensures
        s == decimal_text(digits_value(s)),
    decreases s.len(),
{
    let n = digits_value(s);
    let head = s.drop_last();
    lemma_digit_value(s.last());
    if s.len() == 1 {
        assert(head.len() == 0);
        assert(digits_value(head) == 0);
        assert(s =~= seq![digit_char(n)]);
    } else {
        lemma_leading_digit(head);
        lemma_decimal_text_unique(head);
        assert(n / 10 == digits_value(head));
        assert(s =~= head.push(s.last()));
    }
}

/// A run of zeros consists of digits and is worth zero.
pub proof fn lemma_zeros(count: nat)
    ensures
        all_digits(zeros(count)),
        digits_value(zeros(count)) == 0,
    decreases count,
{
    if count > 0 {
        lemma_zeros((count - 1) as nat);
        assert(zeros(count).drop_last() =~= zeros((count - 1) as nat));
    }
}

/// The padded text of a number that fits its width consists of digits and is
/// worth the number.
pub proof fn lemma_padded_text(n: nat, width: nat)
    requires
        n < pow10(width),
    ensures
        padded_text(n, width).len() == width,
        all_digits(padded_text(n, width)),
        digits_value(padded_text(n, width)) == n,
    decreases width,
{
    if width > 0 {
        let head = padded_text(n / 10, (width - 1) as nat);
        lemma_padded_text(n / 10, (width - 1) as nat);
        lemma_digit_char(n % 10);
        let t = head.push(digit_char(n % 10));
        assert(t.drop_last() =~= head);
        assert forall|i: int| 0 <= i < t.len() implies is_digit(#[trigger] t[i]) by {
            if i < head.len() {
                assert(t[i] == head[i]);
            }
        }
    }
}

/// Trimming removes zeros only: putting as many zeros back gives the
/// sequence again.
pub proof fn lemma_trim_zeros(s: Seq<char>)
    ensures
        trim_zeros(s).len() <= s.len(),
        trim_zeros(s) + zeros((s.len() - trim_zeros(s).len()) as nat) == s,
    decreases s.len(),
{
    let t = trim_zeros(s);
    if s.len() > 0 && s.last() == '0' {
        lemma_trim_zeros(s.drop_last());
        let k = (s.drop_last().len() - t.len()) as nat;
        assert(t + zeros(k + 1) =~= (t + zeros(k)).push('0'));
        assert(s =~= s.drop_last().push('0'));
    } else {
        assert(t + zeros(0) =~= s);
    }
}

} // verus!
