//! Canonical decimal text of a value, and reading a value from text.

use crate::decimal::RocDec;
use crate::digits::{
    decimal_text, lemma_digit_char, padded_text, pow10, push_decimal, push_padded, trim_zeros,
};
use vstd::prelude::*;
use vstd::std_specs::convert::FromSpecImpl;
use vstd::string::*;

verus! {

/// The digits after the point for a fraction below one whole unit: nineteen
/// digits with the trailing zeros removed, and a single zero for no fraction.
pub open spec fn fraction_text(fraction: nat) -> Seq<char> {
    if fraction == 0 {
        seq!['0']
    } else {
        trim_zeros(padded_text(fraction, 19))
    }
}

impl RocDec {
    /// One if the fraction word holds a pending carry, zero if not.
    pub open spec fn pending_carry(self) -> nat {
        if self.lo >= RocDec::DECIMAL_MAX {
            1
        } else {
            0
        }
    }

    /// The magnitude of the whole part once a pending carry is folded in. It
    /// may be one more than the whole word can hold.
    pub open spec fn whole_magnitude(self) -> nat {
        ((if self.hi < 0 {
            -(self.hi as int)
        } else {
            self.hi as int
        }) + self.pending_carry()) as nat
    }

    /// The fraction once a pending carry is folded into the whole part.
    pub open spec fn fraction_digits(self) -> nat {
        (self.lo - self.pending_carry() * RocDec::DECIMAL_MAX) as nat
    }

    /// The words that the value's text is read back as: a pending carry is
    /// folded into the whole word, unless the whole word is at its limit and
    /// cannot take it.
    pub open spec fn canonical(self) -> RocDec {
        if self.lo < RocDec::DECIMAL_MAX || self.hi == i64::MAX || self.hi == i64::MIN {
            self
        } else if self.hi < 0 {
            RocDec { hi: (self.hi - 1) as i64, lo: (self.lo - RocDec::DECIMAL_MAX) as u64 }
        } else {
            RocDec { hi: (self.hi + 1) as i64, lo: (self.lo - RocDec::DECIMAL_MAX) as u64 }
        }
    }

    /// The canonical text: a minus sign if the whole word is negative, the
    /// whole part, a point, and the fraction.
    pub open spec fn text(self) -> Seq<char> {
        (if self.hi < 0 {
            seq!['-']
        } else {
            Seq::<char>::empty()
        }) + decimal_text(self.whole_magnitude()) + seq!['.'] + fraction_text(
            self.fraction_digits(),
        )
    }

    /// Renders the value as its canonical text.
    pub fn to_string(self) -> (r: String)
        ensures
            r@ == self.text(),
    {
        let hi = self.hi;
        let lo = self.lo;

        // A fraction word of DECIMAL_MAX or more gives one unit to the whole part.
        let lo_offset: u64 = if lo >= RocDec::DECIMAL_MAX { RocDec::DECIMAL_MAX } else { 0 };
        let after_point: u64 = lo - lo_offset;
        let hi_offset: u64 = if lo_offset == 0 { 0 } else { 1 };

        // The magnitude is taken in 128 bits, where the signed minimum can be negated.
        let wide: i128 = hi as i128;
        let before_point: u64 = (if wide < 0 { 0 - wide } else { wide }) as u64 + hi_offset;

        let mut buf = String::new();
        if hi < 0 {
            proof {
                reveal_strlit("-");
            }
            buf.append("-");
        }
        push_decimal(&mut buf, before_point);
        proof {
            reveal_strlit(".");
        }
        buf.append(".");
        push_fraction(&mut buf, after_point);
        assert(buf@ =~= self.text());
        buf
    }
}

/// Removing a trailing zero digit before trimming changes nothing.
proof fn lemma_trim_step(n: nat, width: nat)
    requires
        width >= 1,
        n % 10 == 0,
    ensures
        trim_zeros(padded_text(n, width)) == trim_zeros(padded_text(n / 10, (width - 1) as nat)),
{
    let shorter = padded_text(n / 10, (width - 1) as nat);
    assert(padded_text(n, width) == shorter.push('0'));
    assert(shorter.push('0').drop_last() =~= shorter);
}

/// A text that ends in a digit other than zero has nothing to trim.
proof fn lemma_trim_done(n: nat, width: nat)
    requires
        width >= 1,
        n % 10 != 0,
    ensures
        trim_zeros(padded_text(n, width)) == padded_text(n, width),
{
    lemma_digit_char(n % 10);
}

/// Appends the digits after the point.
fn push_fraction(buf: &mut String, fraction: u64)
    requires
        fraction < RocDec::DECIMAL_MAX,
    ensures
        final(buf)@ == old(buf)@ + fraction_text(fraction as nat),
{
    if fraction == 0 {
        proof {
            reveal_strlit("0");
        }
        buf.append("0");
        assert(buf@ =~= old(buf)@ + fraction_text(fraction as nat));
    } else {
        let mut n: u64 = fraction;
        let mut width: u32 = 19;
        proof {
            reveal_with_fuel(pow10, 20);
        }
        while n % 10 == 0
            invariant
                n != 0,
                width <= 19,
                n < pow10(width as nat),
                trim_zeros(padded_text(n as nat, width as nat)) == fraction_text(fraction as nat),
            decreases n,
        {
            proof {
                reveal_with_fuel(pow10, 2);
                lemma_trim_step(n as nat, width as nat);
            }
            n = n / 10;
            width = width - 1;
        }
        proof {
            reveal_with_fuel(pow10, 2);
            lemma_trim_done(n as nat, width as nat);
        }
        push_padded(buf, n, width);
    }
}

impl From<RocDec> for String {
    /// The canonical text of the value, as `to_string` gives it.
    fn from(value: RocDec) -> (r: String)
        ensures
            r@ == value.text(),
    {
        value.to_string()
    }
}

/// A `String` cannot be built in a specification, so the conversion is
/// described through the view of its result, in the contract of `from`.
impl FromSpecImpl<RocDec> for String {
    open spec fn obeys_from_spec() -> bool {
        false
    }

    open spec fn from_spec(v: RocDec) -> String {
        arbitrary()
    }
}

} // verus!
