//! Laws of the arithmetic and of the text conversion: what holds of every
//! value and every pair of operands, and the operands on which a familiar law
//! of numbers does not carry over to the two-word arithmetic.

use crate::arith::whole_part;
use crate::decimal::{ArithmeticError, ParseError, RocDec};
use crate::digits::{
    decimal_text, is_digit, lemma_decimal_text, lemma_padded_text, lemma_trim_zeros, lemma_zeros,
    padded_text, pow10, zeros,
};
use crate::parse::{lemma_first_point, lemma_limit_texts, parsed, parsed_fraction};
use crate::text::fraction_text;
use vstd::prelude::*;

verus! {

/// Subtracting what was added gives the first operand back, word for word,
/// whenever the sum exists and either keeps the sign of the first operand or
/// the second operand has a zero fraction word. The difference then never
/// overflows.
pub proof fn lemma_sub_undoes_add(a: RocDec, b: RocDec)
    requires
        a.sum(b) is Ok,
        a.sum(b)->Ok_0.same_sign(a) || b.lo == 0,
    ensures
        a.sum(b)->Ok_0.difference(b) == Ok::<RocDec, ArithmeticError>(a),
{
}

/// Where the sum takes the sign of the second operand against the first, and
/// the second has a fraction, subtracting it again does not give the first
/// operand back: the fraction word was subtracted twice.
pub proof fn lemma_sub_undoes_add_only_then(a: RocDec, b: RocDec)
    requires
        a.sum(b) is Ok,
        !(a.sum(b)->Ok_0.same_sign(a) || b.lo == 0),
    ensures
        a.sum(b)->Ok_0.difference(b) != Ok::<RocDec, ArithmeticError>(a),
{
}

/// Addition commutes for operands of equal sign, and for operands of
/// different sign with equal fraction words.
pub proof fn lemma_add_commutes(a: RocDec, b: RocDec)
    requires
        a.same_sign(b) || a.lo == b.lo,
    ensures
        a.sum(b) == b.sum(a),
{
}

/// For operands of different sign and different fraction words the order
/// matters: the fraction word of the second is taken from that of the first.
pub proof fn lemma_add_commutes_only_then(a: RocDec, b: RocDec)
    requires
        !(a.same_sign(b) || a.lo == b.lo),
    ensures
        a.sum(b) != b.sum(a),
{
}

/// Adding operands of equal sign is exact as long as the fraction words do
/// not wrap: the sum stands for the sum of the two values.
pub proof fn lemma_add_exact(a: RocDec, b: RocDec)
    requires
        a.same_sign(b),
        a.lo + b.lo <= u64::MAX,
        a.sum(b) is Ok,
    ensures
        a.sum(b)->Ok_0.scaled() == a.scaled() + b.scaled(),
{
    let d = RocDec::DECIMAL_MAX as int;
    assert((a.hi + b.hi) * d == a.hi * d + b.hi * d) by (nonlinear_arith);
}

/// Subtracting an operand of equal sign is exact where neither word of the
/// first operand is smaller in magnitude than that of the second: the
/// difference stands for the difference of the two values.
pub proof fn lemma_sub_exact(a: RocDec, b: RocDec)
    requires
        a.same_sign(b),
        a.lo >= b.lo,
        if a.is_negative() {
            a.hi <= b.hi
        } else {
            a.hi >= b.hi
        },
        a.hi != b.hi || !a.is_negative() || a.lo == b.lo,
    ensures
        a.difference(b) is Ok,
        a.difference(b)->Ok_0.scaled() == a.scaled() - b.scaled(),
{
    let d = RocDec::DECIMAL_MAX as int;
    assert((a.hi - b.hi) * d == a.hi * d - b.hi * d) by (nonlinear_arith);
}

/// Whenever a product exists, its magnitude is the product of the operands'
/// magnitudes, cut off after the nineteenth fractional digit.
pub proof fn lemma_mul_exact(a: RocDec, b: RocDec)
    requires
        a.product(b) is Ok,
    ensures
        a.product(b)->Ok_0.magnitude() == a.product_magnitude(b),
{
    let d = RocDec::DECIMAL_MAX as int;
    let ma = a.magnitude() as int;
    let mb = b.magnitude() as int;
    if a.is_zero() || b.is_zero() {
        assert(ma * mb == 0) by (nonlinear_arith)
            requires
                ma == 0 || mb == 0,
        ;
    } else if b.is_one() {
        assert(mb == d);
        assert((ma * mb) / d == ma) by (nonlinear_arith)
            requires
                mb == d,
                d > 0,
        ;
    } else if a.is_one() {
        assert(ma == d);
        assert((ma * mb) / d == mb) by (nonlinear_arith)
            requires
                ma == d,
                d > 0,
        ;
    } else {
        let m = a.product_magnitude(b) as int;
        assert(m == (m / d) * d + m % d) by (nonlinear_arith)
            requires
                d > 0,
        ;
        let whole = whole_part(m as nat) as int;
        assert((-whole) * d == -(whole * d)) by (nonlinear_arith);
    }
}

/// Multiplication commutes, for all operands, errors included.
pub proof fn lemma_mul_commutes(a: RocDec, b: RocDec)
    ensures
        a.product(b) == b.product(a),
{
    assert(a.magnitude() * b.magnitude() == b.magnitude() * a.magnitude()) by (nonlinear_arith);
}

/// Zero times any value is zero, at the ends of the range too.
pub proof fn lemma_mul_zero(a: RocDec)
    ensures
        a.product(RocDec { hi: 0, lo: 0 }) == Ok::<RocDec, ArithmeticError>(RocDec { hi: 0, lo: 0 }),
        (RocDec { hi: 0, lo: 0 }).product(a) == Ok::<RocDec, ArithmeticError>(
            RocDec { hi: 0, lo: 0 },
        ),
{
}

/// One times any value is that value, word for word, at the ends of the range
/// too.
pub proof fn lemma_mul_one(a: RocDec)
    ensures
        a.product(RocDec { hi: 1, lo: 0 }) == Ok::<RocDec, ArithmeticError>(a),
        (RocDec { hi: 1, lo: 0 }).product(a) == Ok::<RocDec, ArithmeticError>(a),
{
}

/// The sign cannot be stored with a whole part of zero: a product between
/// minus one and zero has lost its sign.
pub open spec fn product_loses_sign(a: RocDec, b: RocDec) -> bool {
    &&& a.product_is_negative(b)
    &&& !a.is_zero()
    &&& !b.is_zero()
    &&& whole_part(a.product_magnitude(b)) == 0
}

/// A product is negative exactly when one operand is negative, the other is
/// not, and neither is zero; but for the products that lose their sign.
pub proof fn lemma_mul_sign(a: RocDec, b: RocDec)
    requires
        a.product(b) is Ok,
        !product_loses_sign(a, b),
    ensures
        a.product(b)->Ok_0.is_negative() <==> (a.is_negative() != b.is_negative() && !a.is_zero()
            && !b.is_zero()),
{
    if b.is_one() && !a.is_zero() {
    } else if a.is_one() && !b.is_zero() {
    }
}

/// A product that loses its sign is stored as a value that is not negative,
/// though one operand is negative and neither is zero.
pub proof fn lemma_mul_sign_lost(a: RocDec, b: RocDec)
    requires
        a.product(b) is Ok,
        product_loses_sign(a, b),
    ensures
        !a.product(b)->Ok_0.is_negative(),
        a.is_negative() != b.is_negative() && !a.is_zero() && !b.is_zero(),
{
    let d = RocDec::DECIMAL_MAX as int;
    let ma = a.magnitude() as int;
    let mb = b.magnitude() as int;
    assert(ma * mb < d * d) by (nonlinear_arith)
        requires
            (ma * mb) / d / d == 0,
            d > 0,
            ma >= 0,
            mb >= 0,
    ;
    // Multiplying by one keeps the magnitude of the negative operand, which is
    // at least one whole unit: such a product keeps its sign.
    if a.is_one() || b.is_one() {
        assert(ma * mb >= d * d) by (nonlinear_arith)
            requires
                ma >= d,
                mb >= d,
                d > 0,
        ;
    }
}

/// The digits after the point are read back as the fraction they were
/// written for.
pub proof fn lemma_fraction_round_trip(fraction: nat)
    requires
        fraction < RocDec::DECIMAL_MAX,
    ensures
        parsed_fraction(fraction_text(fraction)) == Some(fraction as u64),
{
    reveal_with_fuel(pow10, 20);
    let text = fraction_text(fraction);
    if fraction == 0 {
        lemma_zeros(19);
        assert(text + zeros(18) =~= zeros(19));
        assert(is_digit(text[0]));
    } else {
        let padded = padded_text(fraction, 19);
        lemma_padded_text(fraction, 19);
        lemma_trim_zeros(padded);
        let filled = text + zeros((19 - text.len()) as nat);
        assert forall|i: int| 0 <= i < text.len() implies is_digit(#[trigger] text[i]) by {
            assert(filled[i] == text[i]);
        }
    }
}

/// Reading the text of a value gives its canonical words, and those are
/// written as the same text: text and value determine each other up to a
/// pending carry.
pub proof fn lemma_round_trip(v: RocDec)
    ensures
        parsed(v.text()) == Ok::<RocDec, ParseError>(v.canonical()),
        v.canonical().text() == v.text(),
{
    let sign = if v.hi < 0 {
        seq!['-']
    } else {
        Seq::<char>::empty()
    };
    let whole = decimal_text(v.whole_magnitude());
    let fraction = fraction_text(v.fraction_digits());
    let before = sign + whole;
    let text = v.text();
    let point = before.len() as int;
    lemma_decimal_text(v.whole_magnitude());
    lemma_fraction_round_trip(v.fraction_digits());
    lemma_limit_texts();
    assert(text =~= before + seq!['.'] + fraction);
    assert forall|j: int| 0 <= j < point implies text[j] != '.' by {
        assert(text[j] == before[j]);
        if j >= sign.len() {
            assert(before[j] == whole[j - sign.len()]);
        }
    }
    assert(text[point] == '.');
    lemma_first_point(text, point);
    assert(text.subrange(0, point) =~= before);
    assert(text.subrange(point + 1, text.len() as int) =~= fraction);
    if v.hi < 0 {
        assert(before[0] == '-');
        assert(before.subrange(1, before.len() as int) =~= whole);
    } else {
        assert(before =~= whole);
        assert(is_digit(before[0]));
    }
}

} // verus!
