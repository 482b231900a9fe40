//! Splitting a 128-bit product into a base ten-to-the-nineteenth digit and its
//! carry, by a 256-bit multiplication with a reciprocal in place of a division.

use crate::decimal::RocDec;
use ethnum::U256;
use vstd::arithmetic::div_mod::lemma_fundamental_div_mod_converse;
use vstd::arithmetic::power2::{lemma2_to64, lemma2_to64_rest, lemma_pow2_adds, pow2};
use vstd::prelude::*;

verus! {

/// Two to the 128th: the weight of the high word of a 256-bit number.
pub open spec fn word_128() -> int {
    0x1_0000_0000_0000_0000_0000_0000_0000_0000int
}

/// Two to the 190th, by which the reciprocal is scaled.
pub open spec fn two_190() -> int {
    0x4000_0000_0000_0000_0000_0000_0000_0000_0000_0000_0000_0000int
}

/// The least integer not below two to the 190th divided by ten to the nineteenth.
pub const RECIPROCAL: u128 = 156927543384667019095894735580191660403;

/// By how much `RECIPROCAL` times ten to the nineteenth exceeds two to the 190th.
pub open spec fn reciprocal_excess() -> int {
    4411138883991371776
}

/// The 256-bit number with high word `hi` and low word `lo`.
pub open spec fn wide(hi: u128, lo: u128) -> int {
    hi as int * word_128() + lo as int
}

/// ethnum's multiplication of two `U256` (its `*`), on numbers built by
/// `U256::from_words` with a zero high word and taken apart again by
/// `U256::into_words`. The product of two 128-bit numbers always fits 256
/// bits, so the multiplication cannot overflow. Not proved here: that the two
/// words handed back, high word first, are the exact product.
#[verifier::external_body]
fn wide_mul(a: u128, b: u128) -> (r: (u128, u128))
    ensures
        wide(r.0, r.1) == a as int * b as int,
{
    (U256::from_words(0, a) * U256::from_words(0, b)).into_words()
}

/// ethnum's right shift of a `U256` (its `>>`) by fewer than 256 bits, on a
/// number built by `U256::from_words` and taken apart again by
/// `U256::into_words`. Not proved here: that the two words handed back, high
/// word first, are the number divided by two to the `shift`, rounded down.
#[verifier::external_body]
fn wide_shr(hi: u128, lo: u128, shift: u32) -> (r: (u128, u128))
    requires
        shift < 256,
    ensures
        wide(r.0, r.1) == wide(hi, lo) / (pow2(shift as nat) as int),
{
    (U256::from_words(hi, lo) >> shift).into_words()
}

proof fn lemma_pow2_190()
    ensures
        pow2(190) == two_190(),
{
    lemma2_to64();
    lemma2_to64_rest();
    lemma_pow2_adds(64, 64);
    lemma_pow2_adds(128, 62);
    assert(pow2(128) == 0x1_0000_0000_0000_0000_0000_0000_0000_0000int) by (nonlinear_arith)
        requires
            pow2(128) == pow2(64) * pow2(64),
            pow2(64) == 0x1_0000_0000_0000_0000,
    ;
    assert(pow2(190) == two_190()) by (nonlinear_arith)
        requires
            pow2(190) == pow2(128) * pow2(62),
            pow2(128) == 0x1_0000_0000_0000_0000_0000_0000_0000_0000int,
            pow2(62) == 0x4000_0000_0000_0000,
            two_190() == 0x4000_0000_0000_0000_0000_0000_0000_0000_0000_0000_0000_0000int,
    ;
}

/// Multiplying by the reciprocal and dropping 190 bits divides by ten to the
/// nineteenth, exactly, for every 128-bit number.
pub proof fn lemma_reciprocal_divides(num: u128)
    ensures
        (num as int * RECIPROCAL as int) / two_190() == num as int / (RocDec::DECIMAL_MAX as int),
{
    let d = RocDec::DECIMAL_MAX as int;
    let m = RECIPROCAL as int;
    let e = reciprocal_excess();
    let q = num as int / d;
    let r = num as int % d;
    assert(m * d == two_190() + e);
    assert(num as int == q * d + r);
    assert(0 <= q <= 34028236692093846346);
    assert(0 <= q * e <= 34028236692093846346 * e) by (nonlinear_arith)
        requires
            0 <= q <= 34028236692093846346,
            0 <= e,
    ;
    assert(0 <= r * m <= (d - 1) * m) by (nonlinear_arith)
        requires
            0 <= r <= d - 1,
            0 <= m,
    ;
    assert(num as int * m == q * two_190() + (q * e + r * m)) by (nonlinear_arith)
        requires
            num as int == q * d + r,
            m * d == two_190() + e,
    ;
    let rest = q * e + r * m;
    assert(0 <= rest < two_190());
    lemma_fundamental_div_mod_converse(num as int * m, two_190(), q, rest);
}

/// Splits `num` into its quotient and remainder by ten to the nineteenth:
/// the carry and the digit of `num` in that base.
///
/// The quotient has to fit the 64-bit carry word. That holds of the product of
/// two fraction words below ten to the nineteenth, and of the product of a
/// fraction word with a whole word's magnitude.
pub fn decimalize(num: u128) -> (r: (u64, u64))
    requires
        num / (RocDec::DECIMAL_MAX as u128) <= u64::MAX,
    ensures
        r.0 == num / (RocDec::DECIMAL_MAX as u128),
        r.1 == num % (RocDec::DECIMAL_MAX as u128),
{
    let (ph, pl) = wide_mul(num, RECIPROCAL);
    let (qh, ql) = wide_shr(ph, pl, 190);
    proof {
        lemma_pow2_190();
        lemma_reciprocal_divides(num);
        assert(wide(qh, ql) == num as int / (RocDec::DECIMAL_MAX as int));
        assert(qh == 0) by (nonlinear_arith)
            requires
                qh as int * word_128() + ql as int <= u64::MAX,
                word_128() == 0x1_0000_0000_0000_0000_0000_0000_0000_0000int,
        ;
    }
    let hi = ql as u64;
    let lo = (num - (hi as u128) * (RocDec::DECIMAL_MAX as u128)) as u64;
    (hi, lo)
}

} // verus!
