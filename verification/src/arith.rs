//! Addition, subtraction and multiplication on the two-word representation.

use crate::decimal::{ArithmeticError, RocDec};
use crate::wide::decimalize;
use vstd::arithmetic::div_mod::lemma_fundamental_div_mod_converse;
use vstd::prelude::*;

verus! {

/// Two to the 64th: the number of values a fraction word can hold.
pub open spec fn word_64() -> int {
    0x1_0000_0000_0000_0000
}

/// Whether an integer fits the whole word.
pub open spec fn fits_whole(x: int) -> bool {
    i64::MIN <= x <= i64::MAX
}

/// A fraction word after an addition or subtraction that may have left the
/// 64-bit range: the word that is kept, and whether it wrapped.
pub open spec fn wrap_fraction(raw: int) -> (u64, bool) {
    if raw < 0 {
        ((raw + word_64()) as u64, true)
    } else if raw > u64::MAX {
        ((raw - word_64()) as u64, true)
    } else {
        (raw as u64, false)
    }
}

impl RocDec {
    /// Both whole words are negative, or neither is.
    pub open spec fn same_sign(self, other: RocDec) -> bool {
        self.is_negative() == other.is_negative()
    }

    /// What a wrapped fraction word carries into the whole word: one unit with
    /// the sign of this value's whole word.
    pub open spec fn carry_unit(self) -> int {
        if self.is_negative() {
            -1
        } else {
            1
        }
    }

    /// The carry that `wrapped` sends into the whole word.
    pub open spec fn carry(self, wrapped: bool) -> int {
        if wrapped {
            self.carry_unit()
        } else {
            0
        }
    }

    /// The sum, word by word. With equal signs the fraction words are added,
    /// with different signs the second is subtracted from the first. A
    /// fraction word that wraps carries one unit, signed like the first
    /// operand, into the whole word. The whole words are then combined in two
    /// checked steps, the carry first; either step leaving the signed 64-bit
    /// range is an overflow.
    pub open spec fn sum(self, other: RocDec) -> Result<RocDec, ArithmeticError> {
        let raw = if self.same_sign(other) {
            self.lo + other.lo
        } else {
            self.lo - other.lo
        };
        let (lo, wrapped) = wrap_fraction(raw);
        let carried = self.hi + self.carry(wrapped);
        let hi = carried + other.hi;
        if fits_whole(carried) && fits_whole(hi) {
            Ok(RocDec { hi: hi as i64, lo })
        } else {
            Err(ArithmeticError::Overflow)
        }
    }

    /// The difference, word by word: as `sum`, with the roles of adding and
    /// subtracting exchanged on both words.
    pub open spec fn difference(self, other: RocDec) -> Result<RocDec, ArithmeticError> {
        let raw = if self.same_sign(other) {
            self.lo - other.lo
        } else {
            self.lo + other.lo
        };
        let (lo, wrapped) = wrap_fraction(raw);
        let carried = self.hi - self.carry(wrapped);
        let hi = carried - other.hi;
        if fits_whole(carried) && fits_whole(hi) {
            Ok(RocDec { hi: hi as i64, lo })
        } else {
            Err(ArithmeticError::Overflow)
        }
    }

    /// Adds two values. Both candidate fraction words are computed and one is
    /// selected by the signs, so that no branch is taken on the fraction words.
    pub fn add(self, other: RocDec) -> (r: Result<RocDec, ArithmeticError>)
        ensures
            r == self.sum(other),
    {
        let self_is_negative = self.hi < 0;
        let other_is_negative = other.hi < 0;

        let lo_added = self.lo.wrapping_add(other.lo);
        let add_overflowed = lo_added < self.lo;
        let lo_subtracted = self.lo.wrapping_sub(other.lo);
        let sub_overflowed = self.lo < other.lo;

        let same_sign = self_is_negative == other_is_negative;
        let lo = if same_sign { lo_added } else { lo_subtracted };
        let overflowed = if same_sign { add_overflowed } else { sub_overflowed };
        let hi_sign: i64 = if self_is_negative { -1 } else { 1 };
        let hi_offset: i64 = if overflowed { hi_sign } else { 0 };

        match self.hi.checked_add(hi_offset) {
            None => Err(ArithmeticError::Overflow),
            Some(carried) => match carried.checked_add(other.hi) {
                None => Err(ArithmeticError::Overflow),
                Some(hi) => Ok(RocDec { hi, lo }),
            },
        }
    }

    /// Subtracts `other` from this value, selecting between the two candidate
    /// fraction words as `add` does.
    pub fn sub(self, other: RocDec) -> (r: Result<RocDec, ArithmeticError>)
        ensures
            r == self.difference(other),
    {
        let self_is_negative = self.hi < 0;
        let other_is_negative = other.hi < 0;

        let lo_added = self.lo.wrapping_add(other.lo);
        let add_overflowed = lo_added < self.lo;
        let lo_subtracted = self.lo.wrapping_sub(other.lo);
        let sub_overflowed = self.lo < other.lo;

        let same_sign = self_is_negative == other_is_negative;
        let lo = if same_sign { lo_subtracted } else { lo_added };
        let overflowed = if same_sign { sub_overflowed } else { add_overflowed };
        let hi_sign: i64 = if self_is_negative { -1 } else { 1 };
        let hi_offset: i64 = if overflowed { hi_sign } else { 0 };

        match self.hi.checked_sub(hi_offset) {
            None => Err(ArithmeticError::Overflow),
            Some(carried) => match carried.checked_sub(other.hi) {
                None => Err(ArithmeticError::Overflow),
                Some(hi) => Ok(RocDec { hi, lo }),
            },
        }
    }
}

/// The whole part and the fraction of a magnitude, as wide as they come.
pub open spec fn whole_part(magnitude: nat) -> nat {
    magnitude / (RocDec::DECIMAL_MAX as nat)
}

/// What of a magnitude lies below one whole unit.
pub open spec fn fraction_part(magnitude: nat) -> nat {
    magnitude % (RocDec::DECIMAL_MAX as nat)
}

impl RocDec {
    /// The magnitude of the product: the product of the magnitudes, with the
    /// digits beyond the nineteenth fractional place cut off.
    pub open spec fn product_magnitude(self, other: RocDec) -> nat {
        (self.magnitude() * other.magnitude()) / (RocDec::DECIMAL_MAX as nat)
    }

    /// The product is negative when exactly one whole word is.
    pub open spec fn product_is_negative(self, other: RocDec) -> bool {
        self.is_negative() != other.is_negative()
    }

    /// The product.
    ///
    /// Zero times anything is zero, and one times a value is that value, word
    /// for word, also at the ends of the range. Beyond these two, a whole word
    /// at the signed minimum is not supported. Otherwise the product's
    /// magnitude is split into a whole part, which has to fit the signed
    /// 64-bit range, and a fraction below ten to the nineteenth; the whole
    /// word takes the sign.
    pub open spec fn product(self, other: RocDec) -> Result<RocDec, ArithmeticError> {
        if self.is_zero() || other.is_zero() {
            Ok(RocDec { hi: 0, lo: 0 })
        } else if other.is_one() {
            Ok(self)
        } else if self.is_one() {
            Ok(other)
        } else if self.hi == i64::MIN || other.hi == i64::MIN {
            Err(ArithmeticError::Overflow)
        } else {
            let m = self.product_magnitude(other);
            if whole_part(m) > i64::MAX {
                Err(ArithmeticError::Overflow)
            } else {
                let whole = whole_part(m) as int;
                Ok(
                    RocDec {
                        hi: (if self.product_is_negative(other) { -whole } else { whole }) as i64,
                        lo: fraction_part(m) as u64,
                    },
                )
            }
        }
    }

    /// The magnitude as two base ten-to-the-nineteenth digits: a pending carry
    /// in the fraction word is folded into the whole digit.
    fn split_magnitude(self) -> (r: (u64, u64))
        requires
            self.hi != i64::MIN,
        ensures
            r.0 <= 0x8000_0000_0000_0000,
            r.1 < RocDec::DECIMAL_MAX,
            r.0 * RocDec::DECIMAL_MAX + r.1 == self.magnitude(),
    {
        let whole: u64 = if self.hi < 0 { (0 - self.hi) as u64 } else { self.hi as u64 };
        if self.lo >= RocDec::DECIMAL_MAX {
            (whole + 1, self.lo - RocDec::DECIMAL_MAX)
        } else {
            (whole, self.lo)
        }
    }

    /// Multiplies two values by long multiplication in base ten to the
    /// nineteenth: four partial products, each split into a digit and its
    /// carry, summed column by column.
    pub fn mul(self, other: RocDec) -> (r: Result<RocDec, ArithmeticError>)
        ensures
            r == self.product(other),
    {
        if (self.hi == 0 && self.lo == 0) || (other.hi == 0 && other.lo == 0) {
            return Ok(RocDec { hi: 0, lo: 0 });
        }
        if other.hi == 1 && other.lo == 0 {
            return Ok(self);
        }
        if self.hi == 1 && self.lo == 0 {
            return Ok(other);
        }
        if self.hi == i64::MIN || other.hi == i64::MIN {
            return Err(ArithmeticError::Overflow);
        }
        let final_is_negative = (self.hi < 0) != (other.hi < 0);
        let (self_hi, self_lo) = self.split_magnitude();
        let (other_hi, other_lo) = other.split_magnitude();

        proof {
            lemma_partial_product_bounds(self_hi, self_lo, other_hi, other_lo);
        }
        let ea: u128 = (self_lo as u128) * (other_lo as u128);
        let gf: u128 = (self_hi as u128) * (other_lo as u128);
        let jh: u128 = (self_lo as u128) * (other_hi as u128);
        let lk: u128 = (self_hi as u128) * (other_hi as u128);
        let (e, a) = decimalize(ea);
        let (g, f) = decimalize(gf);
        let (j, h) = decimalize(jh);
        let (l, k) = decimalize(lk);

        // The column of weight ten to the nineteenth holds the fraction word.
        let b_sum: u128 = e as u128 + f as u128 + h as u128;
        let (b_carry, b) = decimalize(b_sum);

        // The next column holds the whole word; anything above it is too much.
        let c_sum: u128 = g as u128 + j as u128 + k as u128 + b_carry as u128;
        proof {
            lemma_columns(
                self.magnitude(),
                other.magnitude(),
                self_hi,
                self_lo,
                other_hi,
                other_lo,
                b_carry,
                b,
                c_sum,
                l,
            );
        }
        if l != 0 || c_sum > i64::MAX as u128 {
            return Err(ArithmeticError::Overflow);
        }
        let hi = c_sum as i64;
        let hi = if final_is_negative { -hi } else { hi };
        Ok(RocDec { hi, lo: b })
    }
}

/// Each of the four partial products has a carry that fits 64 bits.
proof fn lemma_partial_product_bounds(ah: u64, al: u64, bh: u64, bl: u64)
    requires
        ah <= 0x8000_0000_0000_0000,
        bh <= 0x8000_0000_0000_0000,
        al < RocDec::DECIMAL_MAX,
        bl < RocDec::DECIMAL_MAX,
    ensures
        al * bl <= u128::MAX,
        ah * bl <= u128::MAX,
        al * bh <= u128::MAX,
        ah * bh <= u128::MAX,
        (al * bl) / (RocDec::DECIMAL_MAX as int) < RocDec::DECIMAL_MAX,
        (ah * bl) / (RocDec::DECIMAL_MAX as int) < 0x8000_0000_0000_0000,
        (al * bh) / (RocDec::DECIMAL_MAX as int) < 0x8000_0000_0000_0000,
        (ah * bh) / (RocDec::DECIMAL_MAX as int) <= u64::MAX,
{
    let d = RocDec::DECIMAL_MAX as int;
    assert(0 <= al * bl < d * d) by (nonlinear_arith)
        requires
            0 <= al < d,
            0 <= bl < d,
    ;
    assert(0 <= ah * bl < 0x8000_0000_0000_0000 * d) by (nonlinear_arith)
        requires
            0 <= ah <= 0x8000_0000_0000_0000,
            0 <= bl < d,
            d > 0,
    ;
    assert(0 <= al * bh < 0x8000_0000_0000_0000 * d) by (nonlinear_arith)
        requires
            0 <= bh <= 0x8000_0000_0000_0000,
            0 <= al < d,
            d > 0,
    ;
    assert(0 <= ah * bh <= 0x8000_0000_0000_0000 * 0x8000_0000_0000_0000) by (nonlinear_arith)
        requires
            0 <= ah <= 0x8000_0000_0000_0000,
            0 <= bh <= 0x8000_0000_0000_0000,
    ;
}

/// The column sums of the long multiplication are the whole part and the
/// fraction of the product's magnitude.
proof fn lemma_columns(
    ma: nat,
    mb: nat,
    ah: u64,
    al: u64,
    bh: u64,
    bl: u64,
    b_carry: u64,
    b: u64,
    c_sum: u128,
    l: u64,
)
    requires
        ma == ah * RocDec::DECIMAL_MAX + al,
        mb == bh * RocDec::DECIMAL_MAX + bl,
        b < RocDec::DECIMAL_MAX,
        ({
            let d = RocDec::DECIMAL_MAX as int;
            let e = (al * bl) / d;
            let f = (ah * bl) % d;
            let h = (al * bh) % d;
            let g = (ah * bl) / d;
            let j = (al * bh) / d;
            let k = (ah * bh) % d;
            &&& b_carry == (e + f + h) / d
            &&& b == (e + f + h) % d
            &&& c_sum == g + j + k + b_carry
            &&& l == (ah * bh) / d
        }),
    ensures
        whole_part((ma * mb) / (RocDec::DECIMAL_MAX as nat)) == l * RocDec::DECIMAL_MAX + c_sum,
        fraction_part((ma * mb) / (RocDec::DECIMAL_MAX as nat)) == b,
{
    let d = RocDec::DECIMAL_MAX as int;
    let ea = al * bl;
    let gf = ah * bl;
    let jh = al * bh;
    let lk = ah * bh;
    let e = ea / d;
    let a = ea % d;
    let g = gf / d;
    let f = gf % d;
    let j = jh / d;
    let h = jh % d;
    let l_ = lk / d;
    let k = lk % d;
    assert(ma * mb == (lk * d + gf + jh) * d + ea) by (nonlinear_arith)
        requires
            ma == ah * d + al,
            mb == bh * d + bl,
            ea == al * bl,
            gf == ah * bl,
            jh == al * bh,
            lk == ah * bh,
    ;
    assert(0 <= ea && 0 <= gf && 0 <= jh && 0 <= lk) by (nonlinear_arith)
        requires
            ea == al * bl,
            gf == ah * bl,
            jh == al * bh,
            lk == ah * bh,
    ;
    let m = lk * d + gf + jh + e;
    assert(ma * mb == m * d + a) by (nonlinear_arith)
        requires
            ma * mb == (lk * d + gf + jh) * d + ea,
            ea == e * d + a,
            m == lk * d + gf + jh + e,
    ;
    lemma_fundamental_div_mod_converse((ma * mb) as int, d, m, a);
    assert((ma * mb) / (RocDec::DECIMAL_MAX as nat) == m);
    let w = l_ * d + c_sum;
    assert(m == w * d + b) by (nonlinear_arith)
        requires
            m == lk * d + gf + jh + e,
            lk == l_ * d + k,
            gf == g * d + f,
            jh == j * d + h,
            e + f + h == b_carry * d + b,
            c_sum == g + j + k + b_carry,
            w == l_ * d + c_sum,
    ;
    lemma_fundamental_div_mod_converse(m, d, w, b as int);
}

} // verus!
