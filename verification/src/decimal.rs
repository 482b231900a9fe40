//! The two-word representation and its mathematical reading.

use vstd::prelude::*;

verus! {

/// A fixed-point decimal value with 19 decimal places of precision.
///
/// `hi` is the whole word: it carries the sign and the integer part.
/// `lo` is the fraction word: a magnitude counted in units of ten to the
/// minus nineteenth. A fraction word of `DECIMAL_MAX` or more is a pending
/// carry of one whole unit; rendering folds it in.
///
/// The lowest value that can be stored is -9223372036854775809.8446744073709551615
/// and the highest is 9223372036854775808.8446744073709551615.
#[derive(Copy, Clone, PartialEq, Eq, Structural, Hash, Debug)]
pub struct RocDec {
    pub hi: i64,
    pub lo: u64,
}

/// The result of an operation did not fit the representable range, or a
/// multiplication met a whole word at the signed minimum with an operand
/// other than zero or one.
#[derive(Copy, Clone, PartialEq, Eq, Structural, Hash, Debug)]
pub enum ArithmeticError {
    Overflow,
}

/// The text handed to the parser is not a decimal number of the accepted form.
#[derive(Copy, Clone, PartialEq, Eq, Structural, Hash, Debug)]
pub struct ParseError {}

impl RocDec {
    /// The largest power of ten that fits in 64 unsigned bits: ten to the
    /// nineteenth. One unit of the whole word is worth this many units of the
    /// fraction word.
    pub const DECIMAL_MAX: u64 = 10_000_000_000_000_000_000;

    /// A value is negative exactly when its whole word is; a zero whole word
    /// counts as non-negative whatever the fraction word holds.
    pub open spec fn is_negative(self) -> bool {
        self.hi < 0
    }

    /// Both words are zero.
    pub open spec fn is_zero(self) -> bool {
        self.hi == 0 && self.lo == 0
    }

    /// The whole word is one and the fraction word is zero.
    pub open spec fn is_one(self) -> bool {
        self.hi == 1 && self.lo == 0
    }

    /// The absolute value, counted in units of ten to the minus nineteenth.
    pub open spec fn magnitude(self) -> nat {
        ((if self.hi < 0 { -(self.hi as int) } else { self.hi as int }) * (RocDec::DECIMAL_MAX as int)
            + self.lo as int) as nat
    }

    /// The value, counted in units of ten to the minus nineteenth.
    pub open spec fn scaled(self) -> int {
        if self.hi < 0 {
            -(self.magnitude() as int)
        } else {
            self.magnitude() as int
        }
    }

    /// Builds a value from its two words. Nothing is checked or normalized.
    pub fn new(hi: i64, lo: u64) -> (r: RocDec)
        ensures
            r == (RocDec { hi, lo }),
    {
        RocDec { hi, lo }
    }
}

} // verus!
