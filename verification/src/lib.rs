//! Fixed-point decimal numbers with nineteen fractional digits, held in two
//! 64-bit words, with word-exact contracts for arithmetic and text conversion.

pub mod arith;
pub mod decimal;
pub mod digits;
pub mod laws;
pub mod parse;
pub mod text;
pub mod wide;

pub use decimal::{ArithmeticError, ParseError, RocDec};
pub use wide::decimalize;
