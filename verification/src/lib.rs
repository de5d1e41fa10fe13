//! Exact multiplication of unsigned big integers held as base-256 digits.
//!
//! Single-digit products come from a precomputed table, the rows of one
//! operand are split into contiguous blocks that can be evaluated
//! independently, and decimal strings are converted to and from the digit
//! representation by repeated long division.

pub mod cache;
pub mod decimal_conversion;
pub mod radix;
pub mod schoolbook;
pub mod symbolic_number;
