//! Parsing hexadecimal floating-point literals, digit by digit, into a
//! mantissa and a power-of-two exponent, and assembling them into the bit
//! patterns of IEEE 754 binary formats, reporting rounding and overflow.
//!
//! [`wgsl::parse`] reads a whole WGSL hexadecimal literal into [`Parts`];
//! [`Parts::to_float`] assembles it for a [`BinaryFormat`]. Callers doing
//! their own lexical analysis can push digits onto [`Parts`], [`Whole`] or
//! [`Fraction`] directly: these keep the 64 most significant bits of the
//! digits' value, fold leading and trailing zeros into the exponent, and
//! record whether anything was lost.

pub mod significance;
pub mod hex;
pub mod whole;
pub mod fraction;
pub mod parts;
pub mod construct;
pub mod push_whole;
pub mod push_fractional;
pub mod format;
pub mod assemble;
pub mod shl_exact;
pub mod wgsl;

pub use whole::{DigitError, Whole};
pub use fraction::Fraction;
pub use format::BinaryFormat;
pub use assemble::Assembled;
pub use shl_exact::shl_exact;
pub use parts::{
    PartFlags, Parts, ALL_BITS, EXPONENT_BIT, FRACTION_BIT, POINT_BIT, PREFIX_BIT, SIGN_BIT,
    TYPE_SUFFIX_BIT, WHOLE_BIT,
};
