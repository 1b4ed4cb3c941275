//! Definition of [`Parts`] and [`PartFlags`].
use vstd::prelude::*;
use vstd::arithmetic::power2::*;

use crate::significance::{lemma_odd_form_unique, lemma_trailing_zero_count_odd};

verus! {

/// The bit of [`PartFlags`] for a leading `'+'` or `'-'`.
pub const SIGN_BIT: u32 = 1;

/// The bit of [`PartFlags`] for a `"0x"` or `"0X"` prefix.
pub const PREFIX_BIT: u32 = 2;

/// The bit of [`PartFlags`] for whole-number digits.
pub const WHOLE_BIT: u32 = 4;

/// The bit of [`PartFlags`] for a hexadecimal point.
pub const POINT_BIT: u32 = 8;

/// The bit of [`PartFlags`] for fractional digits.
pub const FRACTION_BIT: u32 = 16;

/// The bit of [`PartFlags`] for an exponent introduced by `'p'` or `'P'`.
pub const EXPONENT_BIT: u32 = 32;

/// The bit of [`PartFlags`] for a language-specific type suffix.
pub const TYPE_SUFFIX_BIT: u32 = 64;

/// All the bits a [`PartFlags`] can hold.
pub const ALL_BITS: u32 = 127;

/// The parts that a hexadecimal floating point literal might have: a set of
/// flags, viewed as the bits of a `u32`.
#[derive(Clone, Copy, Debug, Eq, PartialEq)]
pub struct PartFlags {
    bits: u32,
}

impl View for PartFlags {
    type V = u32;

    closed spec fn view(&self) -> u32 {
        self.bits
    }
}

impl PartFlags {
    /// No flags at all.
    pub fn empty() -> (f: PartFlags)
        ensures
            f@ == 0,
    {
        PartFlags { bits: 0 }
    }

    /// Every flag.
    pub fn all() -> (f: PartFlags)
        ensures
            f@ == ALL_BITS,
    {
        PartFlags { bits: ALL_BITS }
    }

    /// An optional leading `'+'` or `'-'` character before the prefix,
    /// indicating the sign.
    pub fn sign() -> (f: PartFlags)
        ensures
            f@ == SIGN_BIT,
    {
        PartFlags { bits: SIGN_BIT }
    }

    /// A `"0x"` or `"0X"` prefix for the rest of the number.
    pub fn prefix() -> (f: PartFlags)
        ensures
            f@ == PREFIX_BIT,
    {
        PartFlags { bits: PREFIX_BIT }
    }

    /// One or more digits of whole-number portion, preceding any hexadecimal
    /// point present.
    pub fn whole() -> (f: PartFlags)
        ensures
            f@ == WHOLE_BIT,
    {
        PartFlags { bits: WHOLE_BIT }
    }

    /// A hexadecimal point, introducing the fractional digits.
    pub fn point() -> (f: PartFlags)
        ensures
            f@ == POINT_BIT,
    {
        PartFlags { bits: POINT_BIT }
    }

    /// One or more fractional digits, preceded by a hexadecimal point.
    pub fn fraction() -> (f: PartFlags)
        ensures
            f@ == FRACTION_BIT,
    {
        PartFlags { bits: FRACTION_BIT }
    }

    /// An exponent, introduced by a `'p'` or `'P'` character.
    pub fn exponent() -> (f: PartFlags)
        ensures
            f@ == EXPONENT_BIT,
    {
        PartFlags { bits: EXPONENT_BIT }
    }

    /// A type suffix letter, indicating a concrete numerical type.
    pub fn type_suffix() -> (f: PartFlags)
        ensures
            f@ == TYPE_SUFFIX_BIT,
    {
        PartFlags { bits: TYPE_SUFFIX_BIT }
    }

    /// The flags as bits.
    pub fn bits(&self) -> (b: u32)
        ensures
            b == self@,
    {
        self.bits
    }

    /// Whether every flag of `other` is set in `self`.
    pub fn contains(&self, other: PartFlags) -> (b: bool)
        ensures
            b == (self@ & other@ == other@),
    {
        self.bits & other.bits == other.bits
    }

    /// Whether some flag of `other` is set in `self`.
    pub fn intersects(&self, other: PartFlags) -> (b: bool)
        ensures
            b == (self@ & other@ != 0),
    {
        self.bits & other.bits != 0
    }

    /// The flags set in either `self` or `other`.
    pub fn union(self, other: PartFlags) -> (f: PartFlags)
        ensures
            f@ == self@ | other@,
    {
        PartFlags { bits: self.bits | other.bits }
    }

    /// Set every flag of `other` in `self`.
    pub fn insert(&mut self, other: PartFlags)
        ensures
            final(self)@ == old(self)@ | other@,
    {
        self.bits = self.bits | other.bits;
    }
}

/// A hexadecimal literal in the process of being parsed.
///
/// Once all its digits have been pushed, the literal's value is
/// `sign * mantissa * 2**(exponent + explicit_exponent)`.
///
/// Digits are pushed in two phases: first the whole-number digits, which
/// leave `last_digit_exponent` at zero, then the fractional digits, each of
/// which lowers `last_digit_exponent` by four. Measured in units of
/// `2**last_digit_exponent`, the digits pushed so far form the whole number
/// `scaled()`; its 64 most significant bits are kept, and `exact` records
/// whether anything below them was lost.
///
/// Trailing zeros are never stored in `mantissa`: `0x20` is `mantissa: 0x1,
/// exponent: 5`.
///
/// The type parameter `S` gives the type of the language-specific suffix.
#[derive(Clone, Debug, Eq, PartialEq)]
pub struct Parts<S> {
    /// Which parts of the literal were present in the input.
    pub present: PartFlags,
    /// The sign of the literal, either `1` or `-1`; `1` if no sign was
    /// present.
    pub sign: i32,
    /// The most significant bits of the value: zero if the input contains only
    /// zero digits, otherwise odd.
    pub mantissa: u64,
    /// The power of two by which `mantissa` is multiplied to give the value of
    /// the whole-number and fractional digits; zero when `mantissa` is.
    pub exponent: i32,
    /// The place value, as a power of two, of the most recently pushed
    /// fractional digit; zero while whole-number digits are pushed.
    pub last_digit_exponent: i32,
    /// The exponent written explicitly in the literal, or zero; it must be
    /// added to `exponent` to obtain the literal's full value.
    pub explicit_exponent: i32,
    /// True if `mantissa` and `exponent` capture every digit presented.
    pub exact: bool,
    /// A language-specific type suffix.
    pub suffix: Option<S>,
}

impl<S> Parts<S> {
    /// The width of `mantissa` in bits.
    pub const MANTISSA_BITS: u32 = 64;

    /// The representation invariant: trailing zeros live in the exponent, and
    /// no digit lies below the last one pushed.
    pub open spec fn wf(&self) -> bool {
        &&& self.mantissa == 0 ==> self.exponent == 0
        &&& self.mantissa != 0 ==> self.mantissa % 2 == 1 && self.last_digit_exponent
            <= self.exponent
    }

    /// The digits' value, in units of `2**last_digit_exponent`.
    pub open spec fn scaled(&self) -> nat {
        if self.mantissa == 0 {
            0
        } else {
            self.mantissa as nat * pow2((self.exponent - self.last_digit_exponent) as nat)
        }
    }

    /// The fields that pushing digits leaves alone are unchanged from `other`.
    pub open spec fn same_literal_fields(&self, other: &Parts<S>) -> bool {
        &&& self.sign == other.sign
        &&& self.explicit_exponent == other.explicit_exponent
        &&& self.suffix == other.suffix
    }
}

/// Flag sets with the same bits are the same.
pub proof fn lemma_part_flags_determined_by_bits(a: PartFlags, b: PartFlags)
    requires
        a@ == b@,
    ensures
        a == b,
{
}

/// Well-formed `Parts` are determined by the place of their last digit, the
/// value of their digits in units of that place, their exactness, and the
/// fields that digits do not touch.
pub proof fn lemma_parts_determined_by_value<S>(a: Parts<S>, b: Parts<S>)
    requires
        a.wf(),
        b.wf(),
        a.last_digit_exponent == b.last_digit_exponent,
        a.scaled() == b.scaled(),
        a.exact == b.exact,
        a.present@ == b.present@,
        a.same_literal_fields(&b),
    ensures
        a == b,
{
    if a.mantissa != 0 && b.mantissa != 0 {
        lemma_odd_form_unique(
            a.mantissa as nat,
            (a.exponent - a.last_digit_exponent) as nat,
            b.mantissa as nat,
            (b.exponent - b.last_digit_exponent) as nat,
        );
    } else if a.mantissa != 0 {
        lemma_trailing_zero_count_odd(a.mantissa as nat, (a.exponent - a.last_digit_exponent) as nat);
    } else if b.mantissa != 0 {
        lemma_trailing_zero_count_odd(b.mantissa as nat, (b.exponent - b.last_digit_exponent) as nat);
    }
}

} // verus!
