//! Definition of the [`Whole`] type.
use vstd::prelude::*;
use vstd::arithmetic::power2::*;
use vstd::arithmetic::mul::*;
use vstd::string::*;

use crate::hex::{
    all_hex_digits, append_hex_digits, hex_digit, hex_run_ends_at, hex_value, is_hex_digit,
    lemma_all_hex_prefix, lemma_append_bound, lemma_append_one,
};
use crate::significance::{
    append_digit, keep_64_bits, lemma_bit_length_le, lemma_digit_trailing_zeros,
    lemma_keep_compose, lemma_keep_representable, lemma_strip_trailing_zeros,
    lemma_keep_bit_length, lemma_odd_form_unique, lemma_trailing_zero_count_odd,
    lemma_trailing_zeros_below_bit_length, trailing_zero_count,
};

verus! {

/// The whole-number part of a hexadecimal float literal, accumulated digit by
/// digit.
///
/// It represents the number `mantissa * 2**exponent`. Trailing zero bits are
/// always held in `exponent`, so that input like `12300000000000000000000`
/// (`0x123` times `2**80`) is represented exactly even though it does not fit
/// in a `u64`.
///
/// If more significant digits are supplied than `mantissa` can hold, the most
/// significant ones are kept, and `exact` becomes `false`.
#[derive(Copy, Clone, Eq, PartialEq, Debug)]
pub struct Whole {
    /// The most significant non-zero bits of the input; zero if the input
    /// holds only zero digits, otherwise odd.
    pub mantissa: u64,
    /// The power of two by which `mantissa` is multiplied; zero when
    /// `mantissa` is.
    pub exponent: u32,
    /// True if `mantissa` and `exponent` capture every digit presented.
    pub exact: bool,
}

/// A digit can be pushed onto a whole number of value `v` without its
/// exponent overflowing.
pub open spec fn whole_push_fits(v: nat) -> bool {
    v == 0 || trailing_zero_count(v) + 4 <= u32::MAX
}

/// Every digit of the leading run of hexadecimal digits of `s` can be pushed,
/// in turn, onto a whole number of value `v`.
pub open spec fn whole_digits_fit(v: nat, s: Seq<char>) -> bool {
    forall|i: int|
        0 <= i < s.len() && #[trigger] all_hex_digits(s.take(i + 1)) ==> whole_push_fits(
            keep_64_bits(append_hex_digits(v, s.take(i))),
        )
}

/// Pushing digits onto a whole number of fewer than `n` bits cannot overflow
/// the exponent while `n` plus four bits per digit, and four more, fit in a
/// `u32`: for instance, any string of fewer than `2**30` digits onto zero.
pub proof fn lemma_whole_digits_fit(v: nat, n: nat, s: Seq<char>)
    requires
        v < pow2(n),
        n + 4 * s.len() + 4 <= u32::MAX,
    ensures
        whole_digits_fit(v, s),
{
    assert forall|i: int|
        0 <= i < s.len() && #[trigger] all_hex_digits(s.take(i + 1)) implies whole_push_fits(
        keep_64_bits(append_hex_digits(v, s.take(i))),
    ) by {
        lemma_all_hex_prefix(s, i, i + 1);
        let a = append_hex_digits(v, s.take(i));
        lemma_append_bound(v, n, s.take(i));
        assert(s.take(i).len() == i);
        lemma_bit_length_le(a, (n + 4 * i) as nat);
        lemma_keep_bit_length(a);
        if keep_64_bits(a) > 0 {
            lemma_trailing_zeros_below_bit_length(keep_64_bits(a));
        }
    }
}

impl Whole {
    /// The representation invariant: trailing zeros live in the exponent.
    pub open spec fn wf(self) -> bool {
        &&& self.mantissa == 0 ==> self.exponent == 0
        &&& self.mantissa != 0 ==> self.mantissa % 2 == 1
    }

    /// The number represented.
    pub open spec fn value(self) -> nat {
        self.mantissa as nat * pow2(self.exponent as nat)
    }

    /// The whole number zero.
    pub fn zero() -> (w: Whole)
        ensures
            w.wf(),
            w.value() == 0,
            w.mantissa == 0,
            w.exponent == 0,
            w.exact,
    {
        Whole { mantissa: 0, exponent: 0, exact: true }
    }

    /// The whole number `value`.
    pub fn new(value: u64) -> (w: Whole)
        ensures
            w.wf(),
            w.value() == value,
            w.exact,
    {
        if value == 0 {
            return Whole::zero();
        }
        // How many trailing zero bits must we move into the exponent?
        let exponent = value.trailing_zeros();
        proof {
            lemma_strip_trailing_zeros(value);
        }
        Whole { mantissa: value >> exponent, exponent, exact: true }
    }

    /// Add the hexadecimal digit `digit` to the right end of `self`: the new
    /// value is sixteen times the old plus `digit`, keeping only its 64 most
    /// significant bits.
    pub fn push_hex_digit(&mut self, digit: u32)
        requires
            old(self).wf(),
            digit < 16,
            old(self).mantissa == 0 || old(self).exponent <= u32::MAX - 4,
        ensures
            final(self).wf(),
            final(self).value() == keep_64_bits(old(self).value() * 16 + digit as nat),
            final(self).exact == (old(self).exact && final(self).value() == old(self).value() * 16
                + digit),
    {
        let Whole { mantissa, exponent, exact: _ } = *self;
        proof {
            lemma2_to64();
            lemma_pow2_adds(exponent as nat, 4);
            lemma_mul_is_associative(mantissa as int, pow2(exponent as nat) as int, 16);
            lemma_bit_length_le(digit as nat, 64);
        }
        // A new trailing zero only moves the exponent.
        if digit == 0 {
            if mantissa != 0 {
                self.exponent = exponent + 4;
                proof {
                    lemma_keep_representable(mantissa as nat, self.exponent as nat);
                }
            } else {
                assert(keep_64_bits(0) == 0);
            }
            return;
        }
        let trailing = digit.trailing_zeros();
        proof {
            lemma_digit_trailing_zeros(digit);
        }
        if mantissa == 0 {
            // Nothing to shift: the digit becomes the mantissa.
            self.mantissa = (digit >> trailing) as u64;
            self.exponent = trailing;
            return;
        }
        // The digit's bits go `exponent + 4` places below the mantissa's
        // lowest bit; if they do not all fit, the most significant bits win.
        let (m, t, exact) = append_digit(mantissa, exponent as u64 + 4, digit);
        self.mantissa = m;
        self.exponent = t as u32;
        if !exact {
            self.exact = false;
        }
    }

    /// Push all hexadecimal digits at the start of `digits` onto `self`.
    ///
    /// Return the remaining portion of `digits`, which is either empty, or
    /// starts with a character that is not a hexadecimal digit.
    pub fn consume_hex_digits<'d>(&mut self, digits: &'d str) -> (rest: &'d str)
        requires
            old(self).wf(),
            whole_digits_fit(old(self).value(), digits@),
        ensures
            final(self).wf(),
            hex_run_ends_at(digits@, digits@.len() - rest@.len()),
            rest@ == digits@.skip(digits@.len() - rest@.len()),
            final(self).value() == keep_64_bits(
                append_hex_digits(old(self).value(), digits@.take(digits@.len() - rest@.len())),
            ),
            final(self).exact == (old(self).exact && final(self).value() == append_hex_digits(
                old(self).value(),
                digits@.take(digits@.len() - rest@.len()),
            )),
    {
        let ghost v0 = self.value();
        let ghost exact0 = self.exact;
        proof {
            lemma2_to64_rest();
            lemma_keep_representable(self.mantissa as nat, self.exponent as nat);
            assert(digits@.take(0) =~= Seq::<char>::empty());
        }
        let len = digits.unicode_len();
        let mut i: usize = 0;
        while i < len
            invariant_except_break
                i <= len,
                len == digits@.len(),
                all_hex_digits(digits@.take(i as int)),
                whole_digits_fit(v0, digits@),
                self.wf(),
                self.value() == keep_64_bits(append_hex_digits(v0, digits@.take(i as int))),
                self.exact == (exact0 && self.value() == append_hex_digits(
                    v0,
                    digits@.take(i as int),
                )),
            ensures
                i <= len,
                len == digits@.len(),
                hex_run_ends_at(digits@, i as int),
                self.wf(),
                self.value() == keep_64_bits(append_hex_digits(v0, digits@.take(i as int))),
                self.exact == (exact0 && self.value() == append_hex_digits(
                    v0,
                    digits@.take(i as int),
                )),
            decreases len - i,
        {
            let c = digits.get_char(i);
            match hex_digit(c) {
                Some(d) => {
                    let ghost a = append_hex_digits(v0, digits@.take(i as int));
                    proof {
                        lemma_append_one(v0, digits@, i as int);
                        assert(all_hex_digits(digits@.take(i + 1)));
                        if self.mantissa != 0 {
                            lemma_trailing_zero_count_odd(
                                self.mantissa as nat,
                                self.exponent as nat,
                            );
                        }
                        lemma_keep_compose(a, d as nat);
                    }
                    self.push_hex_digit(d);
                    i = i + 1;
                },
                None => {
                    break ;
                },
            }
        }
        digits.substring_char(i, len)
    }

    /// Construct a [`Whole`] value from the entire contents of `digits`.
    ///
    /// If `digits` does not consist entirely of hexadecimal digits, return an
    /// error.
    pub fn from_str(digits: &str) -> (r: Result<Whole, DigitError>)
        requires
            whole_digits_fit(0, digits@),
        ensures
            r is Ok <==> all_hex_digits(digits@),
            r matches Ok(w) ==> {
                &&& w.wf()
                &&& w.value() == keep_64_bits(hex_value(digits@))
                &&& w.exact == (w.value() == hex_value(digits@))
            },
            r matches Err(e) ==> e == DigitError::InvalidDigit,
    {
        let mut w = Whole::zero();
        let rest = w.consume_hex_digits(digits);
        if !rest.is_empty() {
            // We were stopped by a character that is not a hex digit, not by
            // reaching the end of the string.
            proof {
                let n = digits@.len() - rest@.len();
                assert(!is_hex_digit(digits@[n]));
            }
            return Err(DigitError::InvalidDigit);
        }
        proof {
            assert(digits@.take(digits@.len() as int) =~= digits@);
        }
        Ok(w)
    }
}

/// A well-formed `Whole` is determined by the number it represents and by
/// whether it is exact: there is only one way to write a number as an odd
/// mantissa times a power of two.
pub proof fn lemma_whole_determined_by_value(a: Whole, b: Whole)
    requires
        a.wf(),
        b.wf(),
        a.value() == b.value(),
        a.exact == b.exact,
    ensures
        a == b,
{
    lemma_pow2_pos(a.exponent as nat);
    lemma_pow2_pos(b.exponent as nat);
    if a.mantissa == 0 || b.mantissa == 0 {
        lemma_mul_strictly_positive(a.mantissa as int, pow2(a.exponent as nat) as int);
        lemma_mul_strictly_positive(b.mantissa as int, pow2(b.exponent as nat) as int);
    } else {
        lemma_odd_form_unique(
            a.mantissa as nat,
            a.exponent as nat,
            b.mantissa as nat,
            b.exponent as nat,
        );
    }
}

/// Reading back the hexadecimal digits of a `u64` gives the same `Whole` as
/// building it from the number: if `s` is all hexadecimal digits with the
/// value `v`, then what `from_str` makes of `s` is what `new` makes of `v`.
pub proof fn lemma_whole_from_digits_of_value(s: Seq<char>, v: u64, a: Whole, b: Whole)
    requires
        all_hex_digits(s),
        hex_value(s) == v,
        a.wf(),
        a.value() == keep_64_bits(hex_value(s)),
        a.exact == (a.value() == hex_value(s)),
        b.wf(),
        b.value() == v,
        b.exact,
    ensures
        a == b,
{
    lemma2_to64();
    lemma_keep_representable(v as nat, 0);
    lemma_whole_determined_by_value(a, b);
}

/// Why a string meant to hold only hexadecimal digits was refused.
#[derive(Copy, Clone, Debug, Eq, PartialEq)]
pub enum DigitError {
    /// The string holds a character that is not a hexadecimal digit.
    InvalidDigit,
}

} // verus!
