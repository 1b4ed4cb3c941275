//! Definition of the [`Fraction`] type.
use vstd::prelude::*;
use vstd::arithmetic::power2::*;
use vstd::arithmetic::mul::*;
use vstd::string::*;

use crate::hex::{
    all_hex_digits, append_hex_digits, hex_digit, hex_run_ends_at, hex_value, is_hex_digit,
    lemma_all_hex_prefix, lemma_append_bound, lemma_append_one,
};
use crate::significance::{
    append_digit, keep_64_bits, lemma_bit_length_le, lemma_digit_trailing_zeros,
    lemma_keep_compose, lemma_keep_representable, lemma_keep_truncates, lemma_pow2_le,
    lemma_strip_trailing_zeros,
    lemma_keep_bit_length, lemma_odd_form_unique, lemma_trailing_zero_count_odd,
    lemma_trailing_zeros_below_bit_length, trailing_zero_count,
};
use crate::whole::DigitError;

verus! {

/// The fractional part of a hexadecimal float literal, accumulated digit by
/// digit.
///
/// It represents `mantissa * 2**exponent`. Leading and trailing zero digits
/// cost nothing: `0.0000000000000000000012300000000000000000000` is held
/// exactly as `0x123 * 2**-92`.
///
/// Digits are counted from the hexadecimal point: `last_digit_exponent` is
/// the power of two giving the place value of the most recently pushed
/// digit. Measured in units of that place, the digits read so far form the
/// whole number `scaled()`.
#[derive(Copy, Clone, Debug, Eq, PartialEq)]
pub struct Fraction {
    /// The most significant bits of the value; zero if only zero digits have
    /// been seen, otherwise odd.
    pub mantissa: u64,
    /// The power of two by which `mantissa` is multiplied; zero when
    /// `mantissa` is.
    pub exponent: i32,
    /// The place value, as a power of two, of the most recently pushed
    /// digit. Initially zero.
    pub last_digit_exponent: i32,
    /// True if `mantissa` and `exponent` capture every digit presented.
    pub exact: bool,
}

/// A digit can be pushed onto a fraction whose digits, in units of the last
/// digit's place, have the value `v`, without its exponent overflowing.
pub open spec fn fraction_push_fits(v: nat) -> bool {
    v == 0 || trailing_zero_count(v) + 4 <= i32::MAX
}

/// Every digit of the leading run of hexadecimal digits of `s` can be pushed,
/// in turn, onto a fraction whose last digit sits at place `2**ld` and whose
/// digits have the value `v` in units of that place: each digit's place stays
/// within range, and each nonzero digit lands close enough below the mantissa
/// for the distance to be an `i32`.
pub open spec fn fraction_digits_fit(ld: int, v: nat, s: Seq<char>) -> bool {
    forall|i: int|
        0 <= i < s.len() && #[trigger] all_hex_digits(s.take(i + 1)) ==> {
            &&& ld - 4 * (i + 1) >= i32::MIN
            &&& s[i] != '0' ==> fraction_push_fits(keep_64_bits(append_hex_digits(v, s.take(i))))
        }
}

/// Pushing digits onto a fraction whose digits have fewer than `n` bits
/// cannot overflow its exponents while `n` plus four bits per digit, and four
/// more, fit in an `i32`, and the last digit's place stays within range.
pub proof fn lemma_fraction_digits_fit(ld: int, v: nat, n: nat, s: Seq<char>)
    requires
        v < pow2(n),
        n + 4 * s.len() + 4 <= i32::MAX,
        ld - 4 * s.len() >= i32::MIN,
    ensures
        fraction_digits_fit(ld, v, s),
{
    assert forall|i: int|
        0 <= i < s.len() && #[trigger] all_hex_digits(s.take(i + 1)) implies {
        &&& ld - 4 * (i + 1) >= i32::MIN
        &&& s[i] != '0' ==> fraction_push_fits(keep_64_bits(append_hex_digits(v, s.take(i))))
    } by {
        lemma_all_hex_prefix(s, i, i + 1);
        let a = append_hex_digits(v, s.take(i));
        lemma_append_bound(v, n, s.take(i));
        assert(s.take(i).len() == i);
        lemma_bit_length_le(a, (n + 4 * i) as nat);
        lemma_keep_bit_length(a);
        if keep_64_bits(a) > 0 {
            lemma_trailing_zeros_below_bit_length(keep_64_bits(a));
        }
    }
}

impl Fraction {
    /// The representation invariant: trailing zeros live in the exponent, and
    /// no digit lies below the last one pushed.
    pub open spec fn wf(self) -> bool {
        &&& self.mantissa == 0 ==> self.exponent == 0
        &&& self.mantissa != 0 ==> self.mantissa % 2 == 1 && self.last_digit_exponent
            <= self.exponent
    }

    /// The value, in units of `2**last_digit_exponent`.
    pub open spec fn scaled(self) -> nat {
        if self.mantissa == 0 {
            0
        } else {
            self.mantissa as nat * pow2((self.exponent - self.last_digit_exponent) as nat)
        }
    }

    /// The value `mantissa * 2**exponent` is below one: zero, or a negative
    /// exponent with `mantissa` below `2**-exponent`.
    pub open spec fn below_one(self) -> bool {
        self.mantissa == 0 || (self.exponent < 0 && self.mantissa < pow2((-self.exponent) as nat))
    }

    /// The fraction zero, with no digits pushed.
    pub fn zero() -> (f: Fraction)
        ensures
            f.wf(),
            f.scaled() == 0,
            f.mantissa == 0,
            f.exponent == 0,
            f.last_digit_exponent == 0,
            f.exact,
            f.below_one(),
    {
        Fraction { mantissa: 0, exponent: 0, last_digit_exponent: 0, exact: true }
    }

    /// The fraction `mantissa * 2**exponent`, with the next digit to be
    /// pushed placed just to the right of `2**exponent`. It is below one
    /// when `mantissa` is below `2**-exponent`.
    pub fn with_exponent(mantissa: u64, exponent: i32) -> (f: Fraction)
        requires
            mantissa == 0 || exponent < 0,
        ensures
            f.wf(),
            f.scaled() == mantissa,
            f.last_digit_exponent == exponent,
            f.exact,
            exponent <= 0 ==> (f.below_one() <==> mantissa < pow2((-exponent) as nat)),
    {
        if mantissa == 0 {
            let f = Fraction { mantissa: 0, exponent: 0, last_digit_exponent: exponent, exact: true };
            proof {
                lemma_pow2_pos((-exponent) as nat);
            }
            return f;
        }
        let trailing_zeros = mantissa.trailing_zeros();
        proof {
            lemma_strip_trailing_zeros(mantissa);
        }
        let f = Fraction {
            mantissa: mantissa >> trailing_zeros,
            exponent: exponent + trailing_zeros as i32,
            last_digit_exponent: exponent,
            exact: true,
        };
        proof {
            lemma_below_one_scaled(f);
        }
        f
    }

    /// Add the hexadecimal digit `digit` to the right end of `self`: the
    /// digits' value, now in units of the new last place, is sixteen times
    /// the old plus `digit`, keeping only its 64 most significant bits.
    ///
    /// A zero digit only lowers `last_digit_exponent`. A fraction below one,
    /// with its last digit after the point, stays below one.
    pub fn push_hex_digit(&mut self, digit: u32)
        requires
            digit < 16,
            old(self).last_digit_exponent - 4 >= i32::MIN,
            digit != 0 ==> old(self).wf(),
            digit != 0 && old(self).mantissa != 0 ==> old(self).exponent
                - old(self).last_digit_exponent + 4 <= i32::MAX,
        ensures
            final(self).last_digit_exponent == old(self).last_digit_exponent - 4,
            digit == 0 ==> {
                &&& final(self).mantissa == old(self).mantissa
                &&& final(self).exponent == old(self).exponent
                &&& final(self).exact == old(self).exact
            },
            old(self).wf() ==> {
                &&& final(self).wf()
                &&& final(self).scaled() == keep_64_bits(old(self).scaled() * 16 + digit as nat)
                &&& final(self).exact == (old(self).exact && final(self).scaled()
                    == old(self).scaled() * 16 + digit)
            },
            old(self).wf() && old(self).last_digit_exponent <= 0 && old(self).below_one()
                ==> final(self).below_one(),
    {
        let Fraction { mantissa, exponent, .. } = *self;
        let ghost before = *self;
        proof {
            lemma2_to64();
            lemma2_to64_rest();
            lemma_bit_length_le(digit as nat, 64);
            lemma_keep_truncates(before.scaled() * 16 + digit as nat);
            if mantissa != 0 && exponent >= self.last_digit_exponent {
                let s = (exponent - self.last_digit_exponent) as nat;
                lemma_pow2_adds(s, 4);
                lemma_mul_is_associative(mantissa as int, pow2(s) as int, 16);
                assert((exponent - (self.last_digit_exponent - 4)) as nat == s + 4);
            }
        }
        // Advance `last_digit_exponent` to this digit's place.
        self.last_digit_exponent = self.last_digit_exponent - 4;
        if digit == 0 {
            proof {
                if mantissa != 0 {
                    lemma_keep_representable(
                        mantissa as nat,
                        (exponent - self.last_digit_exponent) as nat,
                    );
                } else {
                    assert(keep_64_bits(0) == 0);
                }
            }
            return;
        }
        let trailing = digit.trailing_zeros();
        proof {
            lemma_digit_trailing_zeros(digit);
        }
        if mantissa == 0 {
            // There is nothing to shift, so the digit always fits exactly.
            self.mantissa = (digit >> trailing) as u64;
            self.exponent = self.last_digit_exponent + trailing as i32;
            proof {
                if before.last_digit_exponent <= 0 && before.below_one() {
                    lemma_push_stays_below_one(before, *self, digit as nat);
                }
            }
            return;
        }
        // The new digit lands `gap` bits below the mantissa's lowest bit.
        let gap = (exponent - self.last_digit_exponent) as u64;
        let (m, t, exact) = append_digit(mantissa, gap, digit);
        self.mantissa = m;
        self.exponent = self.last_digit_exponent + t as i32;
        if !exact {
            self.exact = false;
        }
        proof {
            if before.last_digit_exponent <= 0 && before.below_one() {
                lemma_push_stays_below_one(before, *self, digit as nat);
            }
        }
    }

    /// Push all hexadecimal digits at the start of `digits` onto `self`.
    ///
    /// Return the remaining portion of `digits`, which is either empty, or
    /// starts with a character that is not a hexadecimal digit. A fraction
    /// below one stays below one.
    pub fn consume_hex_digits<'d>(&mut self, digits: &'d str) -> (rest: &'d str)
        requires
            old(self).wf(),
            fraction_digits_fit(old(self).last_digit_exponent as int, old(self).scaled(), digits@),
        ensures
            final(self).wf(),
            hex_run_ends_at(digits@, digits@.len() - rest@.len()),
            rest@ == digits@.skip(digits@.len() - rest@.len()),
            final(self).last_digit_exponent == old(self).last_digit_exponent - 4 * (
            digits@.len() - rest@.len()),
            final(self).scaled() == keep_64_bits(
                append_hex_digits(old(self).scaled(), digits@.take(digits@.len() - rest@.len())),
            ),
            final(self).exact == (old(self).exact && final(self).scaled() == append_hex_digits(
                old(self).scaled(),
                digits@.take(digits@.len() - rest@.len()),
            )),
            old(self).last_digit_exponent <= 0 && old(self).below_one()
                ==> final(self).below_one(),
    {
        let ghost v0 = self.scaled();
        let ghost ld0 = self.last_digit_exponent as int;
        let ghost exact0 = self.exact;
        let ghost before = *self;
        proof {
            lemma2_to64_rest();
            if self.mantissa != 0 {
                lemma_keep_representable(
                    self.mantissa as nat,
                    (self.exponent - self.last_digit_exponent) as nat,
                );
            }
            assert(digits@.take(0) =~= Seq::<char>::empty());
        }
        let len = digits.unicode_len();
        let mut i: usize = 0;
        while i < len
            invariant_except_break
                i <= len,
                len == digits@.len(),
                all_hex_digits(digits@.take(i as int)),
                fraction_digits_fit(ld0, v0, digits@),
                self.wf(),
                self.last_digit_exponent == ld0 - 4 * i,
                self.scaled() == keep_64_bits(append_hex_digits(v0, digits@.take(i as int))),
                self.exact == (exact0 && self.scaled() == append_hex_digits(
                    v0,
                    digits@.take(i as int),
                )),
            ensures
                i <= len,
                len == digits@.len(),
                hex_run_ends_at(digits@, i as int),
                self.wf(),
                self.last_digit_exponent == ld0 - 4 * i,
                self.scaled() == keep_64_bits(append_hex_digits(v0, digits@.take(i as int))),
                self.exact == (exact0 && self.scaled() == append_hex_digits(
                    v0,
                    digits@.take(i as int),
                )),
            decreases len - i,
        {
            let c = digits.get_char(i);
            match hex_digit(c) {
                Some(d) => {
                    let ghost a = append_hex_digits(v0, digits@.take(i as int));
                    proof {
                        lemma_append_one(v0, digits@, i as int);
                        assert(all_hex_digits(digits@.take(i + 1)));
                        assert(d != 0 ==> digits@[i as int] != '0');
                        if self.mantissa != 0 {
                            lemma_trailing_zero_count_odd(
                                self.mantissa as nat,
                                (self.exponent - self.last_digit_exponent) as nat,
                            );
                        }
                        lemma_keep_compose(a, d as nat);
                    }
                    self.push_hex_digit(d);
                    i = i + 1;
                },
                None => {
                    break ;
                },
            }
        }
        proof {
            if ld0 <= 0 && before.below_one() {
                let t = digits@.take(i as int);
                lemma_below_one_scaled(before);
                lemma_below_one_scaled(*self);
                lemma_append_bound(v0, (-ld0) as nat, t);
                lemma_keep_truncates(append_hex_digits(v0, t));
                assert(t.len() == i);
                assert((-ld0) as nat + 4 * t.len() == (-self.last_digit_exponent) as nat);
            }
        }
        digits.substring_char(i, len)
    }

    /// Construct a [`Fraction`] value from the entire contents of `digits`.
    ///
    /// If `digits` does not consist entirely of hexadecimal digits, return an
    /// error.
    pub fn from_str(digits: &str) -> (r: Result<Fraction, DigitError>)
        requires
            fraction_digits_fit(0, 0, digits@),
        ensures
            r is Ok <==> all_hex_digits(digits@),
            r matches Ok(f) ==> {
                &&& f.wf()
                &&& f.last_digit_exponent == -4 * digits@.len()
                &&& f.scaled() == keep_64_bits(hex_value(digits@))
                &&& f.exact == (f.scaled() == hex_value(digits@))
            },
            r matches Err(e) ==> e == DigitError::InvalidDigit,
    {
        let mut f = Fraction::zero();
        let rest = f.consume_hex_digits(digits);
        if !rest.is_empty() {
            // We were stopped by a character that is not a hex digit, not by
            // reaching the end of the string.
            proof {
                let n = digits@.len() - rest@.len();
                assert(!is_hex_digit(digits@[n]));
            }
            return Err(DigitError::InvalidDigit);
        }
        proof {
            assert(digits@.take(digits@.len() as int) =~= digits@);
        }
        Ok(f)
    }
}

/// For a well-formed fraction whose last digit lies after the point, being
/// below one is the same as its digits' value, in units of the last digit's
/// place, being below `2**-last_digit_exponent`.
pub proof fn lemma_below_one_scaled(f: Fraction)
    requires
        f.wf(),
        f.last_digit_exponent <= 0,
    ensures
        f.below_one() <==> f.scaled() < pow2((-f.last_digit_exponent) as nat),
{
    let l = (-f.last_digit_exponent) as nat;
    lemma_pow2_pos(l);
    if f.mantissa != 0 {
        let g = (f.exponent - f.last_digit_exponent) as nat;
        let m = f.mantissa as nat;
        lemma_pow2_pos(g);
        if f.exponent < 0 {
            let k = (-f.exponent) as nat;
            assert(k + g == l);
            lemma_pow2_adds(k, g);
            if m < pow2(k) {
                lemma_mul_strict_inequality(m as int, pow2(k) as int, pow2(g) as int);
            } else {
                lemma_mul_inequality(pow2(k) as int, m as int, pow2(g) as int);
            }
        } else {
            lemma_pow2_le(l, g);
            lemma_mul_inequality(1, m as int, pow2(g) as int);
        }
    }
}

/// After a push that keeps the 64 leading bits, a fraction below one stays
/// below one.
proof fn lemma_push_stays_below_one(before: Fraction, after: Fraction, digit: nat)
    requires
        before.wf(),
        before.last_digit_exponent <= 0,
        before.below_one(),
        digit < 16,
        after.wf(),
        after.last_digit_exponent == before.last_digit_exponent - 4,
        after.scaled() <= before.scaled() * 16 + digit,
    ensures
        after.below_one(),
{
    let l = (-before.last_digit_exponent) as nat;
    lemma_below_one_scaled(before);
    lemma_below_one_scaled(after);
    lemma_pow2_adds(l, 4);
    lemma2_to64();
    assert((-after.last_digit_exponent) as nat == l + 4);
}

/// A well-formed `Fraction` is determined by the place of its last digit,
/// the value of its digits in units of that place, and whether it is exact.
pub proof fn lemma_fraction_determined_by_value(a: Fraction, b: Fraction)
    requires
        a.wf(),
        b.wf(),
        a.last_digit_exponent == b.last_digit_exponent,
        a.scaled() == b.scaled(),
        a.exact == b.exact,
    ensures
        a == b,
{
    if a.mantissa != 0 && b.mantissa != 0 {
        lemma_odd_form_unique(
            a.mantissa as nat,
            (a.exponent - a.last_digit_exponent) as nat,
            b.mantissa as nat,
            (b.exponent - b.last_digit_exponent) as nat,
        );
    } else if a.mantissa != 0 {
        lemma_trailing_zero_count_odd(a.mantissa as nat, (a.exponent - a.last_digit_exponent) as nat);
    } else if b.mantissa != 0 {
        lemma_trailing_zero_count_odd(b.mantissa as nat, (b.exponent - b.last_digit_exponent) as nat);
    }
}

} // verus!
