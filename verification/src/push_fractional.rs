//! Implementation of [`Parts::push_fractional_digit`] and friends.
use vstd::prelude::*;
use vstd::arithmetic::power2::*;
use vstd::arithmetic::mul::*;
use vstd::string::*;

use crate::hex::{
    all_hex_digits, append_hex_digits, hex_digit, hex_digit_value, hex_run_ends_at, hex_value,
    is_hex_digit, lemma_all_hex_prefix, lemma_append_bound, lemma_append_one,
};
use crate::parts::{lemma_parts_determined_by_value, PartFlags, Parts, FRACTION_BIT};
use crate::significance::{
    append_digit, keep_64_bits, lemma_bit_length_le, lemma_digit_trailing_zeros,
    lemma_keep_bit_length, lemma_keep_compose, lemma_keep_representable, lemma_odd_form_unique,
    lemma_trailing_zero_count_odd, lemma_trailing_zeros_below_bit_length, trailing_zero_count,
};
use crate::fraction::Fraction;
use crate::whole::DigitError;

verus! {

/// A fractional digit can be pushed onto `Parts` whose digits have the value
/// `v` in units of the last digit's place, without the exponent overflowing.
pub open spec fn fractional_digit_fits(v: nat) -> bool {
    v == 0 || trailing_zero_count(v) + 4 <= i32::MAX
}

/// Every digit of the leading run of hexadecimal digits of `s` can be pushed,
/// in turn, as a fractional digit onto `Parts` whose last digit sits at place
/// `2**ld` and whose digits have the value `v` in units of that place: each
/// digit's place stays within range, and each nonzero digit lands close
/// enough below the mantissa for the distance to be an `i32`.
pub open spec fn fractional_digits_fit(ld: int, v: nat, s: Seq<char>) -> bool {
    forall|i: int|
        0 <= i < s.len() && #[trigger] all_hex_digits(s.take(i + 1)) ==> {
            &&& ld - 4 * (i + 1) >= i32::MIN
            &&& s[i] != '0' ==> fractional_digit_fits(
                keep_64_bits(append_hex_digits(v, s.take(i))),
            )
        }
}

/// Pushing fractional digits onto `Parts` whose digits have fewer than `n`
/// bits cannot overflow its exponents while `n` plus four bits per digit, and
/// four more, fit in an `i32`, and the last digit's place stays within range.
pub proof fn lemma_fractional_digits_fit(ld: int, v: nat, n: nat, s: Seq<char>)
    requires
        v < pow2(n),
        n + 4 * s.len() + 4 <= i32::MAX,
        ld - 4 * s.len() >= i32::MIN,
    ensures
        fractional_digits_fit(ld, v, s),
{
    assert forall|i: int|
        0 <= i < s.len() && #[trigger] all_hex_digits(s.take(i + 1)) implies {
        &&& ld - 4 * (i + 1) >= i32::MIN
        &&& s[i] != '0' ==> fractional_digit_fits(keep_64_bits(append_hex_digits(v, s.take(i))))
    } by {
        lemma_all_hex_prefix(s, i, i + 1);
        let a = append_hex_digits(v, s.take(i));
        lemma_append_bound(v, n, s.take(i));
        assert(s.take(i).len() == i);
        lemma_bit_length_le(a, (n + 4 * i) as nat);
        lemma_keep_bit_length(a);
        if keep_64_bits(a) > 0 {
            lemma_trailing_zeros_below_bit_length(keep_64_bits(a));
        }
    }
}

impl<S> Parts<S> {
    /// `after` is what pushing the fractional digit `d` onto the well-formed
    /// `before` leaves: the digits' value, in units of the new last place, is
    /// the 64 leading bits of sixteen times the old plus `d`.
    pub open spec fn fractional_step(before: Parts<S>, d: nat, after: Parts<S>) -> bool {
        &&& after.wf()
        &&& after.same_literal_fields(&before)
        &&& after.present@ == before.present@ | FRACTION_BIT
        &&& after.last_digit_exponent == before.last_digit_exponent - 4
        &&& after.scaled() == keep_64_bits(before.scaled() * 16 + d)
        &&& after.exact == (before.exact && after.scaled() == before.scaled() * 16 + d)
    }

    /// `after` is what pushing the run of hexadecimal digits `s`, as
    /// fractional digits, onto the well-formed `before` leaves: the digits'
    /// value, in units of the new last place, is the 64 leading bits of the
    /// old value followed by the digits of `s`.
    pub open spec fn fractional_run(before: Parts<S>, s: Seq<char>, after: Parts<S>) -> bool {
        &&& after.wf()
        &&& after.same_literal_fields(&before)
        &&& after.present@ == if s.len() > 0 {
            before.present@ | FRACTION_BIT
        } else {
            before.present@
        }
        &&& after.last_digit_exponent == before.last_digit_exponent - 4 * s.len()
        &&& after.scaled() == keep_64_bits(append_hex_digits(before.scaled(), s))
        &&& after.exact == (before.exact && after.scaled() == append_hex_digits(
            before.scaled(),
            s,
        ))
    }

    /// Append a hexadecimal digit whose numeric value is `digit` to the
    /// fractional portion of `self`: if `self` represents `0x12`, pushing `3`
    /// makes it represent `0x12.3`, and then pushing `4` makes it represent
    /// `0x12.34`, keeping only the 64 most significant bits.
    ///
    /// This lowers `last_digit_exponent` by four, to track where the next
    /// digit falls, and adds `FRACTION` to `present`. A zero digit changes
    /// nothing else.
    pub fn push_fractional_digit(&mut self, digit: u32)
        requires
            digit < 16,
            old(self).last_digit_exponent <= 0,
            old(self).last_digit_exponent - 4 >= i32::MIN,
            digit != 0 ==> old(self).wf(),
            digit != 0 && old(self).mantissa != 0 ==> old(self).exponent
                - old(self).last_digit_exponent + 4 <= i32::MAX,
        ensures
            final(self).same_literal_fields(old(self)),
            final(self).present@ == old(self).present@ | FRACTION_BIT,
            final(self).last_digit_exponent == old(self).last_digit_exponent - 4,
            digit == 0 ==> {
                &&& final(self).mantissa == old(self).mantissa
                &&& final(self).exponent == old(self).exponent
                &&& final(self).exact == old(self).exact
            },
            old(self).wf() ==> Self::fractional_step(*old(self), digit as nat, *final(self)),
    {
        // Note that at least one fractional digit was present.
        self.present.insert(PartFlags::fraction());

        let mantissa = self.mantissa;
        let exponent = self.exponent;
        proof {
            lemma2_to64();
            lemma2_to64_rest();
            lemma_bit_length_le(digit as nat, 64);
            if mantissa != 0 && exponent >= self.last_digit_exponent {
                let s = (exponent - self.last_digit_exponent) as nat;
                lemma_pow2_adds(s, 4);
                lemma_mul_is_associative(mantissa as int, pow2(s) as int, 16);
                assert((exponent - (self.last_digit_exponent - 4)) as nat == s + 4);
            }
        }
        // Advance `last_digit_exponent` to this digit's place.
        self.last_digit_exponent = self.last_digit_exponent - 4;

        if digit == 0 {
            proof {
                if mantissa != 0 {
                    lemma_keep_representable(
                        mantissa as nat,
                        (exponent - self.last_digit_exponent) as nat,
                    );
                } else {
                    assert(keep_64_bits(0) == 0);
                }
            }
            return;
        }
        let trailing = digit.trailing_zeros();
        proof {
            lemma_digit_trailing_zeros(digit);
        }
        // When the mantissa is zero, a new digit always fits exactly.
        if mantissa == 0 {
            self.mantissa = (digit >> trailing) as u64;
            self.exponent = self.last_digit_exponent + trailing as i32;
            return;
        }
        // The new digit lands `gap` bits below the mantissa's lowest bit.
        let gap = (exponent - self.last_digit_exponent) as u64;
        let (m, t, exact) = append_digit(mantissa, gap, digit);
        self.mantissa = m;
        self.exponent = self.last_digit_exponent + t as i32;
        if !exact {
            self.exact = false;
        }
    }

    /// Push all hexadecimal digits at the start of `digits` onto the
    /// fractional portion of `self`.
    ///
    /// Return the remaining portion of `digits`, which is either empty, or
    /// starts with a character that is not a hexadecimal digit. If any digits
    /// were pushed, `present` gains `FRACTION`.
    pub fn consume_fractional_digits<'d>(&mut self, digits: &'d str) -> (rest: &'d str)
        requires
            old(self).wf(),
            old(self).last_digit_exponent <= 0,
            fractional_digits_fit(
                old(self).last_digit_exponent as int,
                old(self).scaled(),
                digits@,
            ),
        ensures
            hex_run_ends_at(digits@, digits@.len() - rest@.len()),
            rest@ == digits@.skip(digits@.len() - rest@.len()),
            Self::fractional_run(
                *old(self),
                digits@.take(digits@.len() - rest@.len()),
                *final(self),
            ),
    {
        let ghost v0 = self.scaled();
        let ghost ld0 = self.last_digit_exponent as int;
        let ghost exact0 = self.exact;
        let ghost present0 = self.present@;
        let ghost start = *self;
        proof {
            lemma2_to64_rest();
            if self.mantissa != 0 {
                lemma_keep_representable(
                    self.mantissa as nat,
                    (self.exponent - self.last_digit_exponent) as nat,
                );
            }
            assert(digits@.take(0) =~= Seq::<char>::empty());
        }
        let len = digits.unicode_len();
        let mut i: usize = 0;
        while i < len
            invariant_except_break
                i <= len,
                len == digits@.len(),
                all_hex_digits(digits@.take(i as int)),
                fractional_digits_fit(ld0, v0, digits@),
                ld0 <= 0,
                self.wf(),
                self.same_literal_fields(&start),
                self.present@ == if i > 0 {
                    present0 | FRACTION_BIT
                } else {
                    present0
                },
                self.last_digit_exponent == ld0 - 4 * i,
                self.scaled() == keep_64_bits(append_hex_digits(v0, digits@.take(i as int))),
                self.exact == (exact0 && self.scaled() == append_hex_digits(
                    v0,
                    digits@.take(i as int),
                )),
            ensures
                i <= len,
                len == digits@.len(),
                hex_run_ends_at(digits@, i as int),
                self.wf(),
                self.same_literal_fields(&start),
                self.present@ == if i > 0 {
                    present0 | FRACTION_BIT
                } else {
                    present0
                },
                self.last_digit_exponent == ld0 - 4 * i,
                self.scaled() == keep_64_bits(append_hex_digits(v0, digits@.take(i as int))),
                self.exact == (exact0 && self.scaled() == append_hex_digits(
                    v0,
                    digits@.take(i as int),
                )),
            decreases len - i,
        {
            let c = digits.get_char(i);
            match hex_digit(c) {
                Some(d) => {
                    let ghost a = append_hex_digits(v0, digits@.take(i as int));
                    proof {
                        lemma_append_one(v0, digits@, i as int);
                        assert(all_hex_digits(digits@.take(i + 1)));
                        assert(d != 0 ==> digits@[i as int] != '0');
                        if self.mantissa != 0 {
                            lemma_trailing_zero_count_odd(
                                self.mantissa as nat,
                                (self.exponent - self.last_digit_exponent) as nat,
                            );
                        }
                        lemma_keep_compose(a, d as nat);
                        let p = present0;
                        assert((p | FRACTION_BIT) | FRACTION_BIT == p | FRACTION_BIT)
                            by (bit_vector);
                    }
                    self.push_fractional_digit(d);
                    i = i + 1;
                },
                None => {
                    break ;
                },
            }
        }
        digits.substring_char(i, len)
    }

    /// Construct a `Parts` value whose fractional digits are the entire
    /// contents of `digits`.
    ///
    /// If `digits` does not consist entirely of hexadecimal digits, return an
    /// error.
    pub fn from_fractional_str(digits: &str) -> (r: Result<Self, DigitError>)
        requires
            fractional_digits_fit(0, 0, digits@),
        ensures
            r is Ok <==> all_hex_digits(digits@),
            r matches Ok(p) ==> {
                &&& p.wf()
                &&& p.present@ == if digits@.len() > 0 {
                    FRACTION_BIT
                } else {
                    0
                }
                &&& p.sign == 1
                &&& p.last_digit_exponent == -4 * digits@.len()
                &&& p.explicit_exponent == 0
                &&& p.suffix is None
                &&& p.scaled() == keep_64_bits(hex_value(digits@))
                &&& p.exact == (p.scaled() == hex_value(digits@))
            },
            r matches Err(e) ==> e == DigitError::InvalidDigit,
    {
        let mut w = Parts::new();
        let rest = w.consume_fractional_digits(digits);
        if !rest.is_empty() {
            // We were stopped by a character that is not a hex digit, not by
            // reaching the end of the string.
            proof {
                let n = digits@.len() - rest@.len();
                assert(!is_hex_digit(digits@[n]));
            }
            return Err(DigitError::InvalidDigit);
        }
        proof {
            assert(digits@.take(digits@.len() as int) =~= digits@);
            assert(0u32 | FRACTION_BIT == FRACTION_BIT) by (bit_vector);
        }
        Ok(w)
    }
}

/// Reading a string of digits as the fractional digits of `Parts` and as a
/// `Fraction` gives the same mantissa, exponent, last digit place and
/// exactness: each holds the 64 leading bits of the digits' value as an odd
/// mantissa times a power of two, and there is only one such form.
pub proof fn lemma_fractional_str_agrees<S>(s: Seq<char>, p: Parts<S>, f: Fraction)
    requires
        p.wf(),
        p.last_digit_exponent == -4 * s.len(),
        p.scaled() == keep_64_bits(hex_value(s)),
        p.exact == (p.scaled() == hex_value(s)),
        f.wf(),
        f.last_digit_exponent == -4 * s.len(),
        f.scaled() == keep_64_bits(hex_value(s)),
        f.exact == (f.scaled() == hex_value(s)),
    ensures
        p.mantissa == f.mantissa,
        p.exponent == f.exponent,
        p.last_digit_exponent == f.last_digit_exponent,
        p.exact == f.exact,
{
    let ld = p.last_digit_exponent;
    if p.mantissa != 0 && f.mantissa != 0 {
        lemma_odd_form_unique(
            p.mantissa as nat,
            (p.exponent - ld) as nat,
            f.mantissa as nat,
            (f.exponent - ld) as nat,
        );
    } else if p.mantissa != 0 {
        lemma_trailing_zero_count_odd(p.mantissa as nat, (p.exponent - ld) as nat);
    } else if f.mantissa != 0 {
        lemma_trailing_zero_count_odd(f.mantissa as nat, (f.exponent - ld) as nat);
    }
}

/// Consuming a run of digits leaves the same `Parts` as pushing its digits
/// one at a time: if each `steps[i + 1]` is what pushing digit `i` of `s`
/// onto `steps[i]` leaves, then what consuming all of `s` onto `steps[0]`
/// leaves is the last of them.
pub proof fn lemma_consume_fractional_is_pushes<S>(
    s: Seq<char>,
    steps: Seq<Parts<S>>,
    after: Parts<S>,
)
    requires
        all_hex_digits(s),
        steps.len() == s.len() + 1,
        steps[0].wf(),
        forall|i: int|
            0 <= i < s.len() ==> #[trigger] Parts::fractional_step(
                steps[i],
                hex_digit_value(s[i])->0 as nat,
                steps[i + 1],
            ),
        Parts::fractional_run(steps[0], s, after),
    ensures
        after == steps[s.len() as int],
{
    lemma_fractional_steps_make_run(s, steps, s.len() as int);
    assert(s.take(s.len() as int) =~= s);
    lemma_parts_determined_by_value(after, steps[s.len() as int]);
}

/// The first `k` pushes of a run of digits make up the run of its first `k`
/// digits.
proof fn lemma_fractional_steps_make_run<S>(s: Seq<char>, steps: Seq<Parts<S>>, k: int)
    requires
        all_hex_digits(s),
        steps.len() == s.len() + 1,
        steps[0].wf(),
        forall|i: int|
            0 <= i < s.len() ==> #[trigger] Parts::fractional_step(
                steps[i],
                hex_digit_value(s[i])->0 as nat,
                steps[i + 1],
            ),
        0 <= k <= s.len(),
    ensures
        Parts::fractional_run(steps[0], s.take(k), steps[k]),
    decreases k,
{
    let b = steps[0];
    if k == 0 {
        assert(s.take(0) =~= Seq::<char>::empty());
        lemma2_to64_rest();
        if b.mantissa != 0 {
            lemma_keep_representable(
                b.mantissa as nat,
                (b.exponent - b.last_digit_exponent) as nat,
            );
        }
    } else {
        let j = k - 1;
        lemma_fractional_steps_make_run(s, steps, j);
        let x = steps[j];
        let y = steps[j + 1];
        let d = hex_digit_value(s[j])->0 as nat;
        assert(Parts::fractional_step(x, d, y));
        assert(j + 1 == k);
        assert(is_hex_digit(s[j]));
        lemma_all_hex_prefix(s, j, s.len() as int);
        assert(s.take(s.len() as int) =~= s);
        lemma_append_one(b.scaled(), s, j);
        let a = append_hex_digits(b.scaled(), s.take(j));
        lemma_keep_compose(a, d);
        let p = b.present@;
        assert((p | FRACTION_BIT) | FRACTION_BIT == p | FRACTION_BIT) by (bit_vector);
        assert(s.take(k).len() == k);
    }
}

} // verus!
