//! Parsing of WGSL hexadecimal literals.
//!
//! The syntax accepted follows WGSL's `hex_float_literal` and
//! `hex_int_literal` productions:
//!
//! - a prefix of `"0x"` or `"0X"`;
//! - zero or more hexadecimal digits, the whole-number portion;
//! - optionally, a hexadecimal point `'.'` followed by zero or more
//!   hexadecimal digits, the fractional portion;
//! - optionally, an exponent introducer `'p'` or `'P'`, an optional `'+'` or
//!   `'-'`, and one or more decimal digits: the power of two by which the
//!   number is multiplied;
//! - and an optional type suffix letter.
//!
//! Hexadecimal digits may be upper or lower case. In float literals either
//! the fraction or the exponent must be present, with at least one digit in
//! the whole or fractional portion; in integer literals the whole-number
//! portion must have at least one digit, and there is no fraction or
//! exponent.
use vstd::prelude::*;
use vstd::string::*;

use crate::hex::{
    all_hex_digits, append_hex_digits, hex_run_ends_at, hex_run_len, hex_value, is_hex_digit,
    lemma_append_bound,
    lemma_hex_run_len, lemma_keep_then_append,
};
use crate::parts::{
    PartFlags, Parts, ALL_BITS, EXPONENT_BIT, FRACTION_BIT, POINT_BIT, PREFIX_BIT, SIGN_BIT,
    TYPE_SUFFIX_BIT, WHOLE_BIT,
};
use crate::push_fractional::{fractional_digits_fit, lemma_fractional_digits_fit};
use crate::push_whole::{lemma_whole_digits_fit_parts, whole_digits_fit_parts};
use crate::significance::{keep_64_bits, lemma_keep_truncates};
use vstd::arithmetic::power2::*;

verus! {

/// A WGSL type suffix, indicating that the literal has a concrete type.
#[derive(Copy, Clone, Debug, Eq, PartialEq)]
pub enum Suffix {
    /// The suffix `'i'`, a 32-bit signed integer literal.
    I32,
    /// The suffix `'u'`, a 32-bit unsigned integer literal.
    U32,
    /// The suffix `'h'`, a 16-bit floating-point literal.
    F16,
    /// The suffix `'f'`, a 32-bit floating-point literal.
    F32,
}

/// Why a WGSL hexadecimal literal was refused.
#[derive(Copy, Clone, Debug, Eq, PartialEq)]
pub enum Error {
    /// The literal was missing its `0x` or `0X` prefix.
    MissingPrefix,
    /// The literal's exponent does not fit in an `i32`.
    ExponentOverflow,
    /// The literal's exponent has no digits.
    ExponentMissingDigits,
    /// An integer literal had no whole-number digits.
    MissingWhole,
    /// The literal had neither whole-number nor fractional digits.
    MissingWholeAndFraction,
}

// Decimal digits, for exponents.
/// The value of `c` as a decimal digit.
pub open spec fn decimal_digit_value(c: char) -> Option<u32> {
    if '0' <= c && c <= '9' {
        Some((c as u32 - '0' as u32) as u32)
    } else {
        None
    }
}

pub open spec fn is_decimal_digit(c: char) -> bool {
    decimal_digit_value(c) is Some
}

/// The number of decimal digits at the start of `s`.
pub open spec fn decimal_run_len(s: Seq<char>) -> nat
    decreases s.len(),
{
    if s.len() > 0 && is_decimal_digit(s[0]) {
        1 + decimal_run_len(s.drop_first())
    } else {
        0
    }
}

/// The value of the decimal numeral `s`.
pub open spec fn decimal_value(s: Seq<char>) -> nat
    decreases s.len(),
{
    if s.len() == 0 {
        0
    } else {
        decimal_value(s.drop_last()) * 10 + decimal_digit_value(s.last())->0 as nat
    }
}

/// Interpret `c` as a decimal digit, as `char::to_digit(10)` does.
fn decimal_digit(c: char) -> (r: Option<u32>)
    ensures
        r == decimal_digit_value(c),
        r matches Some(d) ==> d < 10,
{
    if '0' <= c && c <= '9' {
        Some(c as u32 - '0' as u32)
    } else {
        None
    }
}

/// The first `decimal_run_len(s)` characters of `s` are decimal digits, and
/// the next one, if any, is not.
proof fn lemma_decimal_run_len(s: Seq<char>, i: int)
    requires
        0 <= i < decimal_run_len(s),
    ensures
        decimal_run_len(s) <= s.len(),
        is_decimal_digit(s[i]),
        decimal_run_len(s) < s.len() ==> !is_decimal_digit(s[decimal_run_len(s) as int]),
    decreases s.len(),
{
    if i > 0 {
        lemma_decimal_run_len(s.drop_first(), i - 1);
    } else if decimal_run_len(s.drop_first()) > 0 {
        lemma_decimal_run_len(s.drop_first(), 0);
    }
}

/// The run's end: what follows it is not a digit.
proof fn lemma_decimal_run_end(s: Seq<char>)
    ensures
        decimal_run_len(s) <= s.len(),
        decimal_run_len(s) < s.len() ==> !is_decimal_digit(s[decimal_run_len(s) as int]),
    decreases s.len(),
{
    if s.len() > 0 && is_decimal_digit(s[0]) {
        lemma_decimal_run_end(s.drop_first());
    }
}

/// A numeral's value does not shrink as digits are appended.
proof fn lemma_decimal_value_grows(s: Seq<char>, i: int, j: int)
    requires
        0 <= i <= j <= s.len(),
    ensures
        decimal_value(s.take(i)) <= decimal_value(s.take(j)),
    decreases j - i,
{
    if i < j {
        lemma_decimal_value_grows(s, i, j - 1);
        assert(s.take(j).drop_last() =~= s.take(j - 1));
    }
}

// The shape of a literal.
/// `allow` contains the flag `bit`.
pub open spec fn allows(allow: u32, bit: u32) -> bool {
    allow & bit == bit
}

pub open spec fn is_sign_char(c: char) -> bool {
    c == '+' || c == '-'
}

/// The length of the literal's leading sign, if allowed and present.
pub open spec fn sign_len(s: Seq<char>, allow: u32) -> int {
    if allows(allow, SIGN_BIT) && s.len() > 0 && is_sign_char(s[0]) {
        1
    } else {
        0
    }
}

/// The literal's sign: `-1` after a leading `'-'`, and `1` otherwise.
pub open spec fn literal_sign(s: Seq<char>, allow: u32) -> int {
    if sign_len(s, allow) == 1 && s[0] == '-' {
        -1
    } else {
        1
    }
}

/// The length of the `"0x"` or `"0X"` prefix, if allowed and present.
pub open spec fn prefix_len(s: Seq<char>, allow: u32) -> int {
    let a = sign_len(s, allow);
    if allows(allow, PREFIX_BIT) && a + 2 <= s.len() && s[a] == '0' && (s[a + 1] == 'x' || s[a
        + 1] == 'X') {
        2
    } else {
        0
    }
}

/// Where the whole-number digits start.
pub open spec fn whole_start(s: Seq<char>, allow: u32) -> int {
    sign_len(s, allow) + prefix_len(s, allow)
}

/// The number of whole-number digits.
pub open spec fn whole_len(s: Seq<char>, allow: u32) -> int {
    if allows(allow, WHOLE_BIT) {
        hex_run_len(s.skip(whole_start(s, allow))) as int
    } else {
        0
    }
}

/// Where the whole-number digits end.
pub open spec fn whole_end(s: Seq<char>, allow: u32) -> int {
    whole_start(s, allow) + whole_len(s, allow)
}

/// A hexadecimal point follows the whole-number digits, and is allowed.
pub open spec fn has_point(s: Seq<char>, allow: u32) -> bool {
    allows(allow, POINT_BIT) && whole_end(s, allow) < s.len() && s[whole_end(s, allow)] == '.'
}

/// The number of fractional digits.
pub open spec fn fraction_len(s: Seq<char>, allow: u32) -> int {
    if has_point(s, allow) {
        hex_run_len(s.skip(whole_end(s, allow) + 1)) as int
    } else {
        0
    }
}

/// Where the digits of the mantissa, and any point, end.
pub open spec fn fraction_end(s: Seq<char>, allow: u32) -> int {
    if has_point(s, allow) {
        whole_end(s, allow) + 1 + fraction_len(s, allow)
    } else {
        whole_end(s, allow)
    }
}

/// An exponent introducer `'p'` or `'P'` follows, and is allowed.
pub open spec fn has_exponent_marker(s: Seq<char>, allow: u32) -> bool {
    let f = fraction_end(s, allow);
    allows(allow, EXPONENT_BIT) && f < s.len() && (s[f] == 'p' || s[f] == 'P')
}

/// The length of the exponent's sign, if present.
pub open spec fn exponent_sign_len(s: Seq<char>, allow: u32) -> int {
    let f = fraction_end(s, allow);
    if has_exponent_marker(s, allow) && f + 1 < s.len() && is_sign_char(s[f + 1]) {
        1
    } else {
        0
    }
}

/// Where the exponent's digits start.
pub open spec fn exponent_digits_start(s: Seq<char>, allow: u32) -> int {
    fraction_end(s, allow) + 1 + exponent_sign_len(s, allow)
}

/// The number of the exponent's decimal digits.
pub open spec fn exponent_digits_len(s: Seq<char>, allow: u32) -> int {
    if has_exponent_marker(s, allow) {
        decimal_run_len(s.skip(exponent_digits_start(s, allow))) as int
    } else {
        0
    }
}

/// The exponent's value, with its sign.
pub open spec fn exponent_value(s: Seq<char>, allow: u32) -> int {
    let start = exponent_digits_start(s, allow);
    let v = decimal_value(s.subrange(start, start + exponent_digits_len(s, allow))) as int;
    if exponent_sign_len(s, allow) == 1 && s[fraction_end(s, allow) + 1] == '-' {
        -v
    } else {
        v
    }
}

/// Where the literal ends, before any type suffix.
pub open spec fn digits_end(s: Seq<char>, allow: u32) -> int {
    if has_exponent_marker(s, allow) {
        exponent_digits_start(s, allow) + exponent_digits_len(s, allow)
    } else {
        fraction_end(s, allow)
    }
}

/// Why the literal's syntax, as far as `allow` admits it, is refused.
pub open spec fn literal_error(s: Seq<char>, allow: u32) -> Option<Error> {
    if has_exponent_marker(s, allow) && exponent_digits_len(s, allow) == 0 {
        Some(Error::ExponentMissingDigits)
    } else if has_exponent_marker(s, allow) && !(i32::MIN <= exponent_value(s, allow)
        <= i32::MAX) {
        Some(Error::ExponentOverflow)
    } else {
        None
    }
}

/// The type suffix: `'h'` or `'f'` after an exponent; `'u'` or `'i'` when
/// there is neither a point nor an exponent; none otherwise. Unacceptable
/// suffixes are left in the input.
pub open spec fn literal_suffix(s: Seq<char>, allow: u32) -> Option<Suffix> {
    let p = digits_end(s, allow);
    if allows(allow, TYPE_SUFFIX_BIT) && p < s.len() {
        if exponent_digits_len(s, allow) > 0 {
            if s[p] == 'h' {
                Some(Suffix::F16)
            } else if s[p] == 'f' {
                Some(Suffix::F32)
            } else {
                None
            }
        } else if !has_point(s, allow) {
            if s[p] == 'u' {
                Some(Suffix::U32)
            } else if s[p] == 'i' {
                Some(Suffix::I32)
            } else {
                None
            }
        } else {
            None
        }
    } else {
        None
    }
}

/// Where the literal, with any type suffix, ends.
pub open spec fn literal_end(s: Seq<char>, allow: u32) -> int {
    if literal_suffix(s, allow) is Some {
        digits_end(s, allow) + 1
    } else {
        digits_end(s, allow)
    }
}

/// `bit` if `cond` holds, and no bits otherwise.
pub open spec fn bit_if(cond: bool, bit: u32) -> u32 {
    if cond {
        bit
    } else {
        0
    }
}

/// The parts of the literal that are present.
pub open spec fn present_bits(s: Seq<char>, allow: u32) -> u32 {
    bit_if(sign_len(s, allow) == 1, SIGN_BIT) | bit_if(prefix_len(s, allow) == 2, PREFIX_BIT)
        | bit_if(whole_len(s, allow) > 0, WHOLE_BIT) | bit_if(has_point(s, allow), POINT_BIT)
        | bit_if(fraction_len(s, allow) > 0, FRACTION_BIT) | bit_if(
        exponent_digits_len(s, allow) > 0,
        EXPONENT_BIT,
    ) | bit_if(literal_suffix(s, allow) is Some, TYPE_SUFFIX_BIT)
}

/// The whole-number digits.
pub open spec fn whole_digits(s: Seq<char>, allow: u32) -> Seq<char> {
    s.subrange(whole_start(s, allow), whole_end(s, allow))
}

/// The fractional digits.
pub open spec fn fraction_digits(s: Seq<char>, allow: u32) -> Seq<char> {
    if has_point(s, allow) {
        s.subrange(whole_end(s, allow) + 1, fraction_end(s, allow))
    } else {
        Seq::empty()
    }
}

/// The value of all the mantissa's digits, in units of the last one's place.
pub open spec fn digits_value(s: Seq<char>, allow: u32) -> nat {
    append_hex_digits(hex_value(whole_digits(s, allow)), fraction_digits(s, allow))
}

/// `p` is what parsing `s`, accepting the parts in `allow`, yields.
pub open spec fn parsed_as(p: Parts<Suffix>, s: Seq<char>, allow: u32) -> bool {
    &&& p.wf()
    &&& p.present@ == present_bits(s, allow)
    &&& p.sign == literal_sign(s, allow)
    &&& p.explicit_exponent == if exponent_digits_len(s, allow) > 0 {
        exponent_value(s, allow)
    } else {
        0
    }
    &&& p.suffix == literal_suffix(s, allow)
    &&& p.last_digit_exponent == -4 * fraction_len(s, allow)
    &&& p.scaled() == keep_64_bits(digits_value(s, allow))
    &&& p.exact == (p.scaled() == digits_value(s, allow))
}

/// The literal's digits can all be pushed without an exponent overflowing.
pub open spec fn literal_digits_fit(s: Seq<char>, allow: u32) -> bool {
    &&& allows(allow, WHOLE_BIT) ==> whole_digits_fit_parts(0, s.skip(whole_start(s, allow)))
    &&& has_point(s, allow) ==> fractional_digits_fit(
        0,
        keep_64_bits(hex_value(whole_digits(s, allow))),
        s.skip(whole_end(s, allow) + 1),
    )
}

/// The digits of any literal shorter than `2**28` characters fit.
pub proof fn lemma_literal_digits_fit(s: Seq<char>, allow: u32)
    requires
        s.len() <= 0x1000_0000,
    ensures
        literal_digits_fit(s, allow),
{
    lemma_literal_positions(s, allow);
    lemma2_to64();
    if allows(allow, WHOLE_BIT) {
        lemma_whole_digits_fit_parts(0, 0, s.skip(whole_start(s, allow)));
    }
    if has_point(s, allow) {
        let w = whole_digits(s, allow);
        let t = s.skip(whole_start(s, allow));
        lemma_hex_run_len(t, 0);
        assert(w =~= t.take(whole_len(s, allow)));
        lemma_append_bound(0, 0, w);
        lemma_keep_truncates(hex_value(w));
        let rest = s.skip(whole_end(s, allow) + 1);
        lemma_fractional_digits_fit(0, keep_64_bits(hex_value(w)), 4 * w.len(), rest);
    }
}

/// Why `s` is not a WGSL hexadecimal literal, read with a sign allowed.
pub open spec fn wgsl_error(s: Seq<char>) -> Option<Error> {
    let allow = ALL_BITS;
    if literal_error(s, allow) is Some {
        literal_error(s, allow)
    } else if prefix_len(s, allow) != 2 {
        Some(Error::MissingPrefix)
    } else {
        match literal_suffix(s, allow) {
            Some(Suffix::I32) | Some(Suffix::U32) => if whole_len(s, allow) == 0 {
                Some(Error::MissingWhole)
            } else {
                None
            },
            _ => if whole_len(s, allow) == 0 && fraction_len(s, allow) == 0 {
                Some(Error::MissingWholeAndFraction)
            } else {
                None
            },
        }
    }
}

/// A parse result, with the unconsumed input taken by its view.
pub open spec fn result_view<'a>(r: Result<(Parts<Suffix>, &'a str), Error>) -> Result<
    (Parts<Suffix>, Seq<char>),
    Error,
> {
    match r {
        Ok((p, rest)) => Ok((p, rest@)),
        Err(e) => Err(e),
    }
}

/// `r` is what [`parse`] returns for `s`, with the unconsumed input taken by
/// its view.
pub open spec fn parse_outcome(s: Seq<char>, r: Result<(Parts<Suffix>, Seq<char>), Error>) -> bool {
    &&& wgsl_error(s) matches Some(e) ==> r == Err::<(Parts<Suffix>, Seq<char>), Error>(e)
    &&& wgsl_error(s) is None ==> (r matches Ok((p, rest)) && parsed_as(p, s, ALL_BITS) && rest
        == s.skip(literal_end(s, ALL_BITS)))
}

/// `r` is what [`parse_with_allowed_parts`] returns for `s` and the flags
/// `allow`, with the unconsumed input taken by its view.
pub open spec fn allowed_parse_outcome(
    s: Seq<char>,
    allow: u32,
    r: Result<(Parts<Suffix>, Seq<char>), Error>,
) -> bool {
    &&& literal_error(s, allow) matches Some(e) ==> r == Err::<(Parts<Suffix>, Seq<char>), Error>(
        e,
    )
    &&& literal_error(s, allow) is None ==> (r matches Ok((p, rest)) && parsed_as(p, s, allow)
        && rest == s.skip(literal_end(s, allow)))
}

/// Parsing with only some parts allowed reports no other part as present,
/// reads a negative sign only where signs are allowed and the input starts
/// with `'-'`, and leaves a suffix of the input unconsumed.
pub proof fn lemma_parse_reports_only_allowed_parts(
    s: Seq<char>,
    allow: u32,
    r: Result<(Parts<Suffix>, Seq<char>), Error>,
)
    requires
        allows(allow, FRACTION_BIT) == allows(allow, POINT_BIT),
        allowed_parse_outcome(s, allow, r),
    ensures
        r matches Ok((p, rest)) ==> {
            &&& p.present@ & !allow == 0
            &&& p.sign == -1 ==> allows(allow, SIGN_BIT) && s.len() > 0 && s[0] == '-'
            &&& p.sign == 1 || p.sign == -1
            &&& rest.len() <= s.len()
            &&& rest == s.skip(s.len() - rest.len())
        },
{
    lemma_literal_positions(s, allow);
    let b1 = bit_if(sign_len(s, allow) == 1, SIGN_BIT);
    let b2 = bit_if(prefix_len(s, allow) == 2, PREFIX_BIT);
    let b3 = bit_if(whole_len(s, allow) > 0, WHOLE_BIT);
    let b4 = bit_if(has_point(s, allow), POINT_BIT);
    let b5 = bit_if(fraction_len(s, allow) > 0, FRACTION_BIT);
    let b6 = bit_if(exponent_digits_len(s, allow) > 0, EXPONENT_BIT);
    let b7 = bit_if(literal_suffix(s, allow) is Some, TYPE_SUFFIX_BIT);
    assert(b1 == 0 || allow & SIGN_BIT == SIGN_BIT);
    assert(b2 == 0 || allow & PREFIX_BIT == PREFIX_BIT);
    assert(b3 == 0 || allow & WHOLE_BIT == WHOLE_BIT);
    assert(b4 == 0 || allow & POINT_BIT == POINT_BIT);
    assert(b5 == 0 || allow & FRACTION_BIT == FRACTION_BIT);
    assert(b6 == 0 || allow & EXPONENT_BIT == EXPONENT_BIT);
    assert(b7 == 0 || allow & TYPE_SUFFIX_BIT == TYPE_SUFFIX_BIT);
    assert((b1 | b2 | b3 | b4 | b5 | b6 | b7) & !allow == 0) by (bit_vector)
        requires
            b1 == 0 || (b1 == 1 && allow & 1 == 1),
            b2 == 0 || (b2 == 2 && allow & 2 == 2),
            b3 == 0 || (b3 == 4 && allow & 4 == 4),
            b4 == 0 || (b4 == 8 && allow & 8 == 8),
            b5 == 0 || (b5 == 16 && allow & 16 == 16),
            b6 == 0 || (b6 == 32 && allow & 32 == 32),
            b7 == 0 || (b7 == 64 && allow & 64 == 64),
    ;
    if r is Ok {
        let rest = r->Ok_0.1;
        assert(rest == s.skip(literal_end(s, allow)));
        assert(s.len() - rest.len() == literal_end(s, allow));
    }
}

/// Parts that may be present in a WGSL hexadecimal floating-point or integer
/// literal.
pub fn wgsl_float_or_int_parts() -> (f: PartFlags)
    ensures
        f@ == PREFIX_BIT | WHOLE_BIT | POINT_BIT | FRACTION_BIT | EXPONENT_BIT | TYPE_SUFFIX_BIT,
{
    PartFlags::prefix().union(PartFlags::whole()).union(PartFlags::point()).union(
        PartFlags::fraction(),
    ).union(PartFlags::exponent()).union(PartFlags::type_suffix())
}

/// Parts that may be present in a WGSL hexadecimal integer literal.
pub fn int_parts() -> (f: PartFlags)
    ensures
        f@ == PREFIX_BIT | WHOLE_BIT,
{
    PartFlags::prefix().union(PartFlags::whole())
}

/// Parse `input` as a WGSL hexadecimal floating-point or integer literal.
///
/// Consume a WGSL `hex_float_literal` or `hex_int_literal` from the front of
/// `input`. On success, return the parsed form of the literal, and the
/// unconsumed portion of `input`. Integer and floating-point literals are
/// told apart by the presence of a fractional part or an exponent in
/// `present`.
///
/// This also allows a sign at the beginning of the literal, which is not part
/// of the WGSL syntax; to forbid it, use [`parse_with_allowed_parts`].
pub fn parse<'a>(input: &'a str) -> (r: Result<(Parts<Suffix>, &'a str), Error>)
    requires
        literal_digits_fit(input@, ALL_BITS),
    ensures
        wgsl_error(input@) matches Some(e) ==> r == Err::<(Parts<Suffix>, &str), Error>(e),
        wgsl_error(input@) is None ==> (r matches Ok((p, rest)) && parsed_as(p, input@, ALL_BITS)
            && rest@ == input@.skip(literal_end(input@, ALL_BITS))),
        parse_outcome(input@, result_view(r)),
{
    let allow = wgsl_float_or_int_parts().union(PartFlags::sign());
    proof {
        assert(PREFIX_BIT | WHOLE_BIT | POINT_BIT | FRACTION_BIT | EXPONENT_BIT | TYPE_SUFFIX_BIT
            | SIGN_BIT == ALL_BITS) by (bit_vector);
        assert(ALL_BITS & FRACTION_BIT == FRACTION_BIT && ALL_BITS & POINT_BIT == POINT_BIT)
            by (bit_vector);
    }
    let (parts, rest) = match parse_with_allowed_parts(input, allow) {
        Ok(parsed) => parsed,
        Err(e) => {
            return Err(e);
        },
    };
    let ghost s = input@;
    proof {
        lemma_present_bits_queries(s, ALL_BITS);
    }
    if !parts.present.contains(PartFlags::prefix()) {
        return Err(Error::MissingPrefix);
    }
    match parts.suffix {
        None => {
            // There have to be some mantissa digits present somewhere.
            if !parts.present.intersects(PartFlags::whole().union(PartFlags::fraction())) {
                return Err(Error::MissingWholeAndFraction);
            }
        },
        Some(Suffix::I32) | Some(Suffix::U32) => {
            // The grammar includes no `i` or `u` suffix after a fraction or
            // exponent: the parser leaves them in the input.
            assert(parts.present@ & (FRACTION_BIT | EXPONENT_BIT) == 0);
            // There have to be some whole-number digits.
            if !parts.present.intersects(PartFlags::whole()) {
                return Err(Error::MissingWhole);
            }
        },
        Some(Suffix::F16) | Some(Suffix::F32) => {
            // A floating-point suffix follows an exponent.
            assert(parts.present@ & EXPONENT_BIT == EXPONENT_BIT);
            // Even so, there must be whole or fractional digits.
            if !parts.present.intersects(PartFlags::whole().union(PartFlags::fraction())) {
                return Err(Error::MissingWholeAndFraction);
            }
        },
    }
    Ok((parts, rest))
}

/// The parts of a literal follow one another within it.
proof fn lemma_literal_positions(s: Seq<char>, allow: u32)
    ensures
        0 <= whole_start(s, allow) <= whole_end(s, allow) <= fraction_end(s, allow) <= digits_end(
            s,
            allow,
        ) <= literal_end(s, allow) <= s.len(),
        has_exponent_marker(s, allow) ==> fraction_end(s, allow) < exponent_digits_start(s, allow)
            <= s.len(),
{
    let ws = whole_start(s, allow);
    lemma_hex_run_len(s.skip(ws), 0);
    if has_point(s, allow) {
        lemma_hex_run_len(s.skip(whole_end(s, allow) + 1), 0);
    }
    if has_exponent_marker(s, allow) {
        lemma_decimal_run_end(s.skip(exponent_digits_start(s, allow)));
    }
}

/// What the present flags of a parsed literal say about its parts.
proof fn lemma_present_bits_queries(s: Seq<char>, allow: u32)
    ensures
        (present_bits(s, allow) & PREFIX_BIT == PREFIX_BIT) == (prefix_len(s, allow) == 2),
        (present_bits(s, allow) & (WHOLE_BIT | FRACTION_BIT) != 0) == (whole_len(s, allow) > 0
            || fraction_len(s, allow) > 0),
        (present_bits(s, allow) & WHOLE_BIT != 0) == (whole_len(s, allow) > 0),
        (present_bits(s, allow) & (FRACTION_BIT | EXPONENT_BIT) == 0) == (fraction_len(s, allow)
            == 0 && exponent_digits_len(s, allow) == 0),
        (present_bits(s, allow) & EXPONENT_BIT == EXPONENT_BIT) == (exponent_digits_len(s, allow)
            > 0),
{
    let b1 = bit_if(sign_len(s, allow) == 1, SIGN_BIT);
    let b2 = bit_if(prefix_len(s, allow) == 2, PREFIX_BIT);
    let b3 = bit_if(whole_len(s, allow) > 0, WHOLE_BIT);
    let b4 = bit_if(has_point(s, allow), POINT_BIT);
    let b5 = bit_if(fraction_len(s, allow) > 0, FRACTION_BIT);
    let b6 = bit_if(exponent_digits_len(s, allow) > 0, EXPONENT_BIT);
    let b7 = bit_if(literal_suffix(s, allow) is Some, TYPE_SUFFIX_BIT);
    let x = b1 | b2 | b3 | b4 | b5 | b6 | b7;
    assert({
        &&& (x & PREFIX_BIT == PREFIX_BIT) == (b2 == PREFIX_BIT)
        &&& (x & (WHOLE_BIT | FRACTION_BIT) != 0) == (b3 == WHOLE_BIT || b5 == FRACTION_BIT)
        &&& (x & WHOLE_BIT != 0) == (b3 == WHOLE_BIT)
        &&& (x & (FRACTION_BIT | EXPONENT_BIT) == 0) == (b5 == 0 && b6 == 0)
        &&& (x & EXPONENT_BIT == EXPONENT_BIT) == (b6 == EXPONENT_BIT)
    }) by (bit_vector)
        requires
            b1 == 0 || b1 == SIGN_BIT,
            b2 == 0 || b2 == PREFIX_BIT,
            b3 == 0 || b3 == WHOLE_BIT,
            b4 == 0 || b4 == POINT_BIT,
            b5 == 0 || b5 == FRACTION_BIT,
            b6 == 0 || b6 == EXPONENT_BIT,
            b7 == 0 || b7 == TYPE_SUFFIX_BIT,
            x == b1 | b2 | b3 | b4 | b5 | b6 | b7,
    ;
}

/// Parse `input` as a WGSL hexadecimal floating-point or integer literal,
/// accepting those parts of the syntax included in `allow`.
///
/// If `allow` contains `SIGN`, `input` may start with `'+'` or `'-'`; if it
/// contains `PREFIX`, a `"0x"` or `"0X"` may follow, but need not: callers
/// that require it check `present`. `allow` must contain `FRACTION` exactly
/// when it contains `POINT`.
pub fn parse_with_allowed_parts<'a>(input: &'a str, allow: PartFlags) -> (r: Result<
    (Parts<Suffix>, &'a str),
    Error,
>)
    requires
        allows(allow@, FRACTION_BIT) == allows(allow@, POINT_BIT),
        literal_digits_fit(input@, allow@),
    ensures
        literal_error(input@, allow@) matches Some(e) ==> r == Err::<(Parts<Suffix>, &str), Error>(
            e,
        ),
        literal_error(input@, allow@) is None ==> (r matches Ok((p, rest)) && parsed_as(
            p,
            input@,
            allow@,
        ) && rest@ == input@.skip(literal_end(input@, allow@))),
        allowed_parse_outcome(input@, allow@, result_view(r)),
{
    let mut result = Parts::<Suffix>::new();
    let rest = parse_sign_and_prefix(input, &allow, &mut result);
    let rest = parse_mantissa_digits(rest, Ghost(input@), &allow, &mut result);
    let rest = parse_exponent(rest, Ghost(input@), &allow, &mut result)?;
    let rest = parse_type_suffix(rest, Ghost(input@), &allow, &mut result);
    Ok((result, rest))
}

/// Parse the sign and prefix of the literal `input`, as far as `allow`
/// admits them, into the fresh `result`.
fn parse_sign_and_prefix<'a>(input: &'a str, allow: &PartFlags, result: &mut Parts<Suffix>) -> (rest:
    &'a str)
    requires
        old(result).present@ == 0,
        old(result).sign == 1,
        old(result).wf(),
        old(result).scaled() == 0,
        old(result).exact,
        old(result).exponent == 0,
        old(result).last_digit_exponent == 0,
    ensures
        rest@ == input@.skip(whole_start(input@, allow@)),
        final(result).present@ == bit_if(sign_len(input@, allow@) == 1, SIGN_BIT) | bit_if(
            prefix_len(input@, allow@) == 2,
            PREFIX_BIT,
        ),
        final(result).sign == literal_sign(input@, allow@),
        final(result).mantissa == old(result).mantissa,
        final(result).exponent == old(result).exponent,
        final(result).last_digit_exponent == old(result).last_digit_exponent,
        final(result).explicit_exponent == old(result).explicit_exponent,
        final(result).exact == old(result).exact,
        final(result).suffix == old(result).suffix,
{
    let ghost s = input@;
    let ghost a = allow@;
    let mut input = input;
    // Parse a sign.
    if allow.contains(PartFlags::sign()) {
        if let Some(present_sign) = parse_sign(&mut input) {
            result.present.insert(PartFlags::sign());
            result.sign = present_sign;
        } else {
            result.sign = 1;
        }
    }
    proof {
        assert(input@ =~= s.skip(sign_len(s, a)));
        lemma_or_zero(SIGN_BIT);
    }
    assert(result.present@ == bit_if(sign_len(s, a) == 1, SIGN_BIT));
    // Parse a prefix.
    if allow.contains(PartFlags::prefix()) {
        if let Some(rest) = strip_hex_prefix(input) {
            result.present.insert(PartFlags::prefix());
            input = rest;
        }
    }
    proof {
        assert(input@ =~= s.skip(whole_start(s, a)));
        lemma_or_zero(result.present@);
    }
    input
}

/// Parse the whole-number and fractional digits of the literal `s`, which
/// start `rest`, onto `result`.
fn parse_mantissa_digits<'a>(
    rest: &'a str,
    Ghost(s): Ghost<Seq<char>>,
    allow: &PartFlags,
    result: &mut Parts<Suffix>,
) -> (after: &'a str)
    requires
        rest@ == s.skip(whole_start(s, allow@)),
        literal_digits_fit(s, allow@),
        old(result).wf(),
        old(result).scaled() == 0,
        old(result).exact,
        old(result).exponent == 0,
        old(result).last_digit_exponent == 0,
    ensures
        after@ == s.skip(fraction_end(s, allow@)),
        final(result).present@ == old(result).present@ | bit_if(whole_len(s, allow@) > 0, WHOLE_BIT)
            | bit_if(has_point(s, allow@), POINT_BIT) | bit_if(
            fraction_len(s, allow@) > 0,
            FRACTION_BIT,
        ),
        final(result).wf(),
        final(result).scaled() == keep_64_bits(digits_value(s, allow@)),
        final(result).exact == (final(result).scaled() == digits_value(s, allow@)),
        final(result).last_digit_exponent == -4 * fraction_len(s, allow@),
        final(result).same_literal_fields(old(result)),
{
    let ghost a = allow@;
    let ghost p0 = result.present@;
    let mut input = rest;
    proof {
        lemma_or_zero(p0);
    }
    // Parse a whole number portion.
    if allow.contains(PartFlags::whole()) {
        let ghost before = input@;
        input = result.consume_whole_digits(input);
        proof {
            let n = before.len() - input@.len();
            lemma_hex_run_len(before, n);
            assert(before.take(n) =~= whole_digits(s, a));
            assert(input@ =~= s.skip(whole_end(s, a)));
        }
    } else {
        proof {
            assert(whole_digits(s, a) =~= Seq::<char>::empty());
        }
    }
    let ghost p3 = result.present@;
    let ghost whole_value = hex_value(whole_digits(s, a));
    assert(p3 == p0 | bit_if(whole_len(s, a) > 0, WHOLE_BIT));
    assert(input@ == s.skip(whole_end(s, a)));
    assert(result.scaled() == keep_64_bits(whole_value));
    assert(result.exact == (result.scaled() == whole_value));
    // Parse a fractional portion.
    if allow.contains(PartFlags::point()) {
        if let Some(after_point) = strip_char(input, '.') {
            result.present.insert(PartFlags::point());
            let ghost before = after_point@;
            proof {
                assert(after_point@ =~= s.skip(whole_end(s, a) + 1));
            }
            input = result.consume_fractional_digits(after_point);
            proof {
                let n = before.len() - input@.len();
                lemma_hex_run_len(before, n);
                assert(before.take(n) =~= fraction_digits(s, a));
                assert(input@ =~= s.skip(fraction_end(s, a)));
                lemma_keep_then_append(whole_value, fraction_digits(s, a));
            }
        }
    }
    proof {
        lemma_or_zero(p3);
        lemma_or_zero(p3 | bit_if(has_point(s, a), POINT_BIT));
        if !has_point(s, a) {
            assert(fraction_digits(s, a) =~= Seq::<char>::empty());
        }
    }
    input
}

/// Parse the exponent of the literal `s`, which starts `rest`, onto
/// `result`.
fn parse_exponent<'a>(
    rest: &'a str,
    Ghost(s): Ghost<Seq<char>>,
    allow: &PartFlags,
    result: &mut Parts<Suffix>,
) -> (r: Result<&'a str, Error>)
    requires
        rest@ == s.skip(fraction_end(s, allow@)),
        old(result).explicit_exponent == 0,
    ensures
        literal_error(s, allow@) matches Some(e) ==> r == Err::<&str, Error>(e),
        literal_error(s, allow@) is None ==> (r matches Ok(after) && after@ == s.skip(
            digits_end(s, allow@),
        )),
        r is Ok ==> final(result).present@ == old(result).present@ | bit_if(
            exponent_digits_len(s, allow@) > 0,
            EXPONENT_BIT,
        ),
        r is Ok ==> final(result).explicit_exponent == if exponent_digits_len(s, allow@) > 0 {
            exponent_value(s, allow@)
        } else {
            0
        },
        final(result).sign == old(result).sign,
        final(result).mantissa == old(result).mantissa,
        final(result).exponent == old(result).exponent,
        final(result).last_digit_exponent == old(result).last_digit_exponent,
        final(result).exact == old(result).exact,
        final(result).suffix == old(result).suffix,
{
    let ghost a = allow@;
    let mut input = rest;
    proof {
        lemma_or_zero(result.present@);
        lemma_literal_positions(s, a);
    }
    if allow.contains(PartFlags::exponent()) {
        if let Some(rest) = strip_exponent_marker(input) {
            let ghost after_marker = rest@;
            let ghost f = fraction_end(s, a);
            proof {
                assert(s.skip(f)[0] == s[f]);
                assert(has_exponent_marker(s, a));
                assert(after_marker =~= s.skip(f + 1));
            }
            input = rest;
            let exponent_sign = match parse_sign(&mut input) {
                Some(sign) => sign,
                None => 1,
            };
            let ghost digits_at = input@;
            proof {
                let start = exponent_digits_start(s, a);
                if after_marker.len() > 0 {
                    assert(after_marker[0] == s[f + 1]);
                }
                assert(digits_at =~= s.skip(start));
                lemma_decimal_run_end(digits_at);
                let n = decimal_run_len(digits_at) as int;
                assert(n == exponent_digits_len(s, a));
                assert(digits_at.take(n) =~= s.subrange(start, start + n));
                let dv = decimal_value(digits_at.take(n));
                assert(after_marker.len() > 0 <==> f + 1 < s.len());
                if exponent_sign_len(s, a) == 1 && s[f + 1] == '-' {
                    assert(exponent_sign == -1);
                    assert(exponent_sign * dv == -dv) by (nonlinear_arith)
                        requires
                            exponent_sign == -1,
                    ;
                } else {
                    assert(exponent_sign == 1);
                }
                assert(exponent_sign * dv == exponent_value(s, a));
            }
            let (exponent, count, rest) = parse_exponent_digits(input, exponent_sign)?;
            proof {
                assert(rest@ =~= s.skip(digits_end(s, a)));
            }
            input = rest;
            if count == 0 {
                return Err(Error::ExponentMissingDigits);
            }
            result.present.insert(PartFlags::exponent());
            result.explicit_exponent = exponent;
        }
    }
    Ok(input)
}

/// Parse the type suffix of the literal `s`, which starts `rest`, onto
/// `result`. If an exponent was seen, floating-point suffixes are allowed;
/// if neither a point nor an exponent was, integer suffixes are.
/// Unacceptable suffixes are left unconsumed.
fn parse_type_suffix<'a>(
    rest: &'a str,
    Ghost(s): Ghost<Seq<char>>,
    allow: &PartFlags,
    result: &mut Parts<Suffix>,
) -> (after: &'a str)
    requires
        rest@ == s.skip(digits_end(s, allow@)),
        old(result).present@ == bit_if(sign_len(s, allow@) == 1, SIGN_BIT) | bit_if(
            prefix_len(s, allow@) == 2,
            PREFIX_BIT,
        ) | bit_if(whole_len(s, allow@) > 0, WHOLE_BIT) | bit_if(has_point(s, allow@), POINT_BIT)
            | bit_if(fraction_len(s, allow@) > 0, FRACTION_BIT) | bit_if(
            exponent_digits_len(s, allow@) > 0,
            EXPONENT_BIT,
        ),
    ensures
        after@ == s.skip(literal_end(s, allow@)),
        final(result).present@ == present_bits(s, allow@),
        final(result).suffix == literal_suffix(s, allow@),
        final(result).sign == old(result).sign,
        final(result).mantissa == old(result).mantissa,
        final(result).exponent == old(result).exponent,
        final(result).last_digit_exponent == old(result).last_digit_exponent,
        final(result).explicit_exponent == old(result).explicit_exponent,
        final(result).exact == old(result).exact,
{
    let ghost a = allow@;
    let mut input = rest;
    proof {
        lemma_literal_positions(s, a);
        if digits_end(s, a) < s.len() {
            assert(rest@[0] == s[digits_end(s, a)]);
        }
        let b1 = bit_if(sign_len(s, a) == 1, SIGN_BIT);
        let b2 = bit_if(prefix_len(s, a) == 2, PREFIX_BIT);
        let b3 = bit_if(whole_len(s, a) > 0, WHOLE_BIT);
        let b4 = bit_if(has_point(s, a), POINT_BIT);
        let b5 = bit_if(fraction_len(s, a) > 0, FRACTION_BIT);
        let b6 = bit_if(exponent_digits_len(s, a) > 0, EXPONENT_BIT);
        let x = result.present@;
        assert({
            &&& (x & EXPONENT_BIT == EXPONENT_BIT) == (b6 == EXPONENT_BIT)
            &&& (x & (POINT_BIT | EXPONENT_BIT) != 0) == (b4 == POINT_BIT || b6 == EXPONENT_BIT)
        }) by (bit_vector)
            requires
                b1 == 0 || b1 == SIGN_BIT,
                b2 == 0 || b2 == PREFIX_BIT,
                b3 == 0 || b3 == WHOLE_BIT,
                b4 == 0 || b4 == POINT_BIT,
                b5 == 0 || b5 == FRACTION_BIT,
                b6 == 0 || b6 == EXPONENT_BIT,
                x == b1 | b2 | b3 | b4 | b5 | b6,
        ;
        lemma_or_zero(x);
    }
    if allow.contains(PartFlags::type_suffix()) {
        let len = input.unicode_len();
        let suffix = if len == 0 {
            None
        } else {
            let c = input.get_char(0);
            if result.present.contains(PartFlags::exponent()) {
                if c == 'h' {
                    Some(Suffix::F16)
                } else if c == 'f' {
                    Some(Suffix::F32)
                } else {
                    None
                }
            } else if !result.present.intersects(PartFlags::point().union(PartFlags::exponent())) {
                if c == 'u' {
                    Some(Suffix::U32)
                } else if c == 'i' {
                    Some(Suffix::I32)
                } else {
                    None
                }
            } else {
                None
            }
        };
        result.suffix = suffix;
        if result.suffix.is_some() {
            result.present.insert(PartFlags::type_suffix());
            input = input.substring_char(1, len);
        }
    } else {
        result.suffix = None;
    }
    proof {
        assert(input@ =~= s.skip(literal_end(s, a)));
    }
    input
}

/// `x | 0` and `0 | x` are `x`.
proof fn lemma_or_zero(x: u32)
    ensures
        x | 0 == x,
        0 | x == x,
{
    assert(x | 0 == x && 0 | x == x) by (bit_vector);
}

/// Strip a leading `'+'` or `'-'` from `input`, returning the sign it
/// indicates.
fn parse_sign<'a>(input: &mut &'a str) -> (r: Option<i32>)
    ensures
        old(input)@.len() > 0 && old(input)@[0] == '+' ==> r == Some(1i32) && final(input)@
            == old(input)@.drop_first(),
        old(input)@.len() > 0 && old(input)@[0] == '-' ==> r == Some(-1i32) && final(input)@
            == old(input)@.drop_first(),
        !(old(input)@.len() > 0 && is_sign_char(old(input)@[0])) ==> r is None && final(input)@
            == old(input)@,
{
    let s: &'a str = *input;
    let len = s.unicode_len();
    if len == 0 {
        return None;
    }
    let c = s.get_char(0);
    if c == '+' {
        *input = s.substring_char(1, len);
        Some(1)
    } else if c == '-' {
        *input = s.substring_char(1, len);
        Some(-1)
    } else {
        None
    }
}

/// Strip a leading `"0x"` or `"0X"` from `input`.
fn strip_hex_prefix<'a>(input: &'a str) -> (r: Option<&'a str>)
    ensures
        r is Some <==> input@.len() >= 2 && input@[0] == '0' && (input@[1] == 'x' || input@[1]
            == 'X'),
        r matches Some(rest) ==> rest@ == input@.skip(2),
{
    let len = input.unicode_len();
    if len < 2 || input.get_char(0) != '0' {
        return None;
    }
    let c = input.get_char(1);
    if c == 'x' || c == 'X' {
        Some(input.substring_char(2, len))
    } else {
        None
    }
}

/// Strip a leading `c` from `input`.
fn strip_char<'a>(input: &'a str, c: char) -> (r: Option<&'a str>)
    ensures
        r is Some <==> input@.len() > 0 && input@[0] == c,
        r matches Some(rest) ==> rest@ == input@.drop_first(),
{
    let len = input.unicode_len();
    if len > 0 && input.get_char(0) == c {
        Some(input.substring_char(1, len))
    } else {
        None
    }
}

/// Strip a leading exponent introducer, `'p'` or `'P'`, from `input`.
fn strip_exponent_marker<'a>(input: &'a str) -> (r: Option<&'a str>)
    ensures
        r is Some <==> input@.len() > 0 && (input@[0] == 'p' || input@[0] == 'P'),
        r matches Some(rest) ==> rest@ == input@.drop_first(),
{
    match strip_char(input, 'p') {
        Some(rest) => Some(rest),
        None => strip_char(input, 'P'),
    }
}

/// Read the decimal digits at the start of `input` as an exponent with sign
/// `exponent_sign`, returning its value, the number of digits, and the rest
/// of `input`.
///
/// The sign is multiplied into each digit as it is incorporated, so that
/// `i32::MIN` itself can be read.
fn parse_exponent_digits<'a>(input: &'a str, exponent_sign: i32) -> (r: Result<
    (i32, usize, &'a str),
    Error,
>)
    requires
        exponent_sign == 1 || exponent_sign == -1,
    ensures
        ({
            let n = decimal_run_len(input@) as int;
            let v = exponent_sign * decimal_value(input@.take(n));
            &&& r is Ok <==> i32::MIN <= v <= i32::MAX
            &&& r matches Ok((e, count, rest)) ==> e == v && count == n && rest@ == input@.skip(n)
            &&& r matches Err(err) ==> err == Error::ExponentOverflow
        }),
{
    let ghost s = input@;
    let ghost n = decimal_run_len(s) as int;
    let len = input.unicode_len();
    let mut exponent: i32 = 0;
    let mut i: usize = 0;
    proof {
        lemma_decimal_run_end(s);
        assert(s.take(0) =~= Seq::<char>::empty());
    }
    while i < len
        invariant_except_break
            i <= n,
            n == decimal_run_len(s),
            len == s.len(),
            n <= len,
            n < len ==> !is_decimal_digit(s[n]),
            input@ == s,
            exponent_sign == 1 || exponent_sign == -1,
            exponent == exponent_sign * decimal_value(s.take(i as int)),
        ensures
            i == n,
            n == decimal_run_len(s),
            len == s.len(),
            input@ == s,
            exponent == exponent_sign * decimal_value(s.take(i as int)),
        decreases len - i,
    {
        let c = input.get_char(i);
        match decimal_digit(c) {
            Some(digit) => {
                let ghost dv = decimal_value(s.take(i as int));
                proof {
                    if i >= n {
                        assert(i == n);
                    }
                    assert(s.take(i + 1).drop_last() =~= s.take(i as int));
                    assert(s.take(i + 1).last() == s[i as int]);
                    assert(decimal_value(s.take(i + 1)) == dv * 10 + digit);
                    lemma_decimal_value_grows(s, i + 1, n);
                    if exponent_sign == 1 {
                        assert(exponent == dv);
                    } else {
                        assert(exponent_sign * dv == -dv) by (nonlinear_arith)
                            requires
                                exponent_sign == -1,
                        ;
                    }
                }
                let next = match exponent.checked_mul(10) {
                    Some(e) => e.checked_add(digit as i32 * exponent_sign),
                    None => None,
                };
                match next {
                    Some(e) => {
                        proof {
                            if exponent_sign == 1 {
                                assert(e == dv * 10 + digit);
                            } else {
                                assert(e == -(dv * 10 + digit));
                            }
                        }
                        exponent = e;
                    },
                    None => {
                        proof {
                            let dn = decimal_value(s.take(n));
                            if exponent_sign == 1 {
                                assert(dn > i32::MAX);
                            } else {
                                assert(-dn < i32::MIN);
                            }
                        }
                        return Err(Error::ExponentOverflow);
                    },
                }
                i = i + 1;
            },
            None => {
                proof {
                    if i < n {
                        lemma_decimal_run_len(s, i as int);
                    }
                }
                break ;
            },
        }
    }
    let rest = input.substring_char(i, len);
    Ok((exponent, i, rest))
}

// The grammar, character by character.
/// Every character of `s` is a decimal digit.
pub open spec fn all_decimal_digits(s: Seq<char>) -> bool {
    forall|i: int| 0 <= i < s.len() ==> #[trigger] is_decimal_digit(s[i])
}

/// A run of hexadecimal digits followed by anything but one is exactly as
/// long as the run.
proof fn lemma_hex_run_of(x: Seq<char>, y: Seq<char>)
    requires
        all_hex_digits(x),
        y.len() == 0 || !is_hex_digit(y[0]),
    ensures
        hex_run_len(x + y) == x.len(),
{
    let s = x + y;
    assert(s.take(x.len() as int) =~= x);
    if x.len() < s.len() {
        assert(s[x.len() as int] == y[0]);
    }
    lemma_hex_run_len(s, x.len() as int);
}

/// A run of decimal digits followed by anything but one is exactly as long
/// as the run.
proof fn lemma_decimal_run_of(x: Seq<char>, y: Seq<char>)
    requires
        all_decimal_digits(x),
        y.len() == 0 || !is_decimal_digit(y[0]),
    ensures
        decimal_run_len(x + y) == x.len(),
    decreases x.len(),
{
    if x.len() == 0 {
        assert(x + y =~= y);
    } else {
        assert((x + y).drop_first() =~= x.drop_first() + y);
        assert((x + y)[0] == x[0]);
        assert(is_decimal_digit(x[0]));
        assert forall|i: int| 0 <= i < x.drop_first().len() implies #[trigger] is_decimal_digit(
            x.drop_first()[i],
        ) by {
            assert(x.drop_first()[i] == x[i + 1]);
        }
        lemma_decimal_run_of(x.drop_first(), y);
    }
}

/// The flags a parse of the whole syntax can report, apart from the sign.
proof fn lemma_all_bits_allow()
    ensures
        allows(ALL_BITS, SIGN_BIT),
        allows(ALL_BITS, PREFIX_BIT),
        allows(ALL_BITS, WHOLE_BIT),
        allows(ALL_BITS, POINT_BIT),
        allows(ALL_BITS, FRACTION_BIT),
        allows(ALL_BITS, EXPONENT_BIT),
        allows(ALL_BITS, TYPE_SUFFIX_BIT),
{
    assert(127u32 & 1u32 == 1u32 && 127u32 & 2u32 == 2u32 && 127u32 & 4u32 == 4u32 && 127u32
        & 8u32 == 8u32 && 127u32 & 16u32 == 16u32 && 127u32 & 32u32 == 32u32 && 127u32 & 64u32
        == 64u32) by (bit_vector);
}

/// A leading sign, as the grammar's optional sign: empty, or one `'+'` or
/// `'-'`.
pub open spec fn is_optional_sign(lead: Seq<char>) -> bool {
    lead.len() <= 1 && (lead.len() == 1 ==> is_sign_char(lead[0]))
}

/// The sign that the optional sign `lead` gives: `-1` for `'-'`, and `1`
/// otherwise.
pub open spec fn sign_of(lead: Seq<char>) -> int {
    if lead.len() == 1 && lead[0] == '-' {
        -1
    } else {
        1
    }
}

/// `v` with the optional sign `sign`: negated after `'-'`.
pub open spec fn apply_sign(sign: Seq<char>, v: nat) -> int {
    if sign.len() == 1 && sign[0] == '-' {
        -v
    } else {
        v as int
    }
}

/// The `SIGN` flag if the optional sign `lead` is present.
pub open spec fn sign_flag(lead: Seq<char>) -> u32 {
    if lead.len() > 0 {
        SIGN_BIT
    } else {
        0
    }
}

/// `flag` if `present`, and no flag otherwise.
pub open spec fn flag_if(present: bool, flag: u32) -> u32 {
    if present {
        flag
    } else {
        0
    }
}

/// A hexadecimal float with an exponent: an optional sign `lead`, `"0x"` or
/// `"0X"`, whole digits `w`, a point and fraction digits `f`, or neither
/// (`point` is `"."` or empty, and `f` is empty without it), `'p'` or `'P'`,
/// an optional sign `esign` and the decimal digits `d` of the exponent, then
/// `tail`. An exponent beyond `i32` is refused, and so is a literal with no
/// digit on either side of the point; otherwise the result has the sign, the
/// digits' value, the exponent, and the suffix `'f'` or `'h'` if `tail`
/// starts with one, which is consumed; the rest of `tail` is left. For
/// example `"0x.8p1f"`, `"0x1.p2"`, `"0x1p2"` and `"-0X1.8P-3"`.
#[verifier::spinoff_prover]
#[verifier::rlimit(80)]
pub proof fn lemma_parse_float_with_exponent(
    lead: Seq<char>,
    x: char,
    w: Seq<char>,
    point: Seq<char>,
    f: Seq<char>,
    marker: char,
    esign: Seq<char>,
    d: Seq<char>,
    tail: Seq<char>,
    r: Result<(Parts<Suffix>, Seq<char>), Error>,
)
    requires
        is_optional_sign(lead),
        x == 'x' || x == 'X',
        all_hex_digits(w),
        point == seq!['.'] || point.len() == 0 && f.len() == 0,
        all_hex_digits(f),
        marker == 'p' || marker == 'P',
        is_optional_sign(esign),
        d.len() > 0,
        all_decimal_digits(d),
        tail.len() == 0 || !is_decimal_digit(tail[0]),
        parse_outcome(
            lead + seq!['0', x] + w + point + f + seq![marker] + esign + d + tail,
            r,
        ),
    ensures
        ({
            let exponent = apply_sign(esign, decimal_value(d));
            let suffix = if tail.len() > 0 && tail[0] == 'f' {
                Some(Suffix::F32)
            } else if tail.len() > 0 && tail[0] == 'h' {
                Some(Suffix::F16)
            } else {
                None
            };
            let value = append_hex_digits(hex_value(w), f);
            if !(i32::MIN <= exponent <= i32::MAX) {
                r == Err::<(Parts<Suffix>, Seq<char>), Error>(Error::ExponentOverflow)
            } else if w.len() + f.len() == 0 {
                r == Err::<(Parts<Suffix>, Seq<char>), Error>(Error::MissingWholeAndFraction)
            } else {
                r matches Ok((p, rest)) && {
                    &&& p.wf()
                    &&& p.sign == sign_of(lead)
                    &&& p.suffix == suffix
                    &&& rest == if suffix is Some {
                        tail.skip(1)
                    } else {
                        tail
                    }
                    &&& p.explicit_exponent == exponent
                    &&& p.last_digit_exponent == -4 * f.len()
                    &&& p.scaled() == keep_64_bits(value)
                    &&& p.exact == (p.scaled() == value)
                    &&& p.present@ == sign_flag(lead) | PREFIX_BIT | flag_if(w.len() > 0, WHOLE_BIT)
                        | flag_if(point.len() > 0, POINT_BIT) | flag_if(f.len() > 0, FRACTION_BIT)
                        | EXPONENT_BIT | flag_if(
                        suffix is Some,
                        TYPE_SUFFIX_BIT,
                    )
                }
            }
        }),
{
    let a = ALL_BITS;
    let s = lead + seq!['0', x] + w + point + f + seq![marker] + esign + d + tail;
    lemma_all_bits_allow();
    lemma_exponent_literal_positions(lead, x, w, point, f, marker, esign, d, tail);
    let de = lead.len() + 2 + w.len() + point.len() + f.len() + 1 + esign.len() + d.len() as int;
    if tail.len() > 0 {
        assert(s.skip(de + 1) =~= tail.skip(1));
    }
    let sb = bit_if(lead.len() == 1, SIGN_BIT);
    let wb = bit_if(w.len() > 0, WHOLE_BIT);
    let fb = bit_if(f.len() > 0, FRACTION_BIT);
    let tb = bit_if(literal_suffix(s, a) is Some, TYPE_SUFFIX_BIT);
    let pb = bit_if(point.len() > 0, POINT_BIT);
    assert(present_bits(s, a) == sb | PREFIX_BIT | wb | pb | fb | EXPONENT_BIT | tb);
}

/// Where each part of a literal with an exponent lies.
#[verifier::spinoff_prover]
#[verifier::rlimit(80)]
proof fn lemma_exponent_literal_positions(
    lead: Seq<char>,
    x: char,
    w: Seq<char>,
    point: Seq<char>,
    f: Seq<char>,
    marker: char,
    esign: Seq<char>,
    d: Seq<char>,
    tail: Seq<char>,
)
    requires
        is_optional_sign(lead),
        x == 'x' || x == 'X',
        all_hex_digits(w),
        point == seq!['.'] || point.len() == 0 && f.len() == 0,
        all_hex_digits(f),
        marker == 'p' || marker == 'P',
        is_optional_sign(esign),
        d.len() > 0,
        all_decimal_digits(d),
        tail.len() == 0 || !is_decimal_digit(tail[0]),
    ensures
        ({
            let a = ALL_BITS;
            let s = lead + seq!['0', x] + w + point + f + seq![marker] + esign + d + tail;
            let fe = lead.len() as int + 2 + w.len() + point.len() + f.len();
            let ds = fe + 1 + esign.len();
            let de = ds + d.len();
            &&& s.len() == de + tail.len()
            &&& sign_len(s, a) == lead.len()
            &&& literal_sign(s, a) == sign_of(lead)
            &&& prefix_len(s, a) == 2
            &&& whole_len(s, a) == w.len()
            &&& has_point(s, a) == (point.len() > 0)
            &&& fraction_len(s, a) == f.len()
            &&& fraction_end(s, a) == fe
            &&& has_exponent_marker(s, a)
            &&& exponent_sign_len(s, a) == esign.len()
            &&& exponent_digits_start(s, a) == ds
            &&& exponent_digits_len(s, a) == d.len()
            &&& exponent_value(s, a) == apply_sign(esign, decimal_value(d))
            &&& digits_end(s, a) == de
            &&& (tail.len() > 0 ==> s[de] == tail[0])
            &&& s.skip(de) == tail
            &&& whole_digits(s, a) == w
            &&& fraction_digits(s, a) == f
        }),
{
    let a = ALL_BITS;
    let s = lead + seq!['0', x] + w + point + f + seq![marker] + esign + d + tail;
    lemma_all_bits_allow();
    let ll = lead.len() as int;
    let wl = w.len() as int;
    let fl = f.len() as int;
    let el = esign.len() as int;
    let dl = d.len() as int;
    let ws = ll + 2;
    let pt = ws + wl;
    let fe = pt + point.len() + fl;
    let ds = fe + 1 + el;
    let de = ds + dl;
    assert(s.len() == de + tail.len());
    if ll == 1 {
        assert(s[0] == lead[0]);
    }
    assert(s[ll] == '0' && s[ll + 1] == x);
    assert(sign_len(s, a) == ll);
    assert(literal_sign(s, a) == sign_of(lead));
    assert(prefix_len(s, a) == 2);
    assert(whole_start(s, a) == ws);
    let after_w = point + f + seq![marker] + esign + d + tail;
    assert(!is_hex_digit(marker));
    assert(!is_hex_digit('.'));
    assert(after_w[0] == if point.len() > 0 { '.' } else { marker });
    assert(s.skip(ws) =~= w + after_w);
    lemma_hex_run_of(w, after_w);
    assert(whole_len(s, a) == wl);
    let after_f = seq![marker] + esign + d + tail;
    if point.len() > 0 {
        assert(s[pt] == '.');
        assert(has_point(s, a));
        assert(s.skip(pt + 1) =~= f + after_f);
        lemma_hex_run_of(f, after_f);
        assert(fraction_len(s, a) == fl);
    } else {
        assert(s[pt] == marker);
        assert(!has_point(s, a));
    }
    assert(fraction_end(s, a) == fe);
    assert(s[fe] == marker);
    assert(has_exponent_marker(s, a));
    if el == 1 {
        assert(s[fe + 1] == esign[0]);
    } else {
        assert(s[fe + 1] == d[0]);
        assert(is_decimal_digit(d[0]));
    }
    assert(exponent_sign_len(s, a) == el);
    assert(exponent_digits_start(s, a) == ds);
    assert(s.skip(ds) =~= d + tail);
    lemma_decimal_run_of(d, tail);
    assert(exponent_digits_len(s, a) == dl);
    assert(s.subrange(ds, ds + dl) =~= d);
    assert(exponent_value(s, a) == apply_sign(esign, decimal_value(d)));
    assert(digits_end(s, a) == de);
    if tail.len() > 0 {
        assert(s[de] == tail[0]);
    }
    assert(s.skip(de) =~= tail);
    assert(whole_digits(s, a) =~= w);
    assert(fraction_digits(s, a) =~= f);
}

/// A hexadecimal integer: an optional sign `lead`, `"0x"` or `"0X"`, the
/// hexadecimal digits `w`, then `tail`, which starts with neither a
/// hexadecimal digit, a point nor an exponent introducer. The suffix `'i'`
/// or `'u'` is taken if `tail` starts with one. Without digits, the literal
/// is refused; otherwise the result has the sign, the digits' value, and the
/// suffix, and the rest of `tail` is left. For example `"0x1i"`, `"-0xffu"`
/// and `"0x10"`.
#[verifier::spinoff_prover]
#[verifier::rlimit(80)]
pub proof fn lemma_parse_integer(
    lead: Seq<char>,
    x: char,
    w: Seq<char>,
    tail: Seq<char>,
    r: Result<(Parts<Suffix>, Seq<char>), Error>,
)
    requires
        is_optional_sign(lead),
        x == 'x' || x == 'X',
        all_hex_digits(w),
        tail.len() > 0 ==> !is_hex_digit(tail[0]) && tail[0] != '.' && tail[0] != 'p' && tail[0]
            != 'P',
        parse_outcome(lead + seq!['0', x] + w + tail, r),
    ensures
        ({
            let suffix = if tail.len() > 0 && tail[0] == 'i' {
                Some(Suffix::I32)
            } else if tail.len() > 0 && tail[0] == 'u' {
                Some(Suffix::U32)
            } else {
                None
            };
            if w.len() == 0 {
                r == Err::<(Parts<Suffix>, Seq<char>), Error>(
                    if suffix is Some {
                        Error::MissingWhole
                    } else {
                        Error::MissingWholeAndFraction
                    },
                )
            } else {
                r matches Ok((p, rest)) && {
                    &&& p.wf()
                    &&& p.sign == sign_of(lead)
                    &&& p.suffix == suffix
                    &&& rest == if suffix is Some {
                        tail.skip(1)
                    } else {
                        tail
                    }
                    &&& p.explicit_exponent == 0
                    &&& p.last_digit_exponent == 0
                    &&& p.scaled() == keep_64_bits(hex_value(w))
                    &&& p.exact == (p.scaled() == hex_value(w))
                    &&& p.present@ == sign_flag(lead) | PREFIX_BIT | WHOLE_BIT | flag_if(
                        suffix is Some,
                        TYPE_SUFFIX_BIT,
                    )
                }
            }
        }),
{
    let a = ALL_BITS;
    let s = lead + seq!['0', x] + w + tail;
    lemma_all_bits_allow();
    let ll = lead.len() as int;
    let wl = w.len() as int;
    let ws = ll + 2;
    let de = ws + wl;
    assert(s.len() == de + tail.len());
    if ll == 1 {
        assert(s[0] == lead[0]);
    }
    assert(s[ll] == '0' && s[ll + 1] == x);
    assert(sign_len(s, a) == ll);
    assert(literal_sign(s, a) == sign_of(lead));
    assert(prefix_len(s, a) == 2);
    assert(s.skip(ws) =~= w + tail);
    lemma_hex_run_of(w, tail);
    assert(whole_len(s, a) == wl);
    if tail.len() > 0 {
        assert(s[de] == tail[0]);
        assert(s.skip(de + 1) =~= tail.skip(1));
    }
    assert(!has_point(s, a));
    assert(fraction_len(s, a) == 0);
    assert(fraction_end(s, a) == de);
    assert(!has_exponent_marker(s, a));
    assert(exponent_digits_len(s, a) == 0);
    assert(literal_error(s, a) is None);
    assert(digits_end(s, a) == de);
    assert(s.skip(de) =~= tail);
    assert(whole_digits(s, a) =~= w);
    assert(fraction_digits(s, a) =~= Seq::<char>::empty());
    let sb = bit_if(ll == 1, SIGN_BIT);
    let wb = bit_if(wl > 0, WHOLE_BIT);
    let tb = bit_if(literal_suffix(s, a) is Some, TYPE_SUFFIX_BIT);
    assert(present_bits(s, a) == sb | PREFIX_BIT | wb | 0 | 0 | 0 | tb);
    assert(sb | PREFIX_BIT | wb | 0u32 | 0u32 | 0u32 | tb == sb | PREFIX_BIT | wb | tb)
        by (bit_vector);
}

/// A hexadecimal float with a point and no exponent: an optional sign
/// `lead`, `"0x"` or `"0X"`, whole digits `w`, a point, fraction digits `f`,
/// then `tail`, which starts with neither a hexadecimal digit nor an exponent
/// introducer. Without digits on either side of the point, the literal is
/// refused; otherwise the result has the sign and the digits' value, no type
/// suffix is taken, and all of `tail` is left. For example `"0x1."` and
/// `"+0x.8"`.
#[verifier::spinoff_prover]
#[verifier::rlimit(80)]
pub proof fn lemma_parse_float_with_point(
    lead: Seq<char>,
    x: char,
    w: Seq<char>,
    f: Seq<char>,
    tail: Seq<char>,
    r: Result<(Parts<Suffix>, Seq<char>), Error>,
)
    requires
        is_optional_sign(lead),
        x == 'x' || x == 'X',
        all_hex_digits(w),
        all_hex_digits(f),
        tail.len() > 0 ==> !is_hex_digit(tail[0]) && tail[0] != 'p' && tail[0] != 'P',
        parse_outcome(lead + seq!['0', x] + w + seq!['.'] + f + tail, r),
    ensures
        ({
            let value = append_hex_digits(hex_value(w), f);
            if w.len() + f.len() == 0 {
                r == Err::<(Parts<Suffix>, Seq<char>), Error>(Error::MissingWholeAndFraction)
            } else {
                r matches Ok((p, rest)) && {
                    &&& p.wf()
                    &&& p.sign == sign_of(lead)
                    &&& p.suffix is None
                    &&& rest == tail
                    &&& p.explicit_exponent == 0
                    &&& p.last_digit_exponent == -4 * f.len()
                    &&& p.scaled() == keep_64_bits(value)
                    &&& p.exact == (p.scaled() == value)
                    &&& p.present@ == sign_flag(lead) | PREFIX_BIT | flag_if(w.len() > 0, WHOLE_BIT)
                        | POINT_BIT | flag_if(f.len() > 0, FRACTION_BIT)
                }
            }
        }),
{
    let a = ALL_BITS;
    let s = lead + seq!['0', x] + w + seq!['.'] + f + tail;
    lemma_all_bits_allow();
    let ll = lead.len() as int;
    let wl = w.len() as int;
    let fl = f.len() as int;
    let ws = ll + 2;
    let pt = ws + wl;
    let fe = pt + 1 + fl;
    assert(s.len() == fe + tail.len());
    if ll == 1 {
        assert(s[0] == lead[0]);
    }
    assert(s[ll] == '0' && s[ll + 1] == x);
    assert(sign_len(s, a) == ll);
    assert(literal_sign(s, a) == sign_of(lead));
    assert(prefix_len(s, a) == 2);
    let after_w = seq!['.'] + f + tail;
    assert(s.skip(ws) =~= w + after_w);
    lemma_hex_run_of(w, after_w);
    assert(whole_len(s, a) == wl);
    assert(s[pt] == '.');
    assert(has_point(s, a));
    assert(s.skip(pt + 1) =~= f + tail);
    lemma_hex_run_of(f, tail);
    assert(fraction_len(s, a) == fl);
    assert(fraction_end(s, a) == fe);
    if tail.len() > 0 {
        assert(s[fe] == tail[0]);
    }
    assert(!has_exponent_marker(s, a));
    assert(exponent_digits_len(s, a) == 0);
    assert(literal_error(s, a) is None);
    assert(digits_end(s, a) == fe);
    assert(literal_suffix(s, a) is None);
    assert(s.skip(fe) =~= tail);
    assert(whole_digits(s, a) =~= w);
    assert(fraction_digits(s, a) =~= f);
    let sb = bit_if(ll == 1, SIGN_BIT);
    let wb = bit_if(wl > 0, WHOLE_BIT);
    let fb = bit_if(fl > 0, FRACTION_BIT);
    assert(present_bits(s, a) == sb | PREFIX_BIT | wb | POINT_BIT | fb | 0 | 0);
    assert(sb | PREFIX_BIT | wb | POINT_BIT | fb | 0u32 | 0u32 == sb | PREFIX_BIT | wb | POINT_BIT
        | fb) by (bit_vector);
}

/// A literal without the `"0x"` prefix is refused for it: after an optional
/// sign `lead`, the text `t` starts with none of a hexadecimal digit, a
/// point, an exponent introducer or a sign. For example `""`, `"-"` and
/// `"x1"`.
pub proof fn lemma_parse_missing_prefix(
    lead: Seq<char>,
    t: Seq<char>,
    r: Result<(Parts<Suffix>, Seq<char>), Error>,
)
    requires
        is_optional_sign(lead),
        t.len() > 0 ==> !is_hex_digit(t[0]) && t[0] != '.' && t[0] != 'p' && t[0] != 'P'
            && !is_sign_char(t[0]),
        parse_outcome(lead + t, r),
    ensures
        r == Err::<(Parts<Suffix>, Seq<char>), Error>(Error::MissingPrefix),
{
    let a = ALL_BITS;
    let s = lead + t;
    lemma_all_bits_allow();
    let ll = lead.len() as int;
    if ll == 1 {
        assert(s[0] == lead[0]);
    }
    if t.len() > 0 {
        assert(s[ll] == t[0]);
    }
    assert(sign_len(s, a) == ll);
    assert(prefix_len(s, a) == 0);
    assert(s.skip(ll) =~= Seq::<char>::empty() + t);
    lemma_hex_run_of(Seq::<char>::empty(), t);
    assert(whole_len(s, a) == 0);
    assert(!has_point(s, a));
    assert(!has_exponent_marker(s, a));
    assert(literal_error(s, a) is None);
}

/// An exponent introducer with no digits after it, and its optional sign, is
/// refused: an optional sign `lead`, `"0x"` or `"0X"`, whole digits `w`,
/// `'p'` or `'P'`, an optional sign `esign`, then `tail`, which starts with
/// no decimal digit, nor with a sign where `esign` is empty. For example
/// `"0x1p"` and `"0x1p-g"`.
#[verifier::spinoff_prover]
#[verifier::rlimit(80)]
pub proof fn lemma_parse_exponent_missing_digits(
    lead: Seq<char>,
    x: char,
    w: Seq<char>,
    marker: char,
    esign: Seq<char>,
    tail: Seq<char>,
    r: Result<(Parts<Suffix>, Seq<char>), Error>,
)
    requires
        is_optional_sign(lead),
        x == 'x' || x == 'X',
        all_hex_digits(w),
        marker == 'p' || marker == 'P',
        is_optional_sign(esign),
        tail.len() > 0 ==> !is_decimal_digit(tail[0]),
        esign.len() == 0 && tail.len() > 0 ==> !is_sign_char(tail[0]),
        parse_outcome(lead + seq!['0', x] + w + seq![marker] + esign + tail, r),
    ensures
        r == Err::<(Parts<Suffix>, Seq<char>), Error>(Error::ExponentMissingDigits),
{
    let a = ALL_BITS;
    let s = lead + seq!['0', x] + w + seq![marker] + esign + tail;
    lemma_all_bits_allow();
    let ll = lead.len() as int;
    let wl = w.len() as int;
    let el = esign.len() as int;
    let ws = ll + 2;
    let fe = ws + wl;
    let ds = fe + 1 + el;
    if ll == 1 {
        assert(s[0] == lead[0]);
    }
    assert(s[ll] == '0' && s[ll + 1] == x);
    assert(sign_len(s, a) == ll);
    assert(prefix_len(s, a) == 2);
    let after_w = seq![marker] + esign + tail;
    assert(s.skip(ws) =~= w + after_w);
    assert(!is_hex_digit(marker));
    lemma_hex_run_of(w, after_w);
    assert(whole_len(s, a) == wl);
    assert(s[fe] == marker);
    assert(!has_point(s, a));
    assert(fraction_end(s, a) == fe);
    assert(has_exponent_marker(s, a));
    if el == 1 {
        assert(s[fe + 1] == esign[0]);
    } else if tail.len() > 0 {
        assert(s[fe + 1] == tail[0]);
    }
    assert(exponent_sign_len(s, a) == el);
    assert(s.skip(ds) =~= Seq::<char>::empty() + tail);
    lemma_decimal_run_of(Seq::<char>::empty(), tail);
    assert(exponent_digits_len(s, a) == 0);
}

} // verus!
