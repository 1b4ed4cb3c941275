//! Building floating-point bit patterns from [`Parts`].
use vstd::prelude::*;
use vstd::arithmetic::power2::*;
use vstd::arithmetic::div_mod::*;
use vstd::arithmetic::mul::*;
use vstd::bits::*;
use vstd::std_specs::bits::axiom_u64_leading_zeros;

use crate::format::{lemma_encode_fields, lemma_normal_exponent_range, BinaryFormat};
use crate::parts::Parts;
use crate::significance::{
    bit_length, lemma_bit_length_bounds, lemma_bit_length_le, lemma_bit_length_u64,
    lemma_bit_length_unique, lemma_pow2_le,
};

verus! {

/// The result of assembling a hexadecimal literal value.
#[derive(Debug, Clone, Copy, Eq, PartialEq)]
pub enum Assembled<T> {
    /// The input can be represented exactly as the given value.
    Exact(T),
    /// The input value cannot be represented exactly in the given type, but
    /// can be represented with rounding towards zero as the given value.
    Rounded(T),
    /// The input overflowed, and is represented as the given infinity.
    Infinity(T),
}

impl<T> Assembled<T> {
    /// The value held, whichever the outcome.
    pub open spec fn value(self) -> T {
        match self {
            Assembled::Exact(v) => v,
            Assembled::Rounded(v) => v,
            Assembled::Infinity(v) => v,
        }
    }

    /// The value held, whichever the outcome.
    pub fn get(self) -> (v: T)
        ensures
            v == self.value(),
    {
        match self {
            Assembled::Exact(v) => v,
            Assembled::Rounded(v) => v,
            Assembled::Infinity(v) => v,
        }
    }
}

/// `x` clamped to the range of `i32`.
pub open spec fn saturate_i32(x: int) -> int {
    if x > i32::MAX {
        i32::MAX as int
    } else if x < i32::MIN {
        i32::MIN as int
    } else {
        x
    }
}

/// What `leading_bits` means: `m * 2^width` scaled down by `2^b`, where `b`
/// is `m`'s bit length, and rounded towards zero. Read as the significand of
/// a value with the same leading-bit exponent as `m`, it is never above `m`,
/// and above it by less than one unit in the last place kept. For odd `m` it
/// is exact precisely when `m` has no more than `width` bits.
pub proof fn lemma_leading_bits_truncates(m: nat, width: nat)
    requires
        m > 0,
    ensures
        ({
            let b = bit_length(m);
            let l = leading_bits(m, width);
            &&& l * pow2(b) <= m * pow2(width)
            &&& m * pow2(width) < (l + 1) * pow2(b)
            &&& m % 2 == 1 ==> (l * pow2(b) == m * pow2(width) <==> b <= width)
        }),
{
    let b = bit_length(m);
    let l = leading_bits(m, width);
    let x = m * pow2(width);
    lemma_pow2_pos(b);
    lemma_pow2_pos(width);
    lemma_fundamental_div_mod(x as int, pow2(b) as int);
    lemma_mod_bound(x as int, pow2(b) as int);
    lemma_mul_is_commutative(l as int, pow2(b) as int);
    lemma_mul_is_distributive_add_other_way(pow2(b) as int, l as int, 1);
    if m % 2 == 1 {
        if b <= width {
            let k = (width - b) as nat;
            lemma_pow2_adds(k, b);
            lemma_mul_is_associative(m as int, pow2(k) as int, pow2(b) as int);
            lemma_div_by_multiple((m * pow2(k)) as int, pow2(b) as int);
        } else {
            let k = (b - width) as nat;
            lemma_pow2_adds(k, width);
            if l * pow2(b) == x {
                // Then `l * 2^k == m`, so `m` would be even.
                lemma_mul_is_associative(l as int, pow2(k) as int, pow2(width) as int);
                lemma_mul_is_commutative((l * pow2(k)) as int, pow2(width) as int);
                lemma_mul_is_commutative(m as int, pow2(width) as int);
                lemma_mul_equality_converse(pow2(width) as int, (l * pow2(k)) as int, m as int);
                lemma_pow2_unfold(k);
                lemma_mul_is_associative(l as int, 2, pow2((k - 1) as nat) as int);
                lemma_mul_is_commutative(l as int, 2);
                lemma_mul_is_associative(2, l as int, pow2((k - 1) as nat) as int);
                assert(m == 2 * (l * pow2((k - 1) as nat)));
            }
        }
    }
}

/// The binary numbers `a * 2**ea` and `b * 2**eb` are equal.
pub open spec fn same_binary_value(a: nat, ea: int, b: nat, eb: int) -> bool {
    if ea <= eb {
        a == b * pow2((eb - ea) as nat)
    } else {
        a * pow2((ea - eb) as nat) == b
    }
}

/// An exact normal result of `to_float` has the value of the parts: its
/// significand `leading_bits(mantissa, mantissa_width + 1)`, whose leading
/// one is the implicit bit and whose other bits are the mantissa field,
/// times `2**(unbiased_exponent - mantissa_width)`, is
/// `mantissa * 2**(exponent + explicit_exponent)`; and the unbiased exponent
/// is the leading bit's true exponent, not a saturated one.
pub proof fn lemma_exact_normal_value<S>(p: Parts<S>, format: BinaryFormat)
    requires
        format.wf(),
        p.mantissa != 0,
        format.spec_min_normal_exp() <= p.unbiased_exponent() <= format.spec_max_normal_exp(),
        bit_length(p.mantissa as nat) <= format.mantissa_width + 1,
    ensures
        p.unbiased_exponent() == p.exponent + p.explicit_exponent + bit_length(p.mantissa as nat)
            - 1,
        same_binary_value(
            leading_bits(p.mantissa as nat, (format.mantissa_width + 1) as nat),
            p.unbiased_exponent() - format.mantissa_width,
            p.mantissa as nat,
            p.exponent + p.explicit_exponent,
        ),
{
    let m = p.mantissa as nat;
    let b = bit_length(m);
    let w = (format.mantissa_width + 1) as nat;
    lemma_normal_exponent_range(format);
    lemma_pow2_le((format.exponent_width - 1) as nat, 29);
    lemma2_to64();
    lemma_bit_length_bounds(m);
    lemma_bit_length_le(m, 64);
    lemma_pow2_le(b, 64);
    let k = (w - b) as nat;
    lemma_pow2_adds(k, b);
    lemma_pow2_pos(b);
    lemma_mul_is_associative(m as int, pow2(k) as int, pow2(b) as int);
    assert(k + b == w);
    lemma_div_by_multiple((m * pow2(k)) as int, pow2(b) as int);
}

/// `a * 2**ea <= b * 2**eb`.
pub open spec fn binary_le(a: nat, ea: int, b: nat, eb: int) -> bool {
    if ea <= eb {
        a <= b * pow2((eb - ea) as nat)
    } else {
        a * pow2((ea - eb) as nat) <= b
    }
}

/// `a * 2**ea < b * 2**eb`.
pub open spec fn binary_lt(a: nat, ea: int, b: nat, eb: int) -> bool {
    if ea <= eb {
        a < b * pow2((eb - ea) as nat)
    } else {
        a * pow2((ea - eb) as nat) < b
    }
}

/// Binary numbers compare as their digits do once both are written over the
/// same power of two `2**z`.
proof fn lemma_binary_scaled(a: nat, ea: int, b: nat, eb: int, z: int)
    requires
        z <= ea,
        z <= eb,
    ensures
        binary_le(a, ea, b, eb) <==> a * pow2((ea - z) as nat) <= b * pow2((eb - z) as nat),
        binary_lt(a, ea, b, eb) <==> a * pow2((ea - z) as nat) < b * pow2((eb - z) as nat),
        same_binary_value(a, ea, b, eb) <==> a * pow2((ea - z) as nat) == b * pow2(
            (eb - z) as nat,
        ),
{
    let k = if ea <= eb {
        ea
    } else {
        eb
    };
    let d = (k - z) as nat;
    let ka = (ea - k) as nat;
    let kb = (eb - k) as nat;
    lemma2_to64();
    let x = a * pow2(ka);
    let y = b * pow2(kb);
    lemma_pow2_adds(ka, d);
    lemma_pow2_adds(kb, d);
    assert((ea - z) as nat == ka + d);
    assert((eb - z) as nat == kb + d);
    lemma_mul_is_associative(a as int, pow2(ka) as int, pow2(d) as int);
    lemma_mul_is_associative(b as int, pow2(kb) as int, pow2(d) as int);
    lemma_pow2_pos(d);
    assert(a * pow2((ea - z) as nat) == x * pow2(d));
    assert(b * pow2((eb - z) as nat) == y * pow2(d));
    assert(pow2(0) == 1);
    if ea <= eb {
        assert(ka == 0);
        assert(pow2(ka) == 1);
        lemma_mul_basics(a as int);
        assert(x == a);
        assert(kb == (eb - ea) as nat);
    } else {
        assert(kb == 0);
        assert(pow2(kb) == 1);
        lemma_mul_basics(b as int);
        assert(y == b);
        assert(ka == (ea - eb) as nat);
    }
    assert(binary_le(a, ea, b, eb) <==> x <= y);
    assert(binary_lt(a, ea, b, eb) <==> x < y);
    if x <= y {
        lemma_mul_inequality(x as int, y as int, pow2(d) as int);
    } else {
        lemma_mul_strict_inequality(y as int, x as int, pow2(d) as int);
    }
    if x < y {
        lemma_mul_strict_inequality(x as int, y as int, pow2(d) as int);
    } else {
        lemma_mul_inequality(y as int, x as int, pow2(d) as int);
    }
}

/// How the saturating exponent sums of `to_float` relate to the true
/// exponent of the leading bit, `exponent + explicit_exponent +
/// bit_length(mantissa) - 1`: equal in the normal range, and on the same
/// side of it otherwise.
proof fn lemma_unbiased_bounds<S>(p: Parts<S>, format: BinaryFormat)
    requires
        format.wf(),
        p.mantissa != 0,
    ensures
        ({
            let t = p.exponent + p.explicit_exponent + bit_length(p.mantissa as nat) - 1;
            let u = p.unbiased_exponent();
            &&& u > format.spec_max_normal_exp() ==> t > format.spec_max_normal_exp()
            &&& u < format.spec_min_normal_exp() ==> t < format.spec_min_normal_exp()
            &&& format.spec_min_normal_exp() <= u <= format.spec_max_normal_exp() ==> u == t
        }),
{
    lemma_normal_exponent_range(format);
    lemma_pow2_le((format.exponent_width - 1) as nat, 29);
    lemma2_to64();
    lemma_bit_length_bounds(p.mantissa as nat);
    lemma_bit_length_le(p.mantissa as nat, 64);
    let b = bit_length(p.mantissa as nat);
    let ex = p.explicit_exponent + p.exponent;
    assert(1 <= b <= 64);
    assert(format.spec_exponent_bias() <= 0x2000_0000);
    let s1 = saturate_i32(ex);
    let t = p.exponent + p.explicit_exponent + b - 1;
    let u = p.unbiased_exponent();
    let max = format.spec_max_normal_exp();
    let min = format.spec_min_normal_exp();
    assert(u == saturate_i32(s1 + b - 1));
    assert(max < i32::MAX - 64 && min > i32::MIN + 64);
    if ex > i32::MAX {
        assert(s1 == i32::MAX);
        assert(u == i32::MAX);
        assert(t > max);
    } else if ex < i32::MIN {
        assert(s1 == i32::MIN);
        assert(u == s1 + b - 1);
        assert(u < min);
        assert(t < min);
    } else {
        assert(s1 == ex);
        assert(t == ex + b - 1);
        if t > i32::MAX {
            assert(u == i32::MAX);
        } else {
            assert(u == t);
        }
    }
}

/// What `to_float` returns is worth what the parts are worth, read straight
/// from the bit pattern's fields: the sign field is the sign; a zero
/// mantissa gives an exact zero; an infinity comes only for a value of at
/// least `2**(max_normal_exp + 1)`, and a zero only for a nonzero value below
/// `2**min_normal_exp`; and a normal result, whose value is
/// `(2**mantissa_width + mantissa field) * 2**(exponent field - bias -
/// mantissa_width)`, is the parts' value `mantissa * 2**(exponent +
/// explicit_exponent)` rounded towards zero: no more than it, and less than
/// one unit in the last place below it. It is marked exact only when equal
/// and `exact` is set, and an odd exact mantissa whose value is reached is
/// marked exact.
pub proof fn lemma_to_float_value<S>(p: Parts<S>, format: BinaryFormat, r: Assembled<u64>)
    requires
        format.wf(),
        p.assembles_to(format, r),
    ensures
        ({
            let bits = r.value() as nat;
            let m = p.mantissa as nat;
            let e = p.exponent + p.explicit_exponent;
            let ef = format.exponent_field(bits);
            let mf = format.mantissa_field(bits);
            let significand = pow2(format.mantissa_width as nat) + mf;
            let q = ef - format.spec_exponent_bias() - format.mantissa_width;
            &&& format.sign_field(bits) == p.spec_sign_bit()
            &&& m == 0 ==> r is Exact && ef == 0 && mf == 0
            &&& m != 0 && r is Infinity ==> {
                &&& ef == pow2(format.exponent_width as nat) - 1
                &&& mf == 0
                &&& binary_le(1, format.spec_max_normal_exp() + 1, m, e)
            }
            &&& m != 0 && !(r is Infinity) && ef == 0 ==> {
                &&& r is Rounded
                &&& mf == 0
                &&& binary_lt(m, e, 1, format.spec_min_normal_exp())
            }
            &&& m != 0 && !(r is Infinity) && ef != 0 ==> {
                &&& ef < pow2(format.exponent_width as nat) - 1
                &&& binary_le(significand, q, m, e)
                &&& binary_lt(m, e, significand + 1, q)
                &&& r is Exact ==> p.exact && same_binary_value(significand, q, m, e)
                &&& p.exact && m % 2 == 1 && same_binary_value(significand, q, m, e) ==> r is Exact
            }
        }),
{
    let sign = p.spec_sign_bit();
    let m = p.mantissa as nat;
    let e = p.exponent + p.explicit_exponent;
    let mw = format.mantissa_width as nat;
    let ew = format.exponent_width as nat;
    let bias = format.spec_exponent_bias();
    let max = format.spec_max_normal_exp();
    let min = format.spec_min_normal_exp();
    lemma_normal_exponent_range(format);
    lemma_pow2_le((format.exponent_width - 1) as nat, 29);
    lemma2_to64();
    lemma_pow2_pos(ew);
    lemma_pow2_pos(mw);
    if m == 0 {
        lemma_encode_fields(format, sign, 0, 0);
    } else {
        lemma_unbiased_bounds(p, format);
        let b = bit_length(m);
        lemma_bit_length_bounds(m);
        lemma_bit_length_le(m, 64);
        let u = p.unbiased_exponent();
        if u > max {
            lemma_pow2_unfold(ew);
            lemma_pow2_le(1, (format.exponent_width - 1) as nat);
            lemma_encode_fields(format, sign, (pow2(ew) - 1) as nat, 0);
            if max + 1 <= e {
                lemma_binary_scaled(1, max + 1, m, e, max + 1);
                lemma_pow2_pos((e - (max + 1)) as nat);
                lemma_mul_inequality(1, m as int, pow2((e - (max + 1)) as nat) as int);
            } else {
                lemma_binary_scaled(1, max + 1, m, e, e);
                lemma_pow2_le((max + 1 - e) as nat, (b - 1) as nat);
            }
        } else if u < min {
            lemma_encode_fields(format, sign, 0, 0);
            lemma_binary_scaled(m, e, 1, min, e);
            lemma_pow2_le(b, (min - e) as nat);
        } else {
            let w = mw + 1;
            let l = leading_bits(m, w);
            lemma_leading_bits_truncates(m, w);
            lemma_pow2_unfold(w);
            lemma_encode_fields(format, sign, (u + bias) as nat, (l - pow2(mw)) as nat);
            let q = u - format.mantissa_width;
            assert(q == e + b - w);
            lemma_binary_scaled(l, q, m, e, e - w);
            lemma_binary_scaled(m, e, l + 1, q, e - w);
            assert((q - (e - w)) as nat == b);
            assert((e - (e - w)) as nat == w);
            if b <= w {
                lemma_exact_normal_value(p, format);
            }
            if p.exact && m % 2 == 1 && same_binary_value(l, q, m, e) {
                assert(l * pow2(b) == m * pow2(w));
            }
        }
    }
}

/// Add, saturating at the bounds of `i32`.
fn saturating_add(a: i32, b: i32) -> (r: i32)
    ensures
        r == saturate_i32(a + b),
{
    let sum = a as i64 + b as i64;
    if sum > i32::MAX as i64 {
        i32::MAX
    } else if sum < i32::MIN as i64 {
        i32::MIN
    } else {
        sum as i32
    }
}

/// The `width` most significant bits of the nonzero `m`, as a number: `m`
/// scaled by a power of two so that it has exactly `width` bits, rounded
/// towards zero.
pub open spec fn leading_bits(m: nat, width: nat) -> nat {
    (m * pow2(width)) / pow2(bit_length(m))
}

/// The `width` most significant bits of the nonzero `mantissa`, which has
/// `significant_bits` bits: shifted right, dropping low bits, when it has too
/// many, or left so that its leading `1` bit lands at bit `width - 1`.
fn align_leading_bits(mantissa: u64, significant_bits: u32, width: u32) -> (r: u64)
    requires
        mantissa != 0,
        significant_bits == bit_length(mantissa as nat),
        2 <= width <= 64,
    ensures
        r == leading_bits(mantissa as nat, width as nat),
        pow2((width - 1) as nat) <= r < pow2(width as nat),
{
    let ghost m = mantissa as nat;
    let ghost b = significant_bits as nat;
    let ghost w = width as nat;
    proof {
        lemma_bit_length_bounds(m);
        lemma_bit_length_le(m, 64);
        lemma_pow2_pos(b);
        lemma_pow2_pos(w);
        lemma2_to64();
        lemma2_to64_rest();
        // `leading_bits(m, w)` has exactly `width` bits.
        lemma_pow2_adds(w, b);
        lemma_pow2_adds((w - 1) as nat, b);
        assert((m * pow2(w)) >= pow2((w - 1) as nat) * pow2(b)) by {
            lemma_mul_inequality(pow2((b - 1) as nat) as int, m as int, pow2(w) as int);
            lemma_pow2_adds((b - 1) as nat, w);
            assert((b - 1) as nat + w == (w - 1) as nat + b);
        }
        assert(m * pow2(w) < pow2(b) * pow2(w)) by {
            lemma_mul_strict_inequality(m as int, pow2(b) as int, pow2(w) as int);
        }
        lemma_mul_is_commutative(pow2(b) as int, pow2(w) as int);
        lemma_div_is_ordered(
            (pow2((w - 1) as nat) * pow2(b)) as int,
            (m * pow2(w)) as int,
            pow2(b) as int,
        );
        lemma_div_by_multiple(pow2((w - 1) as nat) as int, pow2(b) as int);
        lemma_multiply_divide_lt((m * pow2(w)) as int, pow2(b) as int, pow2(w) as int);
    }
    if significant_bits > width {
        let k = significant_bits - width;
        proof {
            lemma_u64_shr_is_div(mantissa, k as u64);
            lemma_pow2_adds(k as nat, w);
            assert((k + w) as nat == b);
            lemma_div_denominator((m * pow2(w)) as int, pow2(w) as int, pow2(k as nat) as int);
            lemma_mul_is_commutative(pow2(w) as int, pow2(k as nat) as int);
            lemma_div_by_multiple(m as int, pow2(w) as int);
        }
        mantissa >> k
    } else {
        let k = width - significant_bits;
        proof {
            lemma_pow2_adds(k as nat, b);
            assert(k + b == w);
            lemma_mul_is_associative(m as int, pow2(k as nat) as int, pow2(b) as int);
            lemma_div_by_multiple((m * pow2(k as nat)) as int, pow2(b) as int);
            lemma_pow2_le(w, 64);
            lemma_u64_shl_is_mul(mantissa, k as u64);
        }
        mantissa << k
    }
}

impl<S> Parts<S> {
    /// The sign bit of the encoding: set exactly when `sign` is `-1`.
    pub open spec fn spec_sign_bit(&self) -> nat {
        if self.sign == -1 {
            1
        } else {
            0
        }
    }

    /// The exponent that the leading bit of `mantissa` carries, adding up the
    /// explicit exponent, `exponent`, and the position of that leading bit,
    /// each addition saturating at the bounds of `i32`.
    pub open spec fn unbiased_exponent(&self) -> int {
        saturate_i32(
            saturate_i32(self.explicit_exponent + self.exponent) + bit_length(self.mantissa as nat)
                - 1,
        )
    }

    /// What `to_float` returns for `self` in `format`: the zero of the same
    /// sign for a zero mantissa; the infinity of the same sign when the
    /// leading bit's exponent is above the normal range; the zero of the same
    /// sign, rounded, when it is below; and otherwise the normal value whose
    /// significand is the leading `mantissa_width + 1` bits of `mantissa`,
    /// exact when nothing was dropped. `lemma_to_float_value` says what these
    /// bit patterns are worth.
    pub open spec fn assembles_to(&self, format: BinaryFormat, r: Assembled<u64>) -> bool {
        let sign = self.spec_sign_bit();
        let m = self.mantissa as nat;
        let u = self.unbiased_exponent();
        let width = format.mantissa_width + 1;
        if m == 0 {
            r == Assembled::Exact(format.encode(sign, 0, 0) as u64)
        } else if u > format.spec_max_normal_exp() {
            r == Assembled::Infinity(format.spec_infinity(sign) as u64)
        } else if u < format.spec_min_normal_exp() {
            r == Assembled::Rounded(format.encode(sign, 0, 0) as u64)
        } else {
            let significand = leading_bits(m, width as nat);
            let bits = format.encode(
                sign,
                (u + format.spec_exponent_bias()) as nat,
                (significand - pow2(format.mantissa_width as nat)) as nat,
            ) as u64;
            &&& pow2(format.mantissa_width as nat) <= significand < pow2(width as nat)
            &&& if self.exact && bit_length(m) <= width {
                r == Assembled::Exact(bits)
            } else {
                r == Assembled::Rounded(bits)
            }
        }
    }

    /// Convert `self` to the bit pattern of a value in `format`.
    ///
    /// If `self` can be represented exactly in `format`, return
    /// `Assembled::Exact` of its bit pattern. If it is in range but cannot be
    /// represented exactly, return `Assembled::Rounded` of the value rounded
    /// towards zero. If it is too large, return `Assembled::Infinity` of the
    /// infinity with the same sign as `self`. Values too small to be normal
    /// become a zero of the same sign, marked `Rounded`.
    pub fn to_float(&self, format: BinaryFormat) -> (r: Assembled<u64>)
        requires
            format.wf(),
        ensures
            self.assembles_to(format, r),
    {
        let mantissa = self.mantissa;
        if mantissa == 0 {
            return Assembled::Exact(self.zero(format));
        }
        // How many interesting bits are there in `mantissa`?
        let significant_bits = Self::MANTISSA_BITS - mantissa.leading_zeros();
        proof {
            lemma_bit_length_u64(mantissa);
            axiom_u64_leading_zeros(mantissa);
        }
        // What exponent would `self` require as a normal float? In IEEE, the
        // binary point comes at the left of the mantissa's bits, not the
        // right. In normal numbers, the leading `1` bit of the mantissa
        // becomes implicit.
        proof {
            lemma2_to64();
            lemma_pow2_le(2, format.exponent_width as nat);
        }
        let unbiased_exponent = saturating_add(
            saturating_add(self.explicit_exponent, self.exponent),
            significant_bits as i32 - 1,
        );
        if unbiased_exponent > format.max_normal_exp() {
            return Assembled::Infinity(self.infinity(format));
        }
        if unbiased_exponent < format.min_normal_exp() {
            return Assembled::Rounded(self.zero(format));
        }
        // Bits beyond what the mantissa holds, counting the implicit leading
        // `1` bit, are dropped off the bottom, rounding towards zero.
        // Subnormal results are not produced: values too small for a normal
        // one became zero above.
        let width = format.mantissa_width + 1;
        let exact = self.exact && significant_bits <= width;
        let mut mantissa = align_leading_bits(mantissa, significant_bits, width);
        // Mask off the leading `1` bit, which is implicit in the format.
        let implicit = format.mantissa_width;
        proof {
            lemma_u64_pow2_no_overflow(implicit as nat);
            lemma_u64_pow2_no_overflow(width as nat);
            lemma_u64_shl_is_mul(1, implicit as u64);
            lemma_u64_shl_is_mul(1, width as u64);
            lemma_pow2_unfold(width as nat);
            let top = width as u32;
            assert(mantissa & !(1u64 << implicit) == mantissa - (1u64 << implicit)) by (bit_vector)
                requires
                    implicit < 63,
                    top == implicit + 1,
                    (1u64 << implicit) <= mantissa < (1u64 << top),
            ;
        }
        mantissa = mantissa & !(1u64 << implicit);

        let biased_exponent = unbiased_exponent + format.exponent_bias();
        proof {
            lemma_pow2_le(format.exponent_width as nat, 30);
            lemma2_to64();
        }
        let f = format.from_bitfields(self.sign_bit(), biased_exponent as u32, mantissa);

        if exact {
            Assembled::Exact(f)
        } else {
            Assembled::Rounded(f)
        }
    }

    /// The infinity of `format` with the same sign as `self`.
    fn infinity(&self, format: BinaryFormat) -> (r: u64)
        requires
            format.wf(),
        ensures
            r == format.spec_infinity(self.spec_sign_bit()),
    {
        format.infinity(self.sign == -1)
    }

    /// The zero of `format` with the same sign as `self`.
    fn zero(&self, format: BinaryFormat) -> (r: u64)
        requires
            format.wf(),
        ensures
            r == format.encode(self.spec_sign_bit(), 0, 0),
    {
        proof {
            lemma_pow2_pos(format.exponent_width as nat);
            lemma_pow2_pos(format.mantissa_width as nat);
        }
        format.from_bitfields(self.sign_bit(), 0, 0)
    }

    /// The sign bit of `self`'s encoding.
    fn sign_bit(&self) -> (r: u32)
        ensures
            r == self.spec_sign_bit(),
    {
        if self.sign == -1 {
            1
        } else {
            0
        }
    }
}

} // verus!
