//! Descriptions of IEEE 754 binary floating point formats.
//!
//! Every IEEE 754 binary format has the same structure: a sign bit at the
//! top, then an exponent field, then the mantissa field at the bottom. A
//! [`BinaryFormat`] gives the widths of the two fields; the values it builds
//! are the formats' bit patterns, held in a `u64`.
use vstd::prelude::*;
use vstd::arithmetic::power2::*;
use vstd::arithmetic::mul::*;
use vstd::bits::*;

use crate::significance::{lemma_div_append, lemma_pow2_le};

verus! {

/// An IEEE 754 binary floating point format.
///
/// - The sign bit is `0` for positive values and `1` for negative ones; let
///   `s` be `1` or `-1` accordingly.
/// - The mantissa field holds the fractional binary digits of a number `m`
///   between zero and one.
/// - If the exponent field, read as an unsigned number `e`, is neither all
///   zeros nor all ones, the value is `s * (1 + m) * 2^(e - B)`, where `B` is
///   the exponent bias. An all-zeros field gives the subnormal value
///   `s * m * 2^(1 - B)`, zero among them; an all-ones field gives an
///   infinity when the mantissa field is zero, and a NaN otherwise.
///
/// The `binary16`, `binary32` and `binary64` formats all have this structure.
#[derive(Clone, Copy, Debug, Eq, PartialEq)]
pub struct BinaryFormat {
    /// The length of the mantissa field in bits.
    pub mantissa_width: u32,
    /// The length of the exponent field in bits.
    pub exponent_width: u32,
}

impl BinaryFormat {
    /// The widths describe a format whose bit patterns fit in a `u64`, and
    /// whose exponents fit in an `i32`.
    pub open spec fn wf(self) -> bool {
        &&& 1 <= self.mantissa_width
        &&& 2 <= self.exponent_width <= 30
        &&& self.mantissa_width + self.exponent_width <= 63
    }

    /// The bit position of the sign bit: one short of the total width.
    pub open spec fn spec_sign_shift(self) -> nat {
        (self.mantissa_width + self.exponent_width) as nat
    }

    /// The exponent bias: half the largest value the exponent field can
    /// hold, rounded down.
    pub open spec fn spec_exponent_bias(self) -> int {
        pow2((self.exponent_width - 1) as nat) - 1
    }

    /// The minimum unbiased exponent of a normal, finite value.
    pub open spec fn spec_min_normal_exp(self) -> int {
        1 - self.spec_exponent_bias()
    }

    /// The maximum unbiased exponent of a normal, finite value: the exponent
    /// field one below all ones.
    pub open spec fn spec_max_normal_exp(self) -> int {
        pow2(self.exponent_width as nat) - 2 - self.spec_exponent_bias()
    }

    /// The bit pattern with the given sign bit, exponent field and mantissa
    /// field.
    pub open spec fn encode(self, sign: nat, exponent_bits: nat, mantissa_bits: nat) -> nat {
        sign * pow2(self.spec_sign_shift()) + exponent_bits * pow2(self.mantissa_width as nat)
            + mantissa_bits
    }

    /// The sign bit of the bit pattern `bits`.
    pub open spec fn sign_field(self, bits: nat) -> nat {
        bits / pow2(self.spec_sign_shift())
    }

    /// The exponent field of the bit pattern `bits`, read as an unsigned
    /// number.
    pub open spec fn exponent_field(self, bits: nat) -> nat {
        (bits / pow2(self.mantissa_width as nat)) % pow2(self.exponent_width as nat)
    }

    /// The mantissa field of the bit pattern `bits`, read as an unsigned
    /// number.
    pub open spec fn mantissa_field(self, bits: nat) -> nat {
        bits % pow2(self.mantissa_width as nat)
    }

    /// The bit pattern of the infinity with the given sign bit.
    pub open spec fn spec_infinity(self, sign: nat) -> nat {
        self.encode(sign, (pow2(self.exponent_width as nat) - 1) as nat, 0)
    }

    /// IEEE 754 `binary16`.
    pub fn binary16() -> (f: BinaryFormat)
        ensures
            f.wf(),
            f.mantissa_width == 10,
            f.exponent_width == 5,
    {
        BinaryFormat { mantissa_width: 10, exponent_width: 5 }
    }

    /// IEEE 754 `binary32`.
    pub fn binary32() -> (f: BinaryFormat)
        ensures
            f.wf(),
            f.mantissa_width == 23,
            f.exponent_width == 8,
    {
        BinaryFormat { mantissa_width: 23, exponent_width: 8 }
    }

    /// IEEE 754 `binary64`.
    pub fn binary64() -> (f: BinaryFormat)
        ensures
            f.wf(),
            f.mantissa_width == 52,
            f.exponent_width == 11,
    {
        BinaryFormat { mantissa_width: 52, exponent_width: 11 }
    }

    /// The bit position of the sign bit.
    pub fn sign_shift(&self) -> (r: u32)
        requires
            self.wf(),
        ensures
            r == self.spec_sign_shift(),
    {
        self.mantissa_width + self.exponent_width
    }

    /// The exponent bias.
    pub fn exponent_bias(&self) -> (r: i32)
        requires
            self.wf(),
        ensures
            r == self.spec_exponent_bias(),
    {
        let k = self.exponent_width - 1;
        proof {
            lemma_u32_pow2_no_overflow(k as nat);
            lemma_u32_shl_is_mul(1, k);
            lemma_pow2_le(k as nat, 29);
            lemma2_to64();
        }
        ((1u32 << k) - 1) as i32
    }

    /// The minimum unbiased exponent of a normal, finite value.
    pub fn min_normal_exp(&self) -> (r: i32)
        requires
            self.wf(),
        ensures
            r == self.spec_min_normal_exp(),
    {
        1 - self.exponent_bias()
    }

    /// The maximum unbiased exponent of a normal, finite value.
    pub fn max_normal_exp(&self) -> (r: i32)
        requires
            self.wf(),
        ensures
            r == self.spec_max_normal_exp(),
    {
        let w = self.exponent_width;
        proof {
            lemma_u32_pow2_no_overflow(w as nat);
            lemma_u32_shl_is_mul(1, w);
            lemma_pow2_le(w as nat, 30);
            lemma_pow2_le(2, w as nat);
            lemma2_to64();
        }
        ((1u32 << w) - 2) as i32 - self.exponent_bias()
    }

    /// The bit pattern with the given fields.
    ///
    /// `sign` must be 0 (positive) or 1 (negative); `exponent_bits` must fit
    /// in the exponent field, and gives its exact contents; `mantissa_bits`
    /// must fit in the mantissa field, and gives its exact contents.
    pub fn from_bitfields(&self, sign: u32, exponent_bits: u32, mantissa_bits: u64) -> (r: u64)
        requires
            self.wf(),
            sign <= 1,
            exponent_bits < pow2(self.exponent_width as nat),
            mantissa_bits < pow2(self.mantissa_width as nat),
        ensures
            r == self.encode(sign as nat, exponent_bits as nat, mantissa_bits as nat),
    {
        let mw = self.mantissa_width as u64;
        let ss = self.sign_shift() as u64;
        let ew = self.exponent_width as u64;
        let e = exponent_bits as u64;
        let s = sign as u64;
        proof {
            lemma2_to64();
            lemma2_to64_rest();
            lemma_u64_pow2_no_overflow(mw as nat);
            lemma_u64_pow2_no_overflow(ew as nat);
            lemma_u64_pow2_no_overflow(ss as nat);
            lemma_u64_shl_is_mul(1, mw);
            lemma_u64_shl_is_mul(1, ew);
            lemma_u64_shl_is_mul(1, ss);
            lemma_pow2_adds(mw as nat, ew as nat);
            lemma_pow2_le(ss as nat, 63);
            assert(e as nat * pow2(mw as nat) < pow2(ss as nat)) by {
                lemma_mul_strict_inequality(e as int, pow2(ew as nat) as int, pow2(mw as nat) as int);
                lemma_mul_is_commutative(pow2(ew as nat) as int, pow2(mw as nat) as int);
            }
            lemma_u64_shl_is_mul(e, mw);
            lemma_mul_inequality(s as int, 1, pow2(ss as nat) as int);
            lemma_u64_shl_is_mul(s, ss);
            let m = mantissa_bits;
            assert((e << mw) & m == 0 && (e << mw) | m == (e << mw) + m) by (bit_vector)
                requires
                    mw < 64,
                    m < (1u64 << mw),
            ;
            let low = (e << mw) | m;
            assert(low < (1u64 << ss)) by {
                assert(e as nat * pow2(mw as nat) + m <= (pow2(ew as nat) - 1) * pow2(mw as nat) + m)
                    by {
                    lemma_mul_inequality(e as int, pow2(ew as nat) - 1, pow2(mw as nat) as int);
                }
                lemma_mul_is_distributive_sub_other_way(pow2(mw as nat) as int, pow2(ew as nat) as int, 1);
            }
            assert((s << ss) | low == (s << ss) + low) by (bit_vector)
                requires
                    ss < 64,
                    low < (1u64 << ss),
            ;
        }
        (s << ss) | ((e << mw) | mantissa_bits)
    }

    /// The bit pattern of the infinity that is negative if `negative` is set.
    pub fn infinity(&self, negative: bool) -> (r: u64)
        requires
            self.wf(),
        ensures
            r == self.spec_infinity(if negative { 1 } else { 0 }),
    {
        let w = self.exponent_width;
        proof {
            lemma_u32_pow2_no_overflow(w as nat);
            lemma_u32_shl_is_mul(1, w);
            lemma_pow2_pos(self.mantissa_width as nat);
        }
        let all_ones = (1u32 << w) - 1;
        self.from_bitfields(if negative { 1 } else { 0 }, all_ones, 0)
    }
}

/// Reading the fields of a bit pattern built from fields that fit gives them
/// back, and the pattern fits in a `u64`.
pub proof fn lemma_encode_fields(format: BinaryFormat, sign: nat, e: nat, m: nat)
    requires
        format.wf(),
        sign <= 1,
        e < pow2(format.exponent_width as nat),
        m < pow2(format.mantissa_width as nat),
    ensures
        format.sign_field(format.encode(sign, e, m)) == sign,
        format.exponent_field(format.encode(sign, e, m)) == e,
        format.mantissa_field(format.encode(sign, e, m)) == m,
        format.encode(sign, e, m) < pow2(64),
{
    let mw = format.mantissa_width as nat;
    let ew = format.exponent_width as nat;
    let ss = format.spec_sign_shift();
    lemma_pow2_pos(mw);
    lemma_pow2_pos(ew);
    lemma_pow2_adds(ew, mw);
    assert(ss == ew + mw);
    let a = sign * pow2(ew) + e;
    // encode == a * 2^mw + m
    assert(format.encode(sign, e, m) == a * pow2(mw) + m) by {
        lemma_mul_is_associative(sign as int, pow2(ew) as int, pow2(mw) as int);
        lemma_mul_is_distributive_add_other_way(pow2(mw) as int, (sign * pow2(ew)) as int, e as int);
    }
    lemma_div_append(a, pow2(mw), m);
    lemma_small_div(m, pow2(mw));
    lemma_div_append(sign, pow2(ew), e);
    lemma_small_div(e, pow2(ew));
    // The low part, below the sign bit.
    let low = e * pow2(mw) + m;
    assert(low < pow2(ss)) by {
        lemma_mul_inequality(e as int, pow2(ew) - 1, pow2(mw) as int);
        lemma_mul_is_distributive_sub_other_way(pow2(mw) as int, pow2(ew) as int, 1);
    }
    lemma_pow2_pos(ss);
    assert(format.encode(sign, e, m) == sign * pow2(ss) + low);
    lemma_div_append(sign, pow2(ss), low);
    lemma_small_div(low, pow2(ss));
    lemma_pow2_adds(ss, 1);
    lemma_pow2_le(ss + 1, 64);
    lemma2_to64();
    lemma_mul_inequality(sign as int, 1, pow2(ss) as int);
}

/// `x / d` is zero and `x % d` is `x` for `x` below `d`.
proof fn lemma_small_div(x: nat, d: nat)
    requires
        x < d,
    ensures
        x / d == 0,
        x % d == x,
{
    vstd::arithmetic::div_mod::lemma_basic_div(x as int, d as int);
    vstd::arithmetic::div_mod::lemma_small_mod(x, d);
}

/// Normal values are symmetric about an unbiased exponent of zero: the
/// largest unbiased exponent of a normal value equals the bias, the smallest
/// is one minus the bias, and their biased exponent fields range from one to
/// one below all ones.
pub proof fn lemma_normal_exponent_range(format: BinaryFormat)
    requires
        format.wf(),
    ensures
        format.spec_max_normal_exp() == format.spec_exponent_bias(),
        format.spec_min_normal_exp() == 1 - format.spec_exponent_bias(),
        format.spec_exponent_bias() >= 1,
        format.spec_min_normal_exp() + format.spec_exponent_bias() == 1,
        format.spec_max_normal_exp() + format.spec_exponent_bias() == pow2(
            format.exponent_width as nat,
        ) - 2,
{
    lemma_pow2_unfold(format.exponent_width as nat);
    lemma_pow2_le(1, (format.exponent_width - 1) as nat);
    lemma2_to64();
}

} // verus!
