//! The arithmetic model shared by the digit accumulators: how many binary
//! digits a number has, and what survives when only the 64 most significant
//! of them can be kept.
use vstd::prelude::*;
use vstd::arithmetic::power2::*;
use vstd::arithmetic::div_mod::*;
use vstd::arithmetic::mul::*;
use vstd::bits::*;
use vstd::std_specs::bits::*;

verus! {

/// The number of binary digits needed to write `x`; zero for zero.
pub open spec fn bit_length(x: nat) -> nat
    decreases x,
{
    if x == 0 {
        0
    } else {
        1 + bit_length(x / 2)
    }
}

/// `x` with every bit below its 64 most significant bits cleared: the value
/// that remains when `x` must fit in a 64-bit mantissa with a power-of-two
/// exponent, rounding towards zero.
pub open spec fn keep_64_bits(x: nat) -> nat {
    if bit_length(x) <= 64 {
        x
    } else {
        let s = (bit_length(x) - 64) as nat;
        (x / pow2(s)) * pow2(s)
    }
}

/// The number of trailing zero bits of `x`; zero for zero.
pub open spec fn trailing_zero_count(x: nat) -> nat
    decreases x,
{
    if x == 0 || x % 2 == 1 {
        0
    } else {
        1 + trailing_zero_count(x / 2)
    }
}

/// `pow2` is monotonic.
pub proof fn lemma_pow2_le(a: nat, b: nat)
    requires
        a <= b,
    ensures
        pow2(a) <= pow2(b),
{
    if a < b {
        lemma_pow2_strictly_increases(a, b);
    }
}

/// `x` lies between the powers of two given by its bit length.
pub proof fn lemma_bit_length_bounds(x: nat)
    ensures
        x < pow2(bit_length(x)),
        x > 0 ==> pow2((bit_length(x) - 1) as nat) <= x,
        x > 0 ==> bit_length(x) >= 1,
    decreases x,
{
    lemma2_to64();
    if x > 0 {
        lemma_bit_length_bounds(x / 2);
        let b = bit_length(x / 2);
        assert(bit_length(x) == b + 1);
        lemma_pow2_unfold(b + 1);
        if x / 2 > 0 {
            lemma_pow2_unfold(b);
        }
    }
}

/// The bit length is the unique `n` with `2^(n-1) <= x < 2^n`.
pub proof fn lemma_bit_length_unique(x: nat, n: nat)
    requires
        x < pow2(n),
        n > 0 ==> pow2((n - 1) as nat) <= x,
    ensures
        bit_length(x) == n,
{
    lemma_bit_length_bounds(x);
    lemma2_to64();
    let b = bit_length(x);
    if b < n {
        lemma_pow2_le(b, (n - 1) as nat);
    } else if b > n {
        lemma_pow2_le(n, (b - 1) as nat);
    }
}

/// A number below `2^n` has at most `n` bits, and conversely.
pub proof fn lemma_bit_length_le(x: nat, n: nat)
    ensures
        bit_length(x) <= n <==> x < pow2(n),
{
    lemma_bit_length_bounds(x);
    let b = bit_length(x);
    if b <= n {
        lemma_pow2_le(b, n);
    } else {
        lemma_pow2_le(n, (b - 1) as nat);
    }
}

/// The bit length of a `u64` is 64 minus its leading zeros.
pub proof fn lemma_bit_length_u64(m: u64)
    ensures
        bit_length(m as nat) == 64 - vstd::std_specs::bits::u64_leading_zeros(m),
    decreases m,
{
    reveal(vstd::std_specs::bits::u64_leading_zeros);
    if m != 0 {
        lemma_bit_length_u64(m / 2);
    }
}

/// `(a * p + d) / p == a + d / p`.
pub proof fn lemma_div_append(a: nat, p: nat, d: nat)
    requires
        p > 0,
    ensures
        (a * p + d) / p == a + d / p,
        (a * p + d) % p == d % p,
{
    lemma_fundamental_div_mod(d as int, p as int);
    lemma_mod_bound(d as int, p as int);
    let q = d / p;
    let r = d % p;
    assert(a * p + d == p * (a + q) + r) by {
        lemma_mul_is_distributive_add(p as int, a as int, q as int);
        lemma_mul_is_commutative(a as int, p as int);
    }
    lemma_div_multiples_vanish_fancy((a + q) as int, r as int, p as int);
    lemma_fundamental_div_mod((a * p + d) as int, p as int);
    lemma_fundamental_div_mod_converse_mod((a * p + d) as int, p as int, (a + q) as int, r as int);
}

/// Appending the low bits `d` below `m * 2^g` adds `g` to the bit length.
pub proof fn lemma_bit_length_append(m: nat, g: nat, d: nat)
    requires
        m >= 1,
        d < pow2(g),
    ensures
        bit_length(m * pow2(g) + d) == bit_length(m) + g,
{
    lemma_bit_length_bounds(m);
    let b = bit_length(m);
    let x = m * pow2(g) + d;
    lemma_pow2_adds((b - 1) as nat, g);
    lemma_pow2_adds(b, g);
    assert(pow2((b - 1) as nat) * pow2(g) <= m * pow2(g)) by {
        lemma_mul_inequality(pow2((b - 1) as nat) as int, m as int, pow2(g) as int);
    }
    assert((m + 1) * pow2(g) <= pow2(b) * pow2(g)) by {
        lemma_mul_inequality((m + 1) as int, pow2(b) as int, pow2(g) as int);
    }
    assert((m + 1) * pow2(g) == m * pow2(g) + pow2(g)) by {
        lemma_mul_is_distributive_add_other_way(pow2(g) as int, m as int, 1);
    }
    assert((b + g - 1) as nat == (b - 1) as nat + g);
    lemma_bit_length_unique(x, b + g);
}

/// What survives of `m * 2^g + d` when `d` sits entirely below `m`'s bits.
pub proof fn lemma_keep_append(m: nat, g: nat, d: nat)
    requires
        1 <= m < pow2(64),
        d < pow2(g),
    ensures
        bit_length(m) + g <= 64 ==> keep_64_bits(m * pow2(g) + d) == m * pow2(g) + d,
        bit_length(m) + g > 64 ==> ({
            let s = (bit_length(m) + g - 64) as nat;
            &&& s <= g
            &&& keep_64_bits(m * pow2(g) + d) == m * pow2(g) + (d / pow2(s)) * pow2(s)
        }),
{
    lemma_bit_length_append(m, g, d);
    lemma_bit_length_le(m, 64);
    let b = bit_length(m);
    if b + g > 64 {
        let s = (b + g - 64) as nat;
        let t = (g - s) as nat;
        lemma_pow2_pos(s);
        lemma_pow2_adds(t, s);
        let a = m * pow2(t);
        assert(m * pow2(g) == a * pow2(s)) by {
            lemma_mul_is_associative(m as int, pow2(t) as int, pow2(s) as int);
        }
        lemma_div_append(a, pow2(s), d);
        assert((a + d / pow2(s)) * pow2(s) == a * pow2(s) + (d / pow2(s)) * pow2(s)) by {
            lemma_mul_is_distributive_add_other_way(pow2(s) as int, a as int, (d / pow2(s)) as int);
        }
    }
}

/// A value held as a 64-bit mantissa times a power of two loses nothing.
pub proof fn lemma_keep_representable(m: nat, e: nat)
    requires
        m < pow2(64),
    ensures
        keep_64_bits(m * pow2(e)) == m * pow2(e),
{
    if m == 0 {
        assert(keep_64_bits(0) == 0);
    } else {
        lemma_pow2_pos(e);
        lemma_keep_append(m, e, 0);
        if bit_length(m) + e > 64 {
            let s = (bit_length(m) + e - 64) as nat;
            lemma_pow2_pos(s);
            assert(0nat / pow2(s) == 0) by {
                lemma_basic_div(0, pow2(s) as int);
            }
        }
    }
}

/// Keeping 64 bits before or after appending a hex digit gives the same
/// result; and once bits have been lost, appending a digit cannot restore
/// them.
pub proof fn lemma_keep_compose(y: nat, d: nat)
    requires
        d < 16,
    ensures
        keep_64_bits(16 * keep_64_bits(y) + d) == keep_64_bits(16 * y + d),
        keep_64_bits(y) != y ==> keep_64_bits(16 * y + d) != 16 * y + d,
{
    lemma2_to64();
    lemma_bit_length_bounds(y);
    let b = bit_length(y);
    if b > 64 {
        let p = (b - 64) as nat;
        lemma_pow2_pos(p);
        let q = y / pow2(p);
        let r = y % pow2(p);
        lemma_fundamental_div_mod(y as int, pow2(p) as int);
        lemma_mod_bound(y as int, pow2(p) as int);
        assert(y == q * pow2(p) + r) by {
            lemma_mul_is_commutative(q as int, pow2(p) as int);
        }
        // 2^63 <= q < 2^64
        lemma_pow2_adds(63, p);
        lemma_pow2_adds(64, p);
        assert((b - 1) as nat == 63 + p);
        assert(q >= pow2(63)) by {
            lemma_div_is_ordered((pow2(63) * pow2(p)) as int, y as int, pow2(p) as int);
            lemma_div_by_multiple(pow2(63) as int, pow2(p) as int);
        }
        assert(q < pow2(64)) by {
            lemma_multiply_divide_lt(y as int, pow2(p) as int, pow2(64) as int);
            lemma_mul_is_commutative(pow2(64) as int, pow2(p) as int);
        }
        lemma_bit_length_unique(q, 64);
        let g = p + 4;
        lemma_pow2_adds(p, 4);
        lemma_pow2_pos(g);
        assert(keep_64_bits(y) == q * pow2(p));
        // 16 * keep(y) + d == q * 2^(p+4) + d
        assert(16 * (q * pow2(p)) == q * pow2(g)) by {
            lemma_mul_is_associative(q as int, pow2(p) as int, 16);
            lemma_mul_is_commutative(pow2(p) as int, 16);
        }
        // 16 * y + d == q * 2^(p+4) + (16 * r + d)
        assert(16 * y + d == q * pow2(g) + (16 * r + d)) by {
            lemma_mul_is_distributive_add(16, (q * pow2(p)) as int, r as int);
        }
        assert(16 * r + d < pow2(g)) by {
            lemma_mul_is_commutative(16, pow2(p) as int);
        }
        assert(d < pow2(g)) by {
            lemma_pow2_le(4, g);
        }
        lemma_keep_append(q, g, d);
        lemma_keep_append(q, g, 16 * r + d);
        assert(d / pow2(g) == 0) by {
            lemma_basic_div(d as int, pow2(g) as int);
        }
        assert((16 * r + d) / pow2(g) == 0) by {
            lemma_basic_div((16 * r + d) as int, pow2(g) as int);
        }
        assert((bit_length(q) + g - 64) as nat == g);
        assert(keep_64_bits(q * pow2(g) + (16 * r + d)) == q * pow2(g) + 0 * pow2(g));
        assert(keep_64_bits(16 * y + d) == q * pow2(g));
        if keep_64_bits(y) != y {
            assert(r != 0);
            assert(16 * r + d > 0);
        }
    }
}

/// Keeping 64 bits rounds towards zero, and loses less than one unit of the
/// lowest bit kept: the result is `q * 2^s` with `q` below `2^64`, and
/// `x - 2^s < q * 2^s <= x`.
pub proof fn lemma_keep_truncates(x: nat)
    ensures
        keep_64_bits(x) <= x,
        bit_length(x) <= 64 ==> keep_64_bits(x) == x,
        bit_length(x) > 64 ==> ({
            let s = (bit_length(x) - 64) as nat;
            &&& keep_64_bits(x) % pow2(s) == 0
            &&& keep_64_bits(x) / pow2(s) < pow2(64)
            &&& x < keep_64_bits(x) + pow2(s)
        }),
{
    if bit_length(x) > 64 {
        let s = (bit_length(x) - 64) as nat;
        lemma_pow2_pos(s);
        let q = x / pow2(s);
        lemma_fundamental_div_mod(x as int, pow2(s) as int);
        lemma_mod_bound(x as int, pow2(s) as int);
        lemma_mul_is_commutative(q as int, pow2(s) as int);
        lemma_mod_multiples_basic(q as int, pow2(s) as int);
        lemma_div_by_multiple(q as int, pow2(s) as int);
        lemma_bit_length_bounds(x);
        lemma_pow2_adds(64, s);
        assert(bit_length(x) == 64 + s);
        lemma_mul_is_commutative(pow2(64) as int, pow2(s) as int);
        assert(x < pow2(s) * pow2(64));
        lemma_multiply_divide_lt(x as int, pow2(s) as int, pow2(64) as int);
    }
}

/// Keeping 64 bits twice is the same as keeping them once.
pub proof fn lemma_keep_idempotent(x: nat)
    ensures
        keep_64_bits(keep_64_bits(x)) == keep_64_bits(x),
{
    lemma_keep_truncates(x);
    if bit_length(x) > 64 {
        let s = (bit_length(x) - 64) as nat;
        let k = keep_64_bits(x);
        lemma_pow2_pos(s);
        lemma_fundamental_div_mod(k as int, pow2(s) as int);
        lemma_mul_is_commutative((k / pow2(s)) as int, pow2(s) as int);
        lemma_keep_representable(k / pow2(s), s);
    }
}

/// A nonzero number's trailing zeros are fewer than its bits.
pub proof fn lemma_trailing_zeros_below_bit_length(x: nat)
    requires
        x > 0,
    ensures
        trailing_zero_count(x) < bit_length(x),
    decreases x,
{
    if x % 2 == 0 {
        lemma_trailing_zeros_below_bit_length(x / 2);
    }
}

/// Keeping 64 bits keeps the bit length.
pub proof fn lemma_keep_bit_length(x: nat)
    ensures
        bit_length(keep_64_bits(x)) == bit_length(x),
{
    if bit_length(x) > 64 {
        let s = (bit_length(x) - 64) as nat;
        let q = x / pow2(s);
        lemma_bit_length_bounds(x);
        lemma_pow2_pos(s);
        lemma_pow2_adds(63, s);
        lemma_pow2_adds(64, s);
        assert((bit_length(x) - 1) as nat == 63 + s);
        assert(q >= pow2(63)) by {
            lemma_div_is_ordered((pow2(63) * pow2(s)) as int, x as int, pow2(s) as int);
            lemma_div_by_multiple(pow2(63) as int, pow2(s) as int);
        }
        assert(q < pow2(64)) by {
            lemma_mul_is_commutative(pow2(64) as int, pow2(s) as int);
            lemma_multiply_divide_lt(x as int, pow2(s) as int, pow2(64) as int);
        }
        lemma_bit_length_unique(q, 64);
        lemma_bit_length_append(q, s, 0);
    }
}

/// A value held as an odd mantissa times a power of two has only one such
/// form: the exponent is its number of trailing zeros, and the mantissa
/// what remains.
pub proof fn lemma_odd_form_unique(m1: nat, e1: nat, m2: nat, e2: nat)
    requires
        m1 % 2 == 1,
        m2 % 2 == 1,
        m1 * pow2(e1) == m2 * pow2(e2),
    ensures
        m1 == m2,
        e1 == e2,
{
    lemma_trailing_zero_count_odd(m1, e1);
    lemma_trailing_zero_count_odd(m2, e2);
    lemma_pow2_pos(e1);
    lemma_mul_is_commutative(pow2(e1) as int, m1 as int);
    lemma_mul_is_commutative(pow2(e1) as int, m2 as int);
    lemma_mul_equality_converse(pow2(e1) as int, m1 as int, m2 as int);
}

/// The trailing zeros of `m * 2^e`, for odd `m`, are exactly `e`.
pub proof fn lemma_trailing_zero_count_odd(m: nat, e: nat)
    requires
        m % 2 == 1,
    ensures
        trailing_zero_count(m * pow2(e)) == e,
        m * pow2(e) > 0,
    decreases e,
{
    lemma2_to64();
    lemma_pow2_pos(e);
    lemma_mul_strictly_positive(m as int, pow2(e) as int);
    if e > 0 {
        lemma_trailing_zero_count_odd(m, (e - 1) as nat);
        lemma_pow2_unfold(e);
        let h = m * pow2((e - 1) as nat);
        assert(m * pow2(e) == 2 * h) by {
            lemma_mul_is_associative(m as int, 2, pow2((e - 1) as nat) as int);
            lemma_mul_is_commutative(m as int, 2);
            lemma_mul_is_associative(2, m as int, pow2((e - 1) as nat) as int);
        }
        assert((2 * h) % 2 == 0 && (2 * h) / 2 == h);
    }
}

/// What the trailing zeros of a nonzero hexadecimal digit tell us: the digit
/// is an odd number `low` shifted left by them.
pub proof fn lemma_digit_trailing_zeros(d: u32)
    requires
        0 < d < 16,
    ensures
        u32_trailing_zeros(d) < 4,
        (d >> u32_trailing_zeros(d)) % 2 == 1,
        (d >> u32_trailing_zeros(d)) as nat * pow2(u32_trailing_zeros(d) as nat) == d,
        (d >> u32_trailing_zeros(d)) < pow2((4 - u32_trailing_zeros(d)) as nat),
        (d >> u32_trailing_zeros(d)) < 16,
{
    axiom_u32_trailing_zeros(d);
    let t = u32_trailing_zeros(d);
    assert(0 < d < 16 && t < 32 && (d >> t) & 1u32 == 1u32 ==> t < 4) by (bit_vector);
    let b0 = (d >> 0u32) & 1u32;
    let b1 = (d >> 1u32) & 1u32;
    let b2 = (d >> 2u32) & 1u32;
    assert(t > 0 ==> b0 == 0);
    assert(t > 1 ==> b1 == 0);
    assert(t > 2 ==> b2 == 0);
    let f = (4 - t) as u32;
    assert({
        &&& (d >> t) % 2 == 1
        &&& (d >> t) * (1u32 << t) == d
        &&& (d >> t) < (1u32 << f)
        &&& (d >> t) < 16
    }) by (bit_vector)
        requires
            0 < d < 16,
            t < 4,
            f + t == 4,
            (d >> t) & 1u32 == 1u32,
            b0 == (d >> 0u32) & 1u32,
            b1 == (d >> 1u32) & 1u32,
            b2 == (d >> 2u32) & 1u32,
            t > 0 ==> b0 == 0,
            t > 1 ==> b1 == 0,
            t > 2 ==> b2 == 0,
    ;
    lemma_u32_pow2_no_overflow(t as nat);
    lemma_u32_pow2_no_overflow((4 - t) as nat);
    lemma_u32_shl_is_mul(1, t);
    lemma_u32_shl_is_mul(1, f);
}

/// Shifting an odd `low` in below `m`, when everything fits in 64 bits.
pub proof fn lemma_shift_in(m: u64, sh: u64, low: u64)
    requires
        m >= 1,
        sh >= 1,
        bit_length(m as nat) + sh <= 64,
        low < pow2(sh as nat),
        low % 2 == 1,
    ensures
        ((m << sh) | low) as nat == m as nat * pow2(sh as nat) + low,
        ((m << sh) | low) % 2 == 1,
{
    lemma_bit_length_bounds(m as nat);
    let b = bit_length(m as nat);
    assert(sh < 64);
    lemma_pow2_adds(b, sh as nat);
    lemma_pow2_le(b + sh as nat, 64);
    assert(m as nat * pow2(sh as nat) < pow2(b) * pow2(sh as nat)) by {
        lemma_pow2_pos(sh as nat);
        lemma_mul_strict_inequality(m as int, pow2(b) as int, pow2(sh as nat) as int);
    }
    lemma2_to64_rest();
    lemma_u64_shl_is_mul(m, sh);
    lemma_u64_pow2_no_overflow(sh as nat);
    lemma_u64_shl_is_mul(1, sh);
    assert(sh < 64 && sh >= 1 && low < (1u64 << sh) && low % 2 == 1 ==> {
        &&& ((m << sh) | low) == (m << sh) + low
        &&& ((m << sh) | low) % 2 == 1
    }) by (bit_vector);
}

/// Removing the trailing zero bits of a nonzero `u64` leaves an odd number
/// that, shifted back, gives `i` again.
pub proof fn lemma_strip_trailing_zeros(i: u64)
    requires
        i != 0,
    ensures
        u64_trailing_zeros(i) < 64,
        (i >> u64_trailing_zeros(i)) % 2 == 1,
        (i >> u64_trailing_zeros(i)) as nat * pow2(u64_trailing_zeros(i) as nat) == i,
{
    axiom_u64_trailing_zeros(i);
    let t = u64_trailing_zeros(i) as u64;
    let k = (64 - t) as u64;
    assert(i << k == 0);
    assert((i >> t) << t == i && (i >> t) % 2 == 1) by (bit_vector)
        requires
            t < 64,
            k == 64 - t,
            i << k == 0,
            (i >> t) & 1 == 1,
    ;
    lemma_u64_shr_is_div(i, t);
    lemma_pow2_pos(t as nat);
    lemma_fundamental_div_mod(i as int, pow2(t as nat) as int);
    lemma_mod_bound(i as int, pow2(t as nat) as int);
    lemma_mul_is_commutative((i >> t) as int, pow2(t as nat) as int);
    lemma_u64_shl_is_mul(i >> t, t);
}

/// Append the nonzero hexadecimal digit `digit` at `gap` bit positions below
/// the least significant bit of the odd `mantissa`, keeping only the 64 most
/// significant bits of the result.
///
/// Returns the new odd mantissa, the position of its least significant bit
/// relative to the digit's, and whether nothing was lost.
pub(crate) fn append_digit(mantissa: u64, gap: u64, digit: u32) -> (r: (u64, u64, bool))
    requires
        mantissa % 2 == 1,
        4 <= gap,
        0 < digit < 16,
    ensures
        r.0 % 2 == 1,
        r.1 == gap || r.1 < 4,
        r.0 as nat * pow2(r.1 as nat) == keep_64_bits(
            mantissa as nat * pow2(gap as nat) + digit as nat,
        ),
        r.2 == (keep_64_bits(mantissa as nat * pow2(gap as nat) + digit as nat) == mantissa as nat
            * pow2(gap as nat) + digit as nat),
{
    let ghost m = mantissa as nat;
    let ghost g = gap as nat;
    proof {
        lemma_bit_length_u64(mantissa);
        axiom_u64_leading_zeros(mantissa);
        lemma_digit_trailing_zeros(digit);
        lemma2_to64();
        lemma_pow2_le(4, g);
        lemma_pow2_pos(g);
        lemma_bit_length_le(m, 64);
        lemma_keep_append(m, g, digit as nat);
    }
    // How much room for new bits is there at the top of the mantissa?
    let max_shift = mantissa.leading_zeros() as u64;
    // The digit's trailing zeros must not go into the mantissa: they belong
    // to the exponent.
    let trailing = digit.trailing_zeros() as u64;
    // How far must the mantissa move to take the digit's bits exactly?
    let exact_shift = gap - trailing;
    // The common case: there is room for all of them.
    if exact_shift <= max_shift {
        let low = (digit >> trailing as u32) as u64;
        proof {
            let t = trailing as nat;
            lemma_pow2_le((4 - t) as nat, exact_shift as nat);
            lemma_shift_in(mantissa, exact_shift, low);
            lemma_pow2_adds(exact_shift as nat, t);
            assert((m * pow2(exact_shift as nat) + low) * pow2(t) == m * pow2(g) + digit) by {
                lemma_mul_is_distributive_add_other_way(
                    pow2(t) as int,
                    (m * pow2(exact_shift as nat)) as int,
                    low as int,
                );
                lemma_mul_is_associative(m as int, pow2(exact_shift as nat) as int, pow2(t) as int);
            }
            if bit_length(m) + g > 64 {
                let s = (bit_length(m) + g - 64) as nat;
                lemma_pow2_adds((t - s) as nat, s);
                lemma_pow2_pos(s);
                assert(digit as nat == (low * pow2((t - s) as nat)) * pow2(s)) by {
                    lemma_mul_is_associative(low as int, pow2((t - s) as nat) as int, pow2(s) as int);
                }
                lemma_div_by_multiple((low * pow2((t - s) as nat)) as int, pow2(s) as int);
            }
        }
        ((mantissa << exact_shift) | low, trailing, true)
    } else {
        // Only the 64 most significant bits survive: everything below bit
        // `dropped` of the digit is lost, and bits the mantissa keeps must
        // be counted from its top, not from the digit's lowest set bit.
        let dropped = gap - max_shift;
        assert(dropped as nat == bit_length(m) + g - 64);
        let ghost s = dropped as nat;
        proof {
            lemma_pow2_pos(s);
        }
        let kept: u32 = if dropped < 4 {
            let sd = dropped as u32;
            assert(sd < 4 ==> (1u32 << sd) >= 1) by (bit_vector);
            let kept = digit & !((1u32 << sd) - 1);
            proof {
                let t = trailing as u32;
                assert(0 < digit < 16 && t < 4 && t < sd && sd < 4 && (digit >> t) % 2 == 1 ==> {
                    &&& digit & !(((1u32 << sd) - 1) as u32) == (digit >> sd) << sd
                    &&& digit & !(((1u32 << sd) - 1) as u32) != digit
                    &&& (digit >> sd) < 16
                    &&& digit & !(((1u32 << sd) - 1) as u32) < 16
                }) by (bit_vector);
                lemma_u32_shr_is_div(digit, sd);
                lemma_pow2_le(s, 4);
                assert((digit >> sd) as nat * pow2(s) <= 15 * 16) by {
                    lemma_mul_upper_bound((digit >> sd) as int, 15, pow2(s) as int, 16);
                }
                lemma_u32_shl_is_mul(digit >> sd, sd);
                assert(((1u32 << sd) - 1) as u32 == (1u32 << sd) - 1);
            }
            kept
        } else {
            proof {
                lemma_pow2_le(4, s);
                lemma_basic_div(digit as int, pow2(s) as int);
                let q = digit as nat / pow2(s);
                assert(q * pow2(s) == 0) by (nonlinear_arith)
                    requires
                        q == 0,
                ;
            }
            0
        };
        assert(kept as nat == (digit as nat / pow2(s)) * pow2(s));
        assert(kept != digit);
        // Dropping bits may have zeroed the digit out altogether, or exposed
        // new trailing zeros (rounding 9 to 8, say).
        if kept == 0 {
            (mantissa, gap, false)
        } else {
            let t2 = kept.trailing_zeros() as u64;
            let low = (kept >> t2 as u32) as u64;
            proof {
                lemma_digit_trailing_zeros(kept);
                axiom_u32_trailing_zeros(kept);
                let sd = dropped as u32;
                let tt = t2 as u32;
                assert(kept == (digit >> sd) << sd && sd < 4 && tt < 4 && (kept >> tt) % 2 == 1
                    ==> tt >= sd) by (bit_vector);
                let sh = (gap - t2) as u64;
                lemma_pow2_le((4 - t2) as nat, sh as nat);
                lemma_shift_in(mantissa, sh, low);
                lemma_pow2_adds(sh as nat, t2 as nat);
                assert((m * pow2(sh as nat) + low) * pow2(t2 as nat) == m * pow2(g) + kept) by {
                    lemma_mul_is_distributive_add_other_way(
                        pow2(t2 as nat) as int,
                        (m * pow2(sh as nat)) as int,
                        low as int,
                    );
                    lemma_mul_is_associative(m as int, pow2(sh as nat) as int, pow2(t2 as nat) as int);
                }
            }
            ((mantissa << (gap - t2)) | low, t2, false)
        }
    }
}

} // verus!
