//! Shifting left without losing bits.
use vstd::prelude::*;
use vstd::arithmetic::power2::*;
use vstd::bits::*;

verus! {

/// `value` rotated left by `bits`, as `u64::rotate_left` does: the bits
/// shifted off the top come back in at the bottom.
fn rotate_left(value: u64, bits: u32) -> (r: u64)
    requires
        bits < 64,
    ensures
        bits == 0 ==> r == value,
        bits > 0 ==> r == (value << bits) | (value >> ((64 - bits) as u32)),
{
    if bits == 0 {
        value
    } else {
        (value << bits) | (value >> (64 - bits))
    }
}

/// Shift `value` left by `bits` bits, returning `None` if any 1-bits would be
/// lost.
pub fn shl_exact(value: u64, bits: u32) -> (r: Option<u64>)
    ensures
        value == 0 ==> r == Some(0u64),
        value != 0 ==> (r is Some <==> bits < 64 && value * pow2(bits as nat) <= u64::MAX),
        r matches Some(v) ==> v == value * pow2(bits as nat),
{
    // We can always shift zero as far as you like.
    if value == 0 {
        proof {
            lemma_pow2_pos(bits as nat);
        }
        return Some(0);
    }
    // Since `value` is non-zero, shifting it more than 64 bits would
    // definitely lose something.

    if bits >= 64 {
        proof {
            lemma2_to64_rest();
            crate::significance::lemma_pow2_le(64, bits as nat);
            assert(value * pow2(bits as nat) >= pow2(bits as nat)) by (nonlinear_arith)
                requires
                    value >= 1,
            ;
        }
        return None;
    }
    // Rotate left, so that the bits shifted off the top end up at the less
    // significant end, where we can check them conveniently.

    let rotated = rotate_left(value, bits);
    // Check for non-zero bits that were shifted off the top and rotated back
    // to the bottom.
    assert(bits < 64 ==> (1u64 << bits) >= 1) by (bit_vector);
    let mask = (1u64 << bits) - 1;
    proof {
        lemma_u64_mul_pow2_le_max_iff_max_shr(value, bits as u64, u64::MAX);
        let b = bits as u64;
        let c = (64 - bits) as u32;
        assert({
            &&& (rotated & mask == 0) <==> value <= (0xffff_ffff_ffff_ffffu64 >> b)
            &&& rotated & mask == 0 ==> rotated == value << b
        }) by (bit_vector)
            requires
                b < 64,
                b as u32 == bits,
                c == 64 - bits,
                mask == (1u64 << b) - 1,
                b == 0 ==> rotated == value,
                b > 0 ==> rotated == (value << bits) | (value >> c),
        ;
        if rotated & mask == 0 {
            lemma_u64_shl_is_mul(value, b);
        }
    }
    if rotated & mask != 0 {
        return None;
    }
    // Since all the bits rotated around to the bottom are zero, the rotate is
    // the same as the shift we wanted.

    Some(rotated)
}

} // verus!
