use hex_float::BinaryFormat;

fn f32_from_bitfields(sign: u32, exponent_bits: u32, mantissa_bits: u64) -> f32 {
    f32::from_bits(BinaryFormat::binary32().from_bitfields(sign, exponent_bits, mantissa_bits) as u32)
}

fn f64_from_bitfields(sign: u32, exponent_bits: u32, mantissa_bits: u64) -> f64 {
    f64::from_bits(BinaryFormat::binary64().from_bitfields(sign, exponent_bits, mantissa_bits))
}

#[test]
fn basic() {
    assert_eq!(f32_from_bitfields(0, 0, 0), 0.0);
    assert_eq!(f64_from_bitfields(0, 0, 0), 0.0);

    assert_eq!(f32_from_bitfields(0, 126, 0), 0.5);
    assert_eq!(f64_from_bitfields(0, 1022, 0), 0.5);
    assert_eq!(f32_from_bitfields(1, 126, 0), -0.5);
    assert_eq!(f64_from_bitfields(1, 1022, 0), -0.5);

    assert_eq!(f32_from_bitfields(0, 127, 0), 1.0);
    assert_eq!(f64_from_bitfields(0, 1023, 0), 1.0);
    assert_eq!(f32_from_bitfields(1, 127, 0), -1.0);
    assert_eq!(f64_from_bitfields(1, 1023, 0), -1.0);

    assert_eq!(f32_from_bitfields(0, 128, 0), 2.0);
    assert_eq!(f64_from_bitfields(0, 1024, 0), 2.0);
    assert_eq!(f32_from_bitfields(1, 128, 0), -2.0);
    assert_eq!(f64_from_bitfields(1, 1024, 0), -2.0);
}

/// Values with interesting mantissas, like fractions whose denominator is not
/// a power of two.
#[test]
fn interesting_normals() {
    // 4/3 is `1.0101...` in binary; rounded to nearest, the last kept bit
    // rounds up for the 23-bit mantissa, and not for the 52-bit one.
    assert_eq!(
        f32_from_bitfields(0, 127, 0b01010101010101010101011),
        4.0 / 3.0
    );
    assert_eq!(
        f64_from_bitfields(
            0,
            1023,
            0b0101010101010101010101010101010101010101010101010101
        ),
        4.0 / 3.0
    );

    // In "binary point": `1.010 * 2**3 == 10`.
    assert_eq!(f32_from_bitfields(0, 130, 0b01000000000000000000000), 10.0);
    assert_eq!(
        f64_from_bitfields(
            0,
            1026,
            0b0100000000000000000000000000000000000000000000000000
        ),
        10.0
    );

    // 6/5 is `1.0011001100110011...` in binary.
    assert_eq!(
        f32_from_bitfields(0, 127, 0b00110011001100110011010),
        6.0 / 5.0
    );
    assert_eq!(
        f64_from_bitfields(
            0,
            1023,
            0b0011001100110011001100110011001100110011001100110011
        ),
        6.0 / 5.0
    );
}

#[test]
fn f32_subnormals() {
    // Unlike f32::powi, the results of all the f32 arithmetic operations here
    // are exactly specified by IEEE 754.
    let two_p20: f32 = (1 << 20) as _;
    let two_p40 = two_p20 * two_p20;
    let two_p80 = two_p40 * two_p40;
    let two_p120 = two_p80 * two_p40;

    // The smallest non-subnormal value.
    assert_eq!(
        f32_from_bitfields(0, 1, 0b00000000000000000000000),
        1.0 / two_p120 / 64.0
    );

    // The largest subnormal power of two.
    assert_eq!(
        f32_from_bitfields(0, 0, 0b10000000000000000000000),
        1.0 / two_p120 / 128.0
    );

    assert_eq!(
        f32_from_bitfields(0, 0, 0b00001000000000000000000),
        1.0 / two_p120 / 128.0 / 16.0
    );

    // The smallest subnormal, and thus the smallest `f32`.
    assert_eq!(
        f32_from_bitfields(0, 0, 0b00000000000000000000001),
        1.0 / two_p120 / two_p20 / 512.0
    );
    assert_eq!(
        f32_from_bitfields(0, 0, 0b00000000000000000000001),
        f32::next_up(0.0)
    );
}
