use hex_float::{shl_exact, Assembled, BinaryFormat, PartFlags, Parts};

fn parts(sign: i32, mantissa: u64, exponent: i32, explicit_exponent: i32, exact: bool) -> Parts<()> {
    Parts {
        present: PartFlags::empty(),
        sign,
        mantissa,
        exponent,
        last_digit_exponent: 0,
        explicit_exponent,
        exact,
        suffix: None,
    }
}

#[test]
fn format_constants() {
    let h = BinaryFormat::binary16();
    assert_eq!((h.exponent_bias(), h.min_normal_exp(), h.max_normal_exp(), h.sign_shift()), (15, -14, 15, 15));
    let s = BinaryFormat::binary32();
    assert_eq!((s.exponent_bias(), s.sign_shift()), (127, 31));
    let d = BinaryFormat::binary64();
    assert_eq!((d.exponent_bias(), d.sign_shift()), (1023, 63));
    assert_eq!(s.infinity(false), 0x7f80_0000);
    assert_eq!(s.infinity(true), 0xff80_0000);
    assert_eq!(d.infinity(true), 0xfff0_0000_0000_0000);
    assert_eq!(h.from_bitfields(0, 15, 0), 0x3c00);
}

#[test]
fn explicit_exponent_adds_to_exponent() {
    // 0x3 * 2**(1 + 2) == 24
    let r = parts(-1, 3, 1, 2, true).to_float(BinaryFormat::binary32());
    assert_eq!(r, Assembled::Exact((-24.0f32).to_bits() as u64));
    assert_eq!(f32::from_bits(r.get() as u32), -24.0);
}

#[test]
fn exponent_sums_saturate() {
    let big = parts(1, 1, i32::MAX, i32::MAX, true).to_float(BinaryFormat::binary64());
    assert_eq!(big, Assembled::Infinity(f64::INFINITY.to_bits()));
    let small = parts(-1, 1, i32::MIN, i32::MIN, true).to_float(BinaryFormat::binary64());
    assert_eq!(small, Assembled::Rounded((-0.0f64).to_bits()));
}

#[test]
fn inexact_parts_assemble_rounded() {
    let r = parts(1, 5, 0, 0, false).to_float(BinaryFormat::binary32());
    assert_eq!(r, Assembled::Rounded(5.0f32.to_bits() as u64));
}

#[test]
fn half_precision_assembly() {
    // 0x7ff has 11 bits: fits binary16's 10-bit mantissa plus the implicit bit.
    let r = parts(1, 0x7ff, 0, 0, true).to_float(BinaryFormat::binary16());
    assert_eq!(r, Assembled::Exact(0x67ff));
    // 0xfff has 12 bits: the lowest is dropped.
    let r = parts(1, 0xfff, 0, 0, true).to_float(BinaryFormat::binary16());
    assert_eq!(r, Assembled::Rounded(0x6bff));
    // 2**16 is beyond binary16's largest finite value.
    let r = parts(-1, 1, 16, 0, true).to_float(BinaryFormat::binary16());
    assert_eq!(r, Assembled::Infinity(0xfc00));
}

#[test]
fn assembled_get() {
    assert_eq!(Assembled::Exact(3u64).get(), 3);
    assert_eq!(Assembled::Rounded(4u64).get(), 4);
    assert_eq!(Assembled::Infinity(5u64).get(), 5);
}

#[test]
fn shl_exact_boundaries() {
    assert_eq!(shl_exact(3, 62), Some(3 << 62));
    assert_eq!(shl_exact(3, 63), None);
    assert_eq!(shl_exact(u64::MAX, 0), Some(u64::MAX));
    assert_eq!(shl_exact(u64::MAX >> 1, 1), Some(u64::MAX - 1));
}
