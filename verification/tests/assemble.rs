use hex_float::{Assembled, BinaryFormat, PartFlags, Parts};

fn make(sign: i32, mantissa: u64, exponent: i32) -> Parts<()> {
    assert!(mantissa == 0 || mantissa & 1 == 1);
    Parts {
        mantissa,
        exponent,
        present: PartFlags::empty(),
        sign,
        last_digit_exponent: 0,
        explicit_exponent: 0,
        exact: true,
        suffix: None,
    }
}

fn as_f32(a: Assembled<u64>) -> Assembled<f32> {
    match a {
        Assembled::Exact(b) => Assembled::Exact(f32::from_bits(b as u32)),
        Assembled::Rounded(b) => Assembled::Rounded(f32::from_bits(b as u32)),
        Assembled::Infinity(b) => Assembled::Infinity(f32::from_bits(b as u32)),
    }
}

fn as_f64(a: Assembled<u64>) -> Assembled<f64> {
    match a {
        Assembled::Exact(b) => Assembled::Exact(f64::from_bits(b)),
        Assembled::Rounded(b) => Assembled::Rounded(f64::from_bits(b)),
        Assembled::Infinity(b) => Assembled::Infinity(f64::from_bits(b)),
    }
}

fn to_f32(p: Parts<()>) -> Assembled<f32> {
    as_f32(p.to_float(BinaryFormat::binary32()))
}

fn to_f64(p: Parts<()>) -> Assembled<f64> {
    as_f64(p.to_float(BinaryFormat::binary64()))
}

#[test]
fn simple() {
    assert_eq!(to_f64(make(1, 0, 0)), Assembled::Exact(0.0));
    assert_eq!(to_f64(make(-1, 0, 0)), Assembled::Exact(-0.0));
    assert_eq!(to_f64(make(1, 1, 0)), Assembled::Exact(1.0));
    assert_eq!(to_f64(make(1, 1, 1)), Assembled::Exact(2.0));
    assert_eq!(to_f64(make(1, 1, -1)), Assembled::Exact(0.5));

    assert_eq!(to_f32(make(1, 1, 50)), Assembled::Exact(f32::powi(2.0, 50)));
    assert_eq!(to_f32(make(1, 1, -50)), Assembled::Exact(f32::powi(2.0, -50)));

    assert_eq!(to_f32(make(1, 7, -1)), Assembled::Exact(7.0 / 2.0));
    assert_eq!(to_f32(make(1, 7, -1)), Assembled::Exact(7.0 / 2.0));
    assert_eq!(to_f32(make(1, 7, -20)), Assembled::Exact(7.0 / f32::powi(2.0, 20)));
    assert_eq!(to_f32(make(1, 7, 20)), Assembled::Exact(7.0 * f32::powi(2.0, 20)));

    assert_eq!(to_f64(make(1, 7, -1)), Assembled::Exact(7.0 / 2.0));
    assert_eq!(to_f64(make(1, 7, -1)), Assembled::Exact(7.0 / 2.0));
    assert_eq!(to_f64(make(1, 7, -20)), Assembled::Exact(7.0 / f64::powi(2.0, 20)));
    assert_eq!(to_f64(make(1, 7, 20)), Assembled::Exact(7.0 * f64::powi(2.0, 20)));
}

#[test]
fn extrema() {
    assert_eq!(BinaryFormat::binary32().max_normal_exp(), 127);
    assert_eq!(to_f32(make(1, 1, 127)), Assembled::Exact(f32::powi(2.0, 127)));
    assert_eq!(to_f32(make(1, 3, 127)), Assembled::Infinity(f32::INFINITY));
    assert_eq!(to_f32(make(1, 1, 128)), Assembled::Infinity(f32::INFINITY));
    assert_eq!(to_f32(make(-1, 1, 128)), Assembled::Infinity(f32::NEG_INFINITY));

    assert_eq!(BinaryFormat::binary32().min_normal_exp(), -126);
    assert_eq!(to_f32(make(1, 1, -126)), Assembled::Exact(f32::powi(2.0, -126)));
    // Note: this should become a subnormal
    assert_eq!(to_f32(make(1, 1, -127)), Assembled::Rounded(0.0));

    assert_eq!(BinaryFormat::binary64().max_normal_exp(), 1023);
    assert_eq!(to_f64(make(1, 1, 1023)), Assembled::Exact(f64::powi(2.0, 1023)));
    assert_eq!(to_f64(make(1, 3, 1023)), Assembled::Infinity(f64::INFINITY));
    assert_eq!(to_f64(make(-1, 1, 1024)), Assembled::Infinity(f64::NEG_INFINITY));

    assert_eq!(BinaryFormat::binary64().min_normal_exp(), -1022);
    assert_eq!(to_f64(make(1, 1, -1022)), Assembled::Exact(f64::powi(2.0, -1022)));
    // Note: this should become a subnormal
    assert_eq!(to_f64(make(1, 1, -1023)), Assembled::Rounded(0.0));
}

#[test]
fn too_many_bits() {
    // This is 23 bits. Should fit.
    assert_eq!(to_f32(make(1, 0x7fff0f, 0)), Assembled::Exact(0x7fff0f as f32));
    // This is 24 bits, but that's okay, too: there's an implicit `1` bit.
    assert_eq!(to_f32(make(1, 0xffff0f, 0)), Assembled::Exact(0xffff0f as f32));
    // This is 25 bits, and must be rounded.
    assert_eq!(to_f32(make(1, 0x1ffff0f, 0)), Assembled::Rounded(0x1ffff0e as f32));

    // 52 bits. Should fit.
    assert_eq!(
        to_f64(make(1, 0xf_ffff_0000_ffff, 0)),
        Assembled::Exact(0xf_ffff_0000_ffff_u64 as f64)
    );
    // This is 53 bits, but that's okay: there's an implicit `1` bit.
    assert_eq!(
        to_f64(make(1, 0x1f_ffff_0000_ffff, 0)),
        Assembled::Exact(0x1f_ffff_0000_ffff_u64 as f64)
    );
    // This is 54 bits, and must be rounded.
    assert_eq!(
        to_f64(make(1, 0x3f_ffff_0000_ffff, 0)),
        Assembled::Rounded(0x3f_ffff_0000_fffe_u64 as f64)
    );
}
