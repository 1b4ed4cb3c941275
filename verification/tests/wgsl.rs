use hex_float::wgsl::{parse, parse_with_allowed_parts, int_parts, Error, Suffix};
use hex_float::{Assembled, BinaryFormat, PartFlags, Parts};

fn flags(list: &[PartFlags]) -> PartFlags {
    list.iter().fold(PartFlags::empty(), |acc, f| acc.union(*f))
}

#[allow(clippy::too_many_arguments)]
fn parts(
    present: PartFlags,
    sign: i32,
    mantissa: u64,
    exponent: i32,
    last_digit_exponent: i32,
    explicit_exponent: i32,
    exact: bool,
    suffix: Option<Suffix>,
) -> Parts<Suffix> {
    Parts { present, sign, mantissa, exponent, last_digit_exponent, explicit_exponent, exact, suffix }
}

fn to_f32(p: &Parts<Suffix>) -> Assembled<f32> {
    match p.to_float(BinaryFormat::binary32()) {
        Assembled::Exact(b) => Assembled::Exact(f32::from_bits(b as u32)),
        Assembled::Rounded(b) => Assembled::Rounded(f32::from_bits(b as u32)),
        Assembled::Infinity(b) => Assembled::Infinity(f32::from_bits(b as u32)),
    }
}

fn to_f64(p: &Parts<Suffix>) -> Assembled<f64> {
    match p.to_float(BinaryFormat::binary64()) {
        Assembled::Exact(b) => Assembled::Exact(f64::from_bits(b)),
        Assembled::Rounded(b) => Assembled::Rounded(f64::from_bits(b)),
        Assembled::Infinity(b) => Assembled::Infinity(f64::from_bits(b)),
    }
}

#[test]
fn spec_examples() {
    let (prefix, whole, point, fraction, exponent, suffix) = (
        PartFlags::prefix(),
        PartFlags::whole(),
        PartFlags::point(),
        PartFlags::fraction(),
        PartFlags::exponent(),
        PartFlags::type_suffix(),
    );

    assert_eq!(
        parse("0x123*"),
        Ok((parts(flags(&[prefix, whole]), 1, 0x123, 0, 0, 0, true, None), "*"))
    );
    assert_eq!(
        parse("0xa.fp+2 "),
        Ok((
            parts(flags(&[prefix, whole, point, fraction, exponent]), 1, 0xaf, -4, -4, 2, true, None),
            " "
        ))
    );
    assert_eq!(
        parse("0x1P+4f "),
        Ok((
            parts(flags(&[prefix, whole, exponent, suffix]), 1, 0x1, 0, 0, 4, true, Some(Suffix::F32)),
            " "
        ))
    );
    assert_eq!(
        parse("0X.3."),
        Ok((parts(flags(&[prefix, point, fraction]), 1, 0x3, -4, -4, 0, true, None), "."))
    );
    assert_eq!(
        parse("0x3p+2h0"),
        Ok((
            parts(flags(&[prefix, whole, exponent, suffix]), 1, 0x3, 0, 0, 2, true, Some(Suffix::F16)),
            "0"
        ))
    );
    assert_eq!(
        parse("0X1.fp-4-"),
        Ok((
            parts(flags(&[prefix, whole, point, fraction, exponent]), 1, 0x1f, -4, -4, -4, true, None),
            "-"
        ))
    );
    assert_eq!(
        parse("0x3.2p+2hx"),
        Ok((
            parts(
                flags(&[prefix, whole, point, fraction, exponent, suffix]),
                1,
                0x19,
                -3,
                -4,
                2,
                true,
                Some(Suffix::F16)
            ),
            "x"
        ))
    );
}

#[test]
fn type_suffix() {
    let (prefix, whole, point, fraction, exponent, suffix) = (
        PartFlags::prefix(),
        PartFlags::whole(),
        PartFlags::point(),
        PartFlags::fraction(),
        PartFlags::exponent(),
        PartFlags::type_suffix(),
    );

    assert_eq!(
        parse("0x1.0f "), // hex digit, suffix
        Ok((parts(flags(&[prefix, whole, point, fraction]), 1, 0x10f, -8, -8, 0, true, None), " "))
    );
    assert_eq!(
        parse("0x1.0h "), // no exponent, suffix not parsed
        Ok((parts(flags(&[prefix, whole, point, fraction]), 1, 0x1, 0, -4, 0, true, None), "h "))
    );
    assert_eq!(
        parse("0x1h"), // no exponent, suffix not parsed
        Ok((parts(flags(&[prefix, whole]), 1, 0x1, 0, 0, 0, true, None), "h"))
    );
    assert_eq!(
        parse("0x1uf"),
        Ok((parts(flags(&[prefix, whole, suffix]), 1, 0x1, 0, 0, 0, true, Some(Suffix::U32)), "f"))
    );
    assert_eq!(
        parse("0x1.0u"), // fraction present, integer suffix not parsed
        Ok((parts(flags(&[prefix, whole, point, fraction]), 1, 0x1, 0, -4, 0, true, None), "u"))
    );
    assert_eq!(
        parse("0x1p4u"), // exponent present, integer suffix not parsed
        Ok((parts(flags(&[prefix, whole, exponent]), 1, 0x1, 0, 0, 4, true, None), "u"))
    );
}

#[test]
fn exponent_overflow() {
    let present = flags(&[PartFlags::prefix(), PartFlags::whole(), PartFlags::exponent()]);
    assert_eq!(
        parse("0x1p2147483647"),
        Ok((parts(present, 1, 0x1, 0, 0, 2147483647, true, None), ""))
    );
    assert_eq!(parse("0x1p2147483648"), Err(Error::ExponentOverflow));
    assert_eq!(
        parse("0x1p-2147483648"),
        Ok((parts(present, 1, 0x1, 0, 0, -2147483648, true, None), ""))
    );
    assert_eq!(parse("0x1p-2147483649"), Err(Error::ExponentOverflow));
}

#[test]
fn errors() {
    assert_eq!(parse("0"), Err(Error::MissingPrefix));
    assert_eq!(parse("0x.p0"), Err(Error::MissingWholeAndFraction));
    assert_eq!(parse("0xu"), Err(Error::MissingWhole));
    assert_eq!(parse("0x.p4f"), Err(Error::MissingWholeAndFraction));
    assert_eq!(parse("0x1pa"), Err(Error::ExponentMissingDigits));
    assert_eq!(parse("0x.h"), Err(Error::MissingWholeAndFraction));
}

#[test]
fn crate_doc_examples() {
    let (p, rest) = parse("0x80.8p-5").unwrap();
    assert_eq!(to_f32(&p).get(), 4.015625);
    assert_eq!(rest, "");

    let (p, rest) = parse("-0xc.04p5h and more").unwrap();
    assert_eq!(
        p,
        parts(PartFlags::all(), -1, 0xc04 >> 2, -6, -8, 5, true, Some(Suffix::F16))
    );
    assert_eq!(rest, " and more");
    assert_eq!(to_f64(&p).get(), -384.5);

    let (p, rest) = parse("0x12.345p-678f").unwrap();
    assert_eq!(
        p,
        parts(
            flags(&[
                PartFlags::prefix(),
                PartFlags::whole(),
                PartFlags::point(),
                PartFlags::fraction(),
                PartFlags::exponent(),
                PartFlags::type_suffix(),
            ]),
            1,
            0x12345,
            -12,
            -12,
            -678,
            true,
            Some(Suffix::F32)
        )
    );
    assert_eq!(rest, "");

    let (p, _) = parse("0x20p9").unwrap();
    assert!(matches!(p, Parts { mantissa: 0x1, exponent: 5, last_digit_exponent: 0, explicit_exponent: 9, .. }));
    let (p, _) = parse("0x0.060").unwrap();
    assert!(matches!(p, Parts { mantissa: 0x3, exponent: -7, last_digit_exponent: -12, explicit_exponent: 0, .. }));
}

#[test]
fn allowed_parts_restrict_syntax() {
    // Without the prefix allowed, "0x" stops the whole-number digits.
    let (p, rest) = parse_with_allowed_parts("0x1", PartFlags::whole()).unwrap();
    assert_eq!(p.present, PartFlags::whole());
    assert_eq!((p.mantissa, rest), (0, "x1"));
    // An integer-only parse leaves the point and exponent alone.
    let (p, rest) = parse_with_allowed_parts("0x1f.8p2", int_parts()).unwrap();
    assert_eq!((p.mantissa, p.exponent, rest), (0x1f, 0, ".8p2"));
    // A sign is only read when allowed.
    let (p, rest) = parse_with_allowed_parts("-0x1", int_parts()).unwrap();
    assert_eq!((p.sign, p.present, rest), (1, PartFlags::empty(), "-0x1"));
    assert_eq!(parse("+0x1p0"), Ok((parts(
        flags(&[PartFlags::sign(), PartFlags::prefix(), PartFlags::whole(), PartFlags::exponent()]),
        1, 1, 0, 0, 0, true, None), "")));
}

#[test]
fn long_literals_keep_leading_bits() {
    let (p, rest) = parse("0x123456789abcdef123p0").unwrap();
    assert_eq!(rest, "");
    // 69 significant bits: the last digit falls below the 64 kept.
    assert_eq!((p.mantissa, p.exponent, p.exact), (0x91a2_b3c4_d5e6_f789, 5, false));
    let (p, _) = parse("0x123456789abcdef100p0").unwrap();
    assert_eq!((p.mantissa, p.exponent, p.exact), (0x123456789abcdef1, 8, true));
}
