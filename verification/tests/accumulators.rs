use hex_float::{Assembled, BinaryFormat, DigitError, Fraction, PartFlags, Parts, Whole};

type P = Parts<()>;

#[test]
fn whole_truncation_keeps_only_leading_bits_when_digit_has_trailing_zeros() {
    // 0x323456789abcdef1 has 62 bits; appending `6` (0b0110) needs 66 bits,
    // so the two lowest bits are dropped: `6` becomes `4`.
    assert_eq!(
        Whole::from_str("323456789abcdef16"),
        Ok(Whole { mantissa: 0x323456789abcdef1 << 2 | 1, exponent: 2, exact: false })
    );
    // Dropping only zero bits stays exact.
    assert_eq!(
        Whole::from_str("323456789abcdef14"),
        Ok(Whole { mantissa: 0x323456789abcdef1 << 2 | 1, exponent: 2, exact: true })
    );
}

#[test]
fn whole_push_matches_value_rule() {
    let mut w = Whole::new(0x30);
    assert_eq!(w, Whole { mantissa: 0x3, exponent: 4, exact: true });
    w.push_hex_digit(0xa);
    // 0x30a == 0x185 * 2
    assert_eq!(w, Whole { mantissa: 0x185, exponent: 1, exact: true });
    w.push_hex_digit(0);
    assert_eq!(w, Whole { mantissa: 0x185, exponent: 5, exact: true });
    assert_eq!(Whole::new(0), Whole::zero());
}

#[test]
fn whole_upper_and_lower_case_digits_agree() {
    assert_eq!(Whole::from_str("ABCDEF"), Whole::from_str("abcdef"));
    assert_eq!(Whole::from_str("AbC"), Ok(Whole { mantissa: 0xabc >> 2, exponent: 2, exact: true }));
}

#[test]
fn whole_rejects_non_digits() {
    assert_eq!(Whole::from_str("12g"), Err(DigitError::InvalidDigit));
    assert_eq!(Whole::from_str("é"), Err(DigitError::InvalidDigit));
    assert_eq!(Whole::from_str(""), Ok(Whole::zero()));
    let mut w = Whole::zero();
    assert_eq!(w.consume_hex_digits("1fé2"), "é2");
    assert_eq!(w, Whole { mantissa: 0x1f, exponent: 0, exact: true });
}

#[test]
fn fraction_partial_truncation_places_exponent_at_kept_bits() {
    // "3" then fifteen zeros then "9": the digits' value 0x30000000000000009
    // has 66 bits; keeping 64 turns the final `9` into `8`, which is
    // 0x6000000000000001 * 2**3 in units of the last place.
    assert_eq!(
        Fraction::from_str("30000000000000009"),
        Ok(Fraction {
            mantissa: 0x6000000000000001,
            exponent: 17 * -4 + 3,
            last_digit_exponent: 17 * -4,
            exact: false,
        })
    );
}

#[test]
fn fraction_push_onto_with_exponent() {
    let mut f = Fraction::with_exponent(0x100, -20);
    f.push_hex_digit(0xf);
    assert_eq!(f, Fraction::with_exponent(0x100f, -24));
}

#[test]
fn fraction_rejects_non_digits() {
    assert_eq!(Fraction::from_str("0.1"), Err(DigitError::InvalidDigit));
    let mut f = Fraction::zero();
    assert_eq!(f.consume_hex_digits("xyz"), "xyz");
    assert_eq!(f, Fraction::zero());
}

#[test]
fn parts_doc_examples() {
    // "0x20": trailing zeros go into the exponent.
    let mut p = P::new();
    assert_eq!(p.consume_whole_digits("20"), "");
    assert!(matches!(p, P { mantissa: 0x1, exponent: 5, last_digit_exponent: 0, .. }));

    // "0x0.060"
    let mut p = P::new();
    assert_eq!(p.consume_whole_digits("0.060"), ".060");
    assert_eq!(p.consume_fractional_digits("060"), "");
    assert!(matches!(p, P { mantissa: 0x3, exponent: -7, last_digit_exponent: -12, .. }));
    assert_eq!(p.present, PartFlags::whole().union(PartFlags::fraction()));

    // "0x12.345"
    let mut p = P::new();
    p.consume_whole_digits("12");
    p.consume_fractional_digits("345");
    assert!(matches!(p, P { mantissa: 0x12345, exponent: -12, last_digit_exponent: -12, .. }));

    // Digit by digit: "0xab.cd0"
    let mut p = P::new();
    p.push_whole_digit(0xa);
    p.push_whole_digit(0xb);
    p.push_fractional_digit(0xc);
    p.push_fractional_digit(0xd);
    p.push_fractional_digit(0x0);
    assert!(matches!(p, P { mantissa: 0xabcd, exponent: -8, last_digit_exponent: -12, .. }));
    assert_eq!(
        p.to_float(BinaryFormat::binary32()),
        Assembled::Exact((0xabcd as f32 / 256.0).to_bits() as u64)
    );
}

#[test]
fn parts_with_exponent_then_fractional_digit() {
    let mut f: P = Parts::with_exponent(0x100, -20);
    f.push_fractional_digit(0xf);
    let mut explicit = Parts::with_exponent(0x100f, -24);
    explicit.present = PartFlags::fraction();
    assert_eq!(f, explicit);
}

#[test]
fn parts_with_exponent_saturates() {
    let p: P = Parts::with_exponent(0x4, i32::MAX);
    assert_eq!(p.mantissa, 1);
    assert_eq!(p.exponent, i32::MAX);
    assert!(!p.exact);
    let q: P = Parts::with_exponent(0x4, 7);
    assert_eq!((q.mantissa, q.exponent, q.last_digit_exponent, q.exact), (1, 9, 0, true));
}

#[test]
fn parts_strings_errors_and_flags() {
    assert_eq!(P::from_whole_str("1_0"), Err(DigitError::InvalidDigit));
    assert_eq!(P::from_fractional_str("p"), Err(DigitError::InvalidDigit));
    assert_eq!(P::from_whole_str(""), Ok(P::new()));
    let w = P::from_whole_str("f0").unwrap();
    assert_eq!(w.present, PartFlags::whole());
    assert!(matches!(w, P { mantissa: 0xf, exponent: 4, last_digit_exponent: 0, exact: true, .. }));
    let mut p = P::new();
    assert_eq!(p.consume_whole_digits(".8"), ".8");
    assert_eq!(p.present, PartFlags::empty());
}

#[test]
fn part_flag_operations() {
    let mut f = PartFlags::empty();
    assert_eq!(f.bits(), 0);
    f.insert(PartFlags::prefix());
    f.insert(PartFlags::exponent());
    assert_eq!(f.bits(), 2 | 32);
    assert!(f.contains(PartFlags::prefix()));
    assert!(!f.contains(PartFlags::prefix().union(PartFlags::sign())));
    assert!(f.intersects(PartFlags::prefix().union(PartFlags::sign())));
    assert!(!f.intersects(PartFlags::point()));
    assert_eq!(PartFlags::all().bits(), 127);
    assert!(PartFlags::all().contains(f));
}
