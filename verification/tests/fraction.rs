use hex_float::Fraction;

#[test]
fn fraction_consume_hex_digits() {
    let mut f = Fraction::zero();
    assert_eq!(f.consume_hex_digits("fp+2"), "p+2");
    assert_eq!(
        f,
        Fraction {
            mantissa: 0xf,
            exponent: -4,
            last_digit_exponent: -4,
            exact: true,
        }
    );
}

#[test]
fn fraction_from_str() {
    assert_eq!(Fraction::from_str(""), Ok(Fraction::zero()));
    assert_eq!(
        Fraction::from_str("0"),
        Ok(Fraction { mantissa: 0, exponent: 0, last_digit_exponent: -4, exact: true })
    );
    assert_eq!(
        Fraction::from_str("00"),
        Ok(Fraction { mantissa: 0, exponent: 0, last_digit_exponent: -8, exact: true })
    );
    assert_eq!(
        Fraction::from_str("0000000000000000000000000000000000000000"),
        Ok(Fraction { mantissa: 0, exponent: 0, last_digit_exponent: 40 * -4, exact: true })
    );
    assert_eq!(
        Fraction::from_str("00000000000000000000000000000000000000001"),
        Ok(Fraction { mantissa: 1, exponent: 41 * -4, last_digit_exponent: 41 * -4, exact: true })
    );
    assert_eq!(
        Fraction::from_str("0000000000000000f"),
        Ok(Fraction {
            mantissa: 0xf,
            exponent: (16 + 1) * -4,
            last_digit_exponent: (16 + 1) * -4,
            exact: true,
        })
    );
    assert_eq!(
        Fraction::from_str("0000000000000000f000000000000000"),
        Ok(Fraction {
            mantissa: 0xf,
            exponent: (16 + 1) * -4,
            last_digit_exponent: (16 + 1 + 15) * -4,
            exact: true,
        })
    );
    assert_eq!(
        Fraction::from_str("0000000000000000f000000000000001"),
        Ok(Fraction {
            mantissa: 0xf000000000000001,
            exponent: (16 + 1 + 14 + 1) * -4,
            last_digit_exponent: (16 + 1 + 14 + 1) * -4,
            exact: true,
        })
    );
    assert_eq!(
        Fraction::from_str("0000000000000000f0000000000000001"),
        Ok(Fraction {
            mantissa: 0xf,
            exponent: (16 + 1) * -4,
            last_digit_exponent: (16 + 1 + 15 + 1) * -4,
            exact: false,
        })
    );
    assert_eq!(
        Fraction::from_str("0000000000000000000012300000000000000000000"),
        Ok(Fraction {
            mantissa: 0x123,
            exponent: (20 + 3) * -4,
            last_digit_exponent: (20 + 3 + 20) * -4,
            exact: true,
        })
    );
    assert_eq!(
        Fraction::from_str("3000000000000000c"),
        Ok(Fraction {
            mantissa: 0xc000000000000003,
            exponent: 16 * -4 - 2,
            last_digit_exponent: (16 + 1) * -4,
            exact: true,
        })
    );
}

#[test]
fn fraction_with_exponent() {
    assert_eq!(
        Fraction::with_exponent(0, 0),
        Fraction { mantissa: 0, exponent: 0, last_digit_exponent: 0, exact: true }
    );
    assert_eq!(
        Fraction::with_exponent(0, -20),
        Fraction { mantissa: 0, exponent: 0, last_digit_exponent: -20, exact: true }
    );
    assert_eq!(
        Fraction::with_exponent(0x1, -20),
        Fraction { mantissa: 0x1, exponent: -20, last_digit_exponent: -20, exact: true }
    );
    assert_eq!(
        Fraction::with_exponent(0x100, -20),
        Fraction { mantissa: 0x1, exponent: -12, last_digit_exponent: -20, exact: true }
    );
    assert_eq!(
        Fraction::with_exponent(0x1000000000000001, -64),
        Fraction {
            mantissa: 0x1000000000000001,
            exponent: -64,
            last_digit_exponent: -64,
            exact: true,
        }
    );
    assert_eq!(
        Fraction::with_exponent(0x1000000010000000, -64),
        Fraction {
            mantissa: 0x100000001,
            exponent: -64 + 7 * 4,
            last_digit_exponent: -64,
            exact: true,
        }
    );
}
