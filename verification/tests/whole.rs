use hex_float::Whole;

#[test]
fn whole_consume_hex_digits() {
    let mut w = Whole::zero();
    assert_eq!(w.consume_hex_digits("a.fp+2"), ".fp+2");
    assert_eq!(
        w,
        Whole {
            mantissa: 0x5,
            exponent: 1,
            exact: true,
        }
    );
}

#[test]
fn whole_from_str() {
    assert_eq!(Whole::from_str("0"), Ok(Whole { mantissa: 0, exponent: 0, exact: true }));
    assert_eq!(Whole::from_str("00"), Ok(Whole { mantissa: 0, exponent: 0, exact: true }));
    assert_eq!(Whole::from_str("000"), Ok(Whole { mantissa: 0, exponent: 0, exact: true }));

    assert_eq!(Whole::from_str("1"), Ok(Whole { mantissa: 0x1, exponent: 0, exact: true }));
    assert_eq!(Whole::from_str("2"), Ok(Whole { mantissa: 0x1, exponent: 1, exact: true }));
    assert_eq!(Whole::from_str("2f"), Ok(Whole { mantissa: 0x2f, exponent: 0, exact: true }));
    assert_eq!(
        Whole::from_str("38e"),
        Ok(Whole { mantissa: 0x38e >> 1, exponent: 1, exact: true })
    );

    assert_eq!(Whole::from_str("10"), Ok(Whole { mantissa: 0x1, exponent: 4, exact: true }));
    assert_eq!(Whole::from_str("2f00"), Ok(Whole { mantissa: 0x2f, exponent: 8, exact: true }));
    assert_eq!(
        Whole::from_str("38e000"),
        Ok(Whole { mantissa: 0x38e >> 1, exponent: 13, exact: true })
    );

    assert_eq!(Whole::from_str("101"), Ok(Whole { mantissa: 0x101, exponent: 0, exact: true }));
    assert_eq!(
        Whole::from_str("200f"),
        Ok(Whole { mantissa: 0x200f, exponent: 0, exact: true })
    );
    assert_eq!(
        Whole::from_str("38000e"),
        Ok(Whole { mantissa: 0x38000e >> 1, exponent: 1, exact: true })
    );

    assert_eq!(
        Whole::from_str("123456789abcdef1"),
        Ok(Whole { mantissa: 0x123456789abcdef1, exponent: 0, exact: true })
    );
    assert_eq!(
        Whole::from_str("123456789abcdef11"),
        Ok(Whole { mantissa: 0x123456789abcdef1, exponent: 4, exact: false })
    );
    assert_eq!(
        Whole::from_str("123456789abcdef12"),
        Ok(Whole { mantissa: 0x123456789abcdef1 << 3 | 2 >> 1, exponent: 1, exact: true })
    );
    assert_eq!(
        Whole::from_str("123456789abcdef13"),
        Ok(Whole { mantissa: 0x123456789abcdef1 << 3 | 3 >> 1, exponent: 1, exact: false })
    );
    assert_eq!(
        Whole::from_str("123456789abcdef18"),
        Ok(Whole { mantissa: 0x123456789abcdef1 << 1 | 8 >> 3, exponent: 3, exact: true })
    );
    assert_eq!(
        Whole::from_str("123456789abcdef19"),
        Ok(Whole { mantissa: 0x123456789abcdef1 << 1 | 9 >> 3, exponent: 3, exact: false })
    );
    assert_eq!(
        Whole::from_str("1000000000000000"),
        Ok(Whole { mantissa: 0x1, exponent: 15 * 4, exact: true })
    );
    assert_eq!(
        Whole::from_str("10000000000000000"),
        Ok(Whole { mantissa: 0x1, exponent: 16 * 4, exact: true })
    );
    assert_eq!(
        Whole::from_str("10000000000000001"),
        Ok(Whole { mantissa: 0x1, exponent: 16 * 4, exact: false })
    );
    assert_eq!(
        Whole::from_str("100000000000000000000"),
        Ok(Whole { mantissa: 0x1, exponent: 20 * 4, exact: true })
    );
    assert_eq!(
        Whole::from_str("100000000000000000001"),
        Ok(Whole { mantissa: 0x1, exponent: 20 * 4, exact: false })
    );
    assert_eq!(
        Whole::from_str("100000000000000000008"),
        Ok(Whole { mantissa: 0x1, exponent: 20 * 4, exact: false })
    );
}
