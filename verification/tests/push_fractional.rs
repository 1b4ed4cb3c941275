use hex_float::{PartFlags, Parts};

type P = Parts<()>;

fn fraction_parts(mantissa: u64, exponent: i32, last_digit_exponent: i32, exact: bool) -> P {
    P {
        present: PartFlags::fraction(),
        sign: 1,
        mantissa,
        exponent,
        last_digit_exponent,
        explicit_exponent: 0,
        exact,
        suffix: None,
    }
}

#[test]
fn consume_fractional_digits() {
    let mut f = P::new();
    assert_eq!(f.consume_fractional_digits("fp+2"), "p+2");
    assert_eq!(
        f,
        P {
            present: PartFlags::fraction(),
            sign: 1,
            mantissa: 0xf,
            exponent: -4,
            last_digit_exponent: -4,
            explicit_exponent: 0,
            exact: true,
            suffix: None,
        }
    );
}

#[test]
fn push_fractional_from_str() {
    assert_eq!(P::from_fractional_str(""), Ok(P::new()));
    assert_eq!(P::from_fractional_str("0"), Ok(fraction_parts(0, 0, -4, true)));
    assert_eq!(P::from_fractional_str("00"), Ok(fraction_parts(0, 0, -8, true)));
    assert_eq!(
        P::from_fractional_str("0000000000000000000000000000000000000000"),
        Ok(fraction_parts(0, 0, 40 * -4, true))
    );
    assert_eq!(
        P::from_fractional_str("00000000000000000000000000000000000000001"),
        Ok(fraction_parts(1, 41 * -4, 41 * -4, true))
    );
    assert_eq!(
        P::from_fractional_str("0000000000000000f"),
        Ok(fraction_parts(0xf, (16 + 1) * -4, (16 + 1) * -4, true))
    );
    assert_eq!(
        P::from_fractional_str("0000000000000000f000000000000000"),
        Ok(fraction_parts(0xf, (16 + 1) * -4, (16 + 1 + 15) * -4, true))
    );
    assert_eq!(
        P::from_fractional_str("0000000000000000f000000000000001"),
        Ok(fraction_parts(
            0xf000000000000001,
            (16 + 1 + 14 + 1) * -4,
            (16 + 1 + 14 + 1) * -4,
            true
        ))
    );
    assert_eq!(
        P::from_fractional_str("0000000000000000f0000000000000001"),
        Ok(fraction_parts(0xf, (16 + 1) * -4, (16 + 1 + 15 + 1) * -4, false))
    );
    assert_eq!(
        P::from_fractional_str("0000000000000000000012300000000000000000000"),
        Ok(fraction_parts(0x123, (20 + 3) * -4, (20 + 3 + 20) * -4, true))
    );
    assert_eq!(
        P::from_fractional_str("3000000000000000c"),
        Ok(fraction_parts(0xc000000000000003, 16 * -4 - 2, (16 + 1) * -4, true))
    );
}

#[test]
fn push_fractional_with_exponent() {
    let plain = |mantissa: u64, exponent: i32, last_digit_exponent: i32| P {
        present: PartFlags::empty(),
        sign: 1,
        mantissa,
        exponent,
        last_digit_exponent,
        explicit_exponent: 0,
        exact: true,
        suffix: None,
    };
    assert_eq!(P::with_exponent(0, 0), plain(0, 0, 0));
    assert_eq!(P::with_exponent(0x1, -20), plain(0x1, -20, -20));
    assert_eq!(P::with_exponent(0x100, -20), plain(0x1, -12, -20));
    assert_eq!(
        P::with_exponent(0x1000000000000001, -64),
        plain(0x1000000000000001, -64, -64)
    );
    assert_eq!(
        P::with_exponent(0x1000000010000000, -64),
        plain(0x100000001, -64 + 7 * 4, -64)
    );
}
