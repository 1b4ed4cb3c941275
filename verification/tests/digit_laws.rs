use hex_float::{BinaryFormat, Fraction, PartFlags, Parts, Whole};

type P = Parts<()>;

fn hex_value(c: char) -> u32 {
    c.to_digit(16).unwrap()
}

#[test]
fn zero_fractional_digit_far_below_the_mantissa() {
    // The mantissa sits at `2**i32::MAX`; a zero digit after the point only
    // moves the last digit's place, however far that is from the mantissa.
    let mut p = P::with_exponent(1, i32::MAX);
    p.push_fractional_digit(0);
    assert_eq!(p.mantissa, 1);
    assert_eq!(p.exponent, i32::MAX);
    assert_eq!(p.last_digit_exponent, -4);
    assert!(p.exact);
    assert_eq!(p.present, PartFlags::empty().union(PartFlags::fraction()));
    assert_eq!(p.consume_fractional_digits("000g"), "g");
    assert_eq!(p.mantissa, 1);
    assert_eq!(p.exponent, i32::MAX);
    assert_eq!(p.last_digit_exponent, -16);
}

#[test]
fn zero_digit_on_any_fraction_moves_only_the_last_place() {
    let mut f = Fraction { mantissa: 6, exponent: 5, last_digit_exponent: 10, exact: false };
    f.push_hex_digit(0);
    assert_eq!(f, Fraction { mantissa: 6, exponent: 5, last_digit_exponent: 6, exact: false });
    let mut g = Fraction { mantissa: 1, exponent: i32::MAX, last_digit_exponent: -4, exact: true };
    g.push_hex_digit(0);
    assert_eq!(g.last_digit_exponent, -8);
    assert_eq!(g.exponent, i32::MAX);
}

#[test]
fn consuming_equals_pushing_each_digit() {
    for digits in ["", "0", "1f", "00a0", "123456789abcdef0123", "fffffffffffffffff8", "8000000000000000f"] {
        let mut consumed = P::with_exponent(0x5, -8);
        assert_eq!(consumed.consume_fractional_digits(digits), "");
        let mut pushed = P::with_exponent(0x5, -8);
        for c in digits.chars() {
            pushed.push_fractional_digit(hex_value(c));
        }
        assert_eq!(consumed, pushed, "fractional {digits}");

        let mut consumed = P::from_whole_str("3").unwrap();
        assert_eq!(consumed.consume_whole_digits(digits), "");
        let mut pushed = P::from_whole_str("3").unwrap();
        for c in digits.chars() {
            pushed.push_whole_digit(hex_value(c));
        }
        assert_eq!(consumed, pushed, "whole {digits}");
    }
}

#[test]
fn parts_and_accumulators_read_strings_alike() {
    for digits in ["", "0", "1f", "0010", "123456789abcdef11", "0000000000000000f000000000000001"] {
        let p = P::from_fractional_str(digits).unwrap();
        let f = Fraction::from_str(digits).unwrap();
        assert_eq!(
            (p.mantissa, p.exponent, p.last_digit_exponent, p.exact),
            (f.mantissa, f.exponent, f.last_digit_exponent, f.exact)
        );
        let p = P::from_whole_str(digits).unwrap();
        let w = Whole::from_str(digits).unwrap();
        assert_eq!((p.mantissa, p.exponent as u32, p.exact), (w.mantissa, w.exponent, w.exact));
    }
    assert!(P::from_fractional_str("1x").is_err() && Fraction::from_str("1x").is_err());
    assert!(P::from_whole_str("1x").is_err() && Whole::from_str("1x").is_err());
}

#[test]
fn whole_reads_back_formatted_values() {
    for v in [0u64, 1, 0x10, 0xabc0, 0x8000_0000_0000_0000, u64::MAX, 0x0123_4567_89ab_cdef] {
        assert_eq!(Whole::from_str(&format!("{:x}", v)), Ok(Whole::new(v)));
        assert_eq!(Whole::from_str(&format!("{:X}", v)), Ok(Whole::new(v)));
    }
}

#[test]
fn fraction_stays_below_one() {
    let mut f = Fraction::with_exponent(0xff, -8);
    for _ in 0..40 {
        f.push_hex_digit(0xf);
        assert!(f.exponent < 0);
        assert!(f.mantissa == 0 || (f.exponent > -64 && f.mantissa < 1u64 << (-f.exponent)) || f.exponent <= -64);
    }
}

#[test]
fn exact_normal_results_have_the_parts_value() {
    for (m, e, x) in [(3u64, -2, 0.75f64), (1, 0, 1.0), (0x1f, 4, 496.0), ((1 << 52) + 1, -52, 1.0 + f64::EPSILON)] {
        let p = P::with_exponent(m, e);
        let bits = p.to_float(BinaryFormat::binary64()).get();
        assert_eq!(f64::from_bits(bits), x);
    }
}
