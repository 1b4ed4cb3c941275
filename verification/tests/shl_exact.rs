use hex_float::shl_exact;

#[test]
fn zero() {
    assert_eq!(shl_exact(0, 0), Some(0));
    assert_eq!(shl_exact(0, 63), Some(0));
    assert_eq!(shl_exact(0, 64), Some(0));
    assert_eq!(shl_exact(0, 1000), Some(0));
}

#[test]
fn one() {
    assert_eq!(shl_exact(1, 0), Some(1));
    assert_eq!(shl_exact(1, 4), Some(16));
    assert_eq!(shl_exact(1, 63), Some(1 << 63));
    assert_eq!(shl_exact(1, 64), None);
    assert_eq!(shl_exact(1, 1000), None);
}

#[test]
fn large() {
    assert_eq!(shl_exact(1 << 63, 0), Some(1 << 63));
    assert_eq!(shl_exact(1 << 63, 1), None);
    assert_eq!(shl_exact(15 << 60, 0), Some(15 << 60));
    assert_eq!(shl_exact(15 << 60, 1), None);
    assert_eq!(shl_exact(15 << 60, 4), None);
}
