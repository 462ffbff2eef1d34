use transaction_processor::Balance;

#[test]
fn display_correctly() {
    assert_eq!(Balance(1u8.into()).render(), "0.0001");
    assert_eq!(Balance(0u8.into()).render(), "0.0000");
    assert_eq!(Balance(10000u32.into()).render(), "1.0000");
    assert_eq!(Balance(100001u32.into()).render(), "10.0001");
}

#[test]
fn parse_correctly() {
    assert!(Balance::from_str("not a number").is_err());
    assert!(Balance::from_str("  1.100001.  ").is_err());
    assert_eq!(Balance::from_str("  1.100001  ").unwrap().0, 11000u32.into());
    assert_eq!(Balance::from_str("  1.1  ").unwrap().0, 11000u32.into());
    assert_eq!(Balance::from_str("  1. ").unwrap().0, 10000u32.into());
    assert_eq!(Balance::from_str("  1 ").unwrap().0, 10000u32.into());
    assert_eq!(Balance::from_str("  0 ").unwrap().0, 0u32.into());
    assert_eq!(Balance::from_str("  10 ").unwrap().0, 100000u32.into());
}

#[test]
fn parse_rejects_malformed_text() {
    assert!(Balance::from_str("1.1.1").is_err());
    assert!(Balance::from_str("abc").is_err());
    assert!(Balance::from_str("1,5").is_err());
    assert!(Balance::from_str("-1").is_err());
    assert!(Balance::from_str("+1").is_err());
    assert!(Balance::from_str("").is_err());
    assert!(Balance::from_str("   ").is_err());
    assert!(Balance::from_str(".5").is_err());
    assert!(Balance::from_str(".").is_err());
    assert!(Balance::from_str("1.2e3").is_err());
}

#[test]
fn parse_then_render_is_canonical() {
    assert_eq!(Balance::from_str("1").unwrap().render(), "1.0000");
    assert_eq!(Balance::from_str("1.1").unwrap().render(), "1.1000");
    assert_eq!(Balance::from_str("1.100001").unwrap().render(), "1.1000");
    assert_eq!(Balance::from_str("0").unwrap().render(), "0.0000");
    assert_eq!(Balance::from_str("12.34567").unwrap().render(), "12.3456");
}

#[test]
fn render_then_parse_round_trips() {
    for units in [0u128, 1, 9999, 10000, 10001, 123456789, u128::MAX] {
        let b = Balance(units);
        assert_eq!(Balance::from_str(&b.render()).unwrap(), b);
    }
}

#[test]
fn parse_rejects_values_beyond_width() {
    // one more than the largest representable amount
    assert!(Balance::from_str("34028236692093846346337460743176822").is_err());
    assert_eq!(
        Balance::from_str("34028236692093846346337460743176821.1455")
            .unwrap()
            .0,
        u128::MAX
    );
}

#[test]
fn checked_arithmetic_is_exact() {
    let a = Balance(15000);
    let b = Balance(20000);
    assert_eq!(a.checked_add(&b), Some(Balance(35000)));
    assert_eq!(b.checked_sub(&a), Some(Balance(5000)));
    assert_eq!(a.checked_sub(&b), None);
    assert_eq!(Balance(u128::MAX).checked_add(&Balance(1)), None);
    assert_eq!(Balance(u128::MAX).checked_add(&Balance(0)), Some(Balance(u128::MAX)));
}
