use seasonal::numeric::parse_decimal;

#[test]
fn decimal_forms() {
    assert_eq!(parse_decimal("0"), Some(0));
    assert_eq!(parse_decimal("42"), Some(42_000_000));
    assert_eq!(parse_decimal("-1.2345678"), Some(-1_234_567));
    assert_eq!(parse_decimal("+.5"), Some(500_000));
    assert_eq!(parse_decimal("7."), Some(7_000_000));
    assert_eq!(parse_decimal("9223372036854.775807"), Some(i64::MAX));
    assert_eq!(parse_decimal("-9223372036854.775808"), Some(i64::MIN));
}

#[test]
fn decimal_rejections() {
    assert_eq!(parse_decimal(""), None);
    assert_eq!(parse_decimal("."), None);
    assert_eq!(parse_decimal("-"), None);
    assert_eq!(parse_decimal("1e3"), None);
    assert_eq!(parse_decimal("1.2.3"), None);
    assert_eq!(parse_decimal(" 1"), None);
    assert_eq!(parse_decimal("9223372036854.775808"), None);
    assert_eq!(parse_decimal("123456789012345678901234567890"), None);
}
