use largeint::base_conversion::{convert_base, decimal_to_base, to_decimal};

#[test]
fn test_convert_base() {
    assert_eq!(convert_base("1010", 2, 10).unwrap(), "10");
    assert_eq!(convert_base("10", 10, 2).unwrap(), "1010");
    assert_eq!(convert_base("ff", 16, 2).unwrap(), "11111111");
    assert_eq!(convert_base("z", 36, 10).unwrap(), "35");
    assert!(convert_base("1010", 2, 37).is_err());
}

#[test]
fn test_to_decimal() {
    assert_eq!(to_decimal("1010", 2).unwrap(), 10);
    assert_eq!(to_decimal("a", 16).unwrap(), 10);
    assert!(to_decimal("1010", 37).is_err());
}

#[test]
fn base_errors_name_the_cause() {
    assert_eq!(convert_base("1", 1, 10).unwrap_err(), "Base must be between 2 and 36");
    assert_eq!(convert_base("1", 10, 37).unwrap_err(), "Base must be between 2 and 36");
    assert_eq!(convert_base("1", 10, 0).unwrap_err(), "Base must be between 2 and 36");
    assert_eq!(convert_base("12", 2, 10).unwrap_err(), "Invalid number for the given base");
    assert_eq!(to_decimal("1", 1).unwrap_err(), "Base must be between 2 and 36");
    assert_eq!(to_decimal("g", 16).unwrap_err(), "Invalid number for the given base");
}

#[test]
fn numerals_that_cannot_be_read() {
    assert!(to_decimal("", 10).is_err());
    assert!(to_decimal("+", 10).is_err());
    assert!(to_decimal("-", 10).is_err());
    assert!(to_decimal("-5", 10).is_err());
    assert!(to_decimal("++5", 10).is_err());
    assert!(to_decimal(" 5", 10).is_err());
    assert!(to_decimal("5_000", 10).is_err());
    assert!(to_decimal("\u{0665}", 10).is_err());
    assert!(to_decimal("340282366920938463463374607431768211456", 10).is_err());
}

#[test]
fn numerals_that_can_be_read() {
    assert_eq!(to_decimal("+5", 10).unwrap(), 5);
    assert_eq!(to_decimal("0007", 8).unwrap(), 7);
    assert_eq!(to_decimal("Ff", 16).unwrap(), 255);
    assert_eq!(to_decimal("Zz", 36).unwrap(), 35 * 36 + 35);
    assert_eq!(
        to_decimal("340282366920938463463374607431768211455", 10).unwrap(),
        u128::MAX
    );
    assert_eq!(
        to_decimal("0000000000340282366920938463463374607431768211455", 10).unwrap(),
        u128::MAX
    );
}

#[test]
fn decimal_to_base_writes_lower_case() {
    assert_eq!(decimal_to_base(0, 2), "0");
    assert_eq!(decimal_to_base(255, 16), "ff");
    assert_eq!(decimal_to_base(35, 36), "z");
    assert_eq!(decimal_to_base(36, 36), "10");
    assert_eq!(decimal_to_base(5, 2), "101");
    assert_eq!(decimal_to_base(u128::MAX, 16), "ffffffffffffffffffffffffffffffff");
}

#[test]
fn convert_base_round_trip() {
    let text = convert_base("123456789", 10, 7).unwrap();
    assert_eq!(text, "3026236221");
    assert_eq!(convert_base(&text, 7, 10).unwrap(), "123456789");
    assert_eq!(convert_base("+0", 10, 36).unwrap(), "0");
}
