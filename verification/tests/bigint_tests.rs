use largeint::{divide_and_modulo, exponentiate, factorial, multiply, ArithmeticError, LargeInt};
use std::cmp::Ordering;

#[test]
fn bigint_test_addition() {
    let a = LargeInt::parse("123");
    let b = LargeInt::parse("456");
    assert_eq!(a.add(&b).to_string(), "579");

    let a = LargeInt::parse("-123");
    let b = LargeInt::parse("456");
    assert_eq!(a.add(&b).to_string(), "333");
}

#[test]
fn test_subtraction() {
    let a = LargeInt::parse("456");
    let b = LargeInt::parse("123");
    assert_eq!(a.subtract(&b).to_string(), "333");

    let a = LargeInt::parse("123");
    let b = LargeInt::parse("456");
    assert_eq!(a.subtract(&b).to_string(), "-333");
}

#[test]
fn test_large_numbers() {
    let a = LargeInt::parse("12345678901234567890");
    let b = LargeInt::parse("98765432109876543210");
    assert_eq!(a.add(&b).to_string(), "111111111011111111100");
}

#[test]
fn multiply_three_nines() {
    let a = LargeInt::parse("999");
    let b = LargeInt::parse("999");
    assert_eq!(multiply(&a, &b).to_string(), "998001");
}

#[test]
fn multiply_signs_and_zero() {
    let a = LargeInt::parse("-12");
    let b = LargeInt::parse("12");
    assert_eq!(multiply(&a, &b).to_string(), "-144");
    assert_eq!(multiply(&a, &a).to_string(), "144");
    assert_eq!(multiply(&a, &LargeInt::zero()).to_string(), "0");
    assert_eq!(multiply(&LargeInt::zero(), &b).to_string(), "0");
}

#[test]
fn multiply_long_operands() {
    let a = LargeInt::parse("123456789012345678901234567890");
    let b = LargeInt::parse("987654321098765432109876543210");
    assert_eq!(
        multiply(&a, &b).to_string(),
        "121932631137021795226185032733622923332237463801111263526900"
    );
}

#[test]
fn divide_seventeen_by_five() {
    let (q, r) = divide_and_modulo(&LargeInt::parse("17"), &LargeInt::parse("5")).unwrap();
    assert_eq!(q.to_string(), "3");
    assert_eq!(r.to_string(), "2");
}

#[test]
fn divide_by_zero_fails() {
    let r = divide_and_modulo(&LargeInt::parse("17"), &LargeInt::zero());
    assert_eq!(r.err(), Some(ArithmeticError::DivisionByZero));
    let r = divide_and_modulo(&LargeInt::zero(), &LargeInt::parse("-0"));
    assert_eq!(r.err(), Some(ArithmeticError::DivisionByZero));
}

#[test]
fn divide_signs() {
    let (q, r) = divide_and_modulo(&LargeInt::parse("-17"), &LargeInt::parse("5")).unwrap();
    assert_eq!(q.to_string(), "-3");
    assert_eq!(r.to_string(), "2");
    let (q, r) = divide_and_modulo(&LargeInt::parse("17"), &LargeInt::parse("-5")).unwrap();
    assert_eq!(q.to_string(), "-3");
    assert_eq!(r.to_string(), "2");
    let (q, r) = divide_and_modulo(&LargeInt::parse("-17"), &LargeInt::parse("-5")).unwrap();
    assert_eq!(q.to_string(), "3");
    assert_eq!(r.to_string(), "2");
    let (q, r) = divide_and_modulo(&LargeInt::parse("3"), &LargeInt::parse("-5")).unwrap();
    assert_eq!(q.to_string(), "0");
    assert_eq!(r.to_string(), "3");
}

#[test]
fn divide_long_operands() {
    let a = LargeInt::parse("121932631137021795226185032733622923332237463801111263526901");
    let b = LargeInt::parse("987654321098765432109876543210");
    let (q, r) = divide_and_modulo(&a, &b).unwrap();
    assert_eq!(q.to_string(), "123456789012345678901234567890");
    assert_eq!(r.to_string(), "1");
}

#[test]
fn division_identity_on_values() {
    let a = LargeInt::parse("1000000007");
    let b = LargeInt::parse("-12345");
    let (q, r) = divide_and_modulo(&a, &b).unwrap();
    assert_eq!(multiply(&q, &b).add(&r).to_string(), "1000000007");
}

#[test]
fn exponentiate_small_cases() {
    let x = LargeInt::parse("-7");
    assert_eq!(exponentiate(&x, &LargeInt::zero()).to_string(), "1");
    assert_eq!(exponentiate(&x, &LargeInt::one()).to_string(), "-7");
    assert_eq!(exponentiate(&x, &LargeInt::parse("2")).to_string(), "49");
    assert_eq!(exponentiate(&x, &LargeInt::parse("3")).to_string(), "-343");
    assert_eq!(exponentiate(&LargeInt::zero(), &LargeInt::zero()).to_string(), "1");
    assert_eq!(exponentiate(&LargeInt::zero(), &LargeInt::parse("5")).to_string(), "0");
}

#[test]
fn exponentiate_two_to_the_hundred() {
    let r = exponentiate(&LargeInt::parse("2"), &LargeInt::parse("100"));
    assert_eq!(r.to_string(), "1267650600228229401496703205376");
}

#[test]
fn factorial_of_five() {
    assert_eq!(factorial(&LargeInt::parse("5")).unwrap().to_string(), "120");
}

#[test]
fn factorial_edge_cases() {
    assert_eq!(factorial(&LargeInt::zero()).unwrap().to_string(), "1");
    assert_eq!(factorial(&LargeInt::one()).unwrap().to_string(), "1");
    assert_eq!(
        factorial(&LargeInt::parse("25")).unwrap().to_string(),
        "15511210043330985984000000"
    );
}

#[test]
fn factorial_of_negative_fails() {
    let r = factorial(&LargeInt::parse("-3"));
    assert_eq!(r.err(), Some(ArithmeticError::NegativeFactorial));
}

#[test]
fn factorial_of_oversized_count_fails() {
    let r = factorial(&LargeInt::parse("99999999999999999999999999999999999999999"));
    assert_eq!(r.err(), Some(ArithmeticError::CountOverflow));
}

#[test]
fn parse_is_lenient() {
    assert_eq!(LargeInt::parse("").to_string(), "0");
    assert_eq!(LargeInt::parse("abc").to_string(), "0");
    assert_eq!(LargeInt::parse("-").to_string(), "0");
    assert_eq!(LargeInt::parse("-0").to_string(), "0");
    assert_eq!(LargeInt::parse("  -12x3 ").to_string(), "-123");
    assert_eq!(LargeInt::parse("1-2").to_string(), "12");
    assert_eq!(LargeInt::parse("000123").to_string(), "123");
    assert_eq!(LargeInt::parse("\u{00a0}\t-5").to_string(), "-5");
    assert_eq!(LargeInt::parse("+-5").to_string(), "5");
}

#[test]
fn parse_and_format_round_trip() {
    for s in ["0", "7", "-7", "10", "1000000000000000000000", "-98765432100123456789"] {
        assert_eq!(LargeInt::parse(s).to_string(), s);
    }
}

#[test]
fn new_normalizes() {
    let x = LargeInt::new(-1, vec![0, 0, 0]);
    assert_eq!(x.sign, 1);
    assert_eq!(x.digits, vec![0]);
    let x = LargeInt::new(-1, vec![3, 2, 1, 0, 0]);
    assert_eq!(x.sign, -1);
    assert_eq!(x.digits, vec![3, 2, 1]);
    assert_eq!(x.to_string(), "-123");
    let x = LargeInt::new(1, vec![]);
    assert_eq!(x.digits, vec![0]);
    assert!(x.is_zero());
}

#[test]
fn zero_and_one() {
    assert!(LargeInt::zero().is_zero());
    assert!(!LargeInt::one().is_zero());
    assert_eq!(LargeInt::zero().to_string(), "0");
    assert_eq!(LargeInt::one().to_string(), "1");
}

#[test]
fn compare_abs_orders_by_magnitude() {
    let a = LargeInt::parse("-1000");
    let b = LargeInt::parse("999");
    assert_eq!(a.compare_abs(&b), Ordering::Greater);
    assert_eq!(b.compare_abs(&a), Ordering::Less);
    assert_eq!(a.compare_abs(&LargeInt::parse("1000")), Ordering::Equal);
    assert_eq!(LargeInt::parse("1234").compare_abs(&LargeInt::parse("1243")), Ordering::Less);
    assert_eq!(LargeInt::parse("2234").compare_abs(&LargeInt::parse("1999")), Ordering::Greater);
}

#[test]
fn pad_equal_lengths_extends_the_shorter() {
    let a = LargeInt::parse("12345");
    let b = LargeInt::parse("67");
    let (x, y) = LargeInt::pad_equal_lengths(&a, &b);
    assert_eq!(x, vec![5, 4, 3, 2, 1]);
    assert_eq!(y, vec![7, 6, 0, 0, 0]);
    assert_eq!(a.digits, vec![5, 4, 3, 2, 1]);
    assert_eq!(b.digits, vec![7, 6]);
}

#[test]
fn add_same_sign_carries() {
    let a = LargeInt::parse("999");
    let b = LargeInt::parse("1");
    assert_eq!(a.add_same_sign(&b).to_string(), "1000");
    let a = LargeInt::parse("-999");
    let b = LargeInt::parse("-1");
    assert_eq!(a.add_same_sign(&b).to_string(), "-1000");
}

#[test]
fn subtract_same_sign_borrows() {
    let a = LargeInt::parse("1000");
    let b = LargeInt::parse("1");
    assert_eq!(a.subtract_same_sign(&b).to_string(), "999");
    assert_eq!(a.subtract_same_sign(&a).to_string(), "0");
    let a = LargeInt::parse("-1000");
    assert_eq!(a.subtract_same_sign(&b).to_string(), "-999");
}

#[test]
fn subtract_abs_of_positive_operands() {
    let a = LargeInt::parse("3");
    let b = LargeInt::parse("10");
    assert_eq!(a.subtract_abs(&b).to_string(), "-7");
    assert_eq!(b.subtract_abs(&a).to_string(), "7");
    let r = a.subtract_abs(&a);
    assert_eq!(r.sign, 1);
    assert_eq!(r.digits, vec![0]);
}

#[test]
fn subtract_abs_of_negative_operands() {
    let a = LargeInt::parse("-5");
    let b = LargeInt::parse("-3");
    assert_eq!(a.subtract_abs(&b).to_string(), "-2");
    assert_eq!(b.subtract_abs(&a).to_string(), "2");
    let r = a.subtract_abs(&a);
    assert_eq!(r.sign, 1);
    assert_eq!(r.digits, vec![0]);
    let a = LargeInt::parse("-1000");
    let b = LargeInt::parse("-1");
    assert_eq!(a.subtract_abs(&b).to_string(), "-999");
    assert_eq!(b.subtract_abs(&a).to_string(), "999");
}

#[test]
fn subtract_abs_of_mixed_signs_keeps_or_negates_the_operand_sign() {
    let a = LargeInt::parse("123");
    let b = LargeInt::parse("-456");
    assert_eq!(a.subtract_abs(&b).to_string(), "333");
    assert_eq!(b.subtract_abs(&a).to_string(), "-333");
    let c = LargeInt::parse("-123");
    let d = LargeInt::parse("456");
    assert_eq!(c.subtract_abs(&d).to_string(), "-333");
    assert_eq!(d.subtract_abs(&c).to_string(), "333");
    assert_eq!(a.subtract_abs(&c).to_string(), "0");
}

#[test]
fn subtract_of_negative_operands() {
    let a = LargeInt::parse("-5");
    let b = LargeInt::parse("-3");
    assert_eq!(a.subtract(&b).to_string(), "-2");
    assert_eq!(b.subtract(&a).to_string(), "2");
    assert_eq!(a.add(&b).to_string(), "-8");
}

#[test]
fn to_string_of_a_negative_zero() {
    let x = LargeInt { sign: -1, digits: vec![0] };
    assert_eq!(x.to_string(), "0");
    assert!(x.is_zero());
    let y = LargeInt { sign: -1, digits: vec![0, 1] };
    assert_eq!(y.to_string(), "-10");
}

#[test]
fn add_and_subtract_cross_signs() {
    let a = LargeInt::parse("123");
    let b = LargeInt::parse("-456");
    assert_eq!(a.add(&b).to_string(), "-333");
    assert_eq!(b.add(&a).to_string(), "-333");
    assert_eq!(a.subtract(&b).to_string(), "579");
    assert_eq!(b.subtract(&a).to_string(), "-579");
    assert_eq!(b.subtract(&b).to_string(), "0");
    assert_eq!(b.add(&b).to_string(), "-912");
}

#[test]
fn add_commutes_and_negation_cancels() {
    let a = LargeInt::parse("-31415926535897932384626");
    let b = LargeInt::parse("27182818284590452353602");
    assert_eq!(a.add(&b).to_string(), b.add(&a).to_string());
    let minus_a = LargeInt::zero().subtract(&a);
    assert_eq!(a.add(&minus_a).to_string(), "0");
}

#[test]
fn multiply_associates() {
    let a = LargeInt::parse("-123456789");
    let b = LargeInt::parse("987654321987");
    let c = LargeInt::parse("55555");
    let left = multiply(&a, &multiply(&b, &c));
    let right = multiply(&multiply(&a, &b), &c);
    assert_eq!(left.to_string(), right.to_string());
    assert_eq!(left.to_string(), "-6773967328231931937322365");
}

#[test]
fn clone_keeps_the_value() {
    let a = LargeInt::parse("-4242");
    let b = a.clone();
    assert_eq!(b.sign, a.sign);
    assert_eq!(b.digits, a.digits);
}

#[test]
fn compare_abs_ignores_the_sign_of_zero() {
    let x = LargeInt { sign: -1, digits: vec![0] };
    assert_eq!(x.compare_abs(&LargeInt::zero()), Ordering::Equal);
    assert_eq!(x.compare_abs(&LargeInt::one()), Ordering::Less);
}
