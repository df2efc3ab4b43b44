use largeint::fractions::Fraction;

#[test]
fn test_fraction_creation() {
    let frac = Fraction::new(6, 8);
    assert_eq!(frac, Fraction::new(3, 4));
}

#[test]
fn test_mixed_fraction() {
    let frac = Fraction::new(7, 3);
    assert_eq!(frac.to_mixed(), (2, Fraction::new(1, 3)));
}

#[test]
fn test_exponentiation_positive() {
    let frac = Fraction::new(2, 3);
    assert_eq!(frac.exponentiate(2), Fraction::new(4, 9));
}

#[test]
fn test_exponentiation_negative() {
    let frac = Fraction::new(2, 3);
    assert_eq!(frac.exponentiate(-2), Fraction::new(9, 4));
}

#[test]
fn fractions_test_addition() {
    let a = Fraction::new(1, 2);
    let b = Fraction::new(1, 3);
    assert_eq!(a + b, Fraction::new(5, 6));
}

#[test]
fn test_multiplication() {
    let a = Fraction::new(2, 3);
    let b = Fraction::new(3, 4);
    assert_eq!(a * b, Fraction::new(1, 2));
}

#[test]
fn test_display_mixed() {
    let frac = Fraction::new(7, 3);
    assert_eq!(frac.to_string(), "2 1/3");
}

#[test]
fn new_reduces_and_moves_the_sign_up() {
    let f = Fraction::new(6, -8);
    assert_eq!(f.numerator, -3);
    assert_eq!(f.denominator, 4);
    let f = Fraction::new(-6, -8);
    assert_eq!(f.numerator, 3);
    assert_eq!(f.denominator, 4);
    let f = Fraction::new(0, -5);
    assert_eq!(f.numerator, 0);
    assert_eq!(f.denominator, 1);
    let f = Fraction::new(1071, 462);
    assert_eq!(f.numerator, 51);
    assert_eq!(f.denominator, 22);
}

#[test]
fn to_mixed_rounds_toward_zero() {
    let f = Fraction::new(-7, 3);
    let (whole, rest) = f.to_mixed();
    assert_eq!(whole, -2);
    assert_eq!(rest, Fraction::new(-1, 3));
    let (whole, rest) = Fraction::new(6, 3).to_mixed();
    assert_eq!(whole, 2);
    assert_eq!(rest, Fraction::new(0, 1));
}

#[test]
fn reciprocal_swaps() {
    assert_eq!(Fraction::new(2, 3).reciprocal(), Fraction::new(3, 2));
    let r = Fraction::new(-2, 3).reciprocal();
    assert_eq!(r.numerator, -3);
    assert_eq!(r.denominator, 2);
}

#[test]
fn exponentiate_zero_and_negative_base() {
    assert_eq!(Fraction::new(5, 7).exponentiate(0), Fraction::new(1, 1));
    assert_eq!(Fraction::new(-2, 3).exponentiate(3), Fraction::new(-8, 27));
    assert_eq!(Fraction::new(-2, 3).exponentiate(-3), Fraction::new(-27, 8));
    assert_eq!(Fraction::new(0, 3).exponentiate(4), Fraction::new(0, 1));
}

#[test]
fn is_proper_compares_magnitudes() {
    assert!(Fraction::new(1, 2).is_proper());
    assert!(Fraction::new(-1, 2).is_proper());
    assert!(!Fraction::new(2, 2).is_proper());
    assert!(!Fraction::new(-3, 2).is_proper());
    assert!(Fraction::new(0, 9).is_proper());
}

#[test]
fn subtraction_and_division() {
    assert_eq!(Fraction::new(1, 2) - Fraction::new(1, 3), Fraction::new(1, 6));
    assert_eq!(Fraction::new(1, 3) - Fraction::new(1, 2), Fraction::new(-1, 6));
    assert_eq!(Fraction::new(1, 2) / Fraction::new(3, 4), Fraction::new(2, 3));
    assert_eq!(Fraction::new(1, 2) / Fraction::new(-3, 4), Fraction::new(-2, 3));
}

#[test]
fn to_string_forms() {
    assert_eq!(Fraction::new(3, 4).to_string(), "3/4");
    assert_eq!(Fraction::new(-3, 4).to_string(), "-3/4");
    assert_eq!(Fraction::new(0, 4).to_string(), "0/1");
    assert_eq!(Fraction::new(8, 4).to_string(), "2");
    assert_eq!(Fraction::new(-7, 3).to_string(), "-2 1/3");
    assert_eq!(Fraction::new(1, 1).to_string(), "1");
    assert_eq!(Fraction::new(i64::MAX, 2).to_string(), "4611686018427387903 1/2");
}

#[test]
fn clone_is_equal() {
    let f = Fraction::new(-5, 9);
    assert_eq!(f.clone(), f);
}
