//! Fractions of machine integers, kept in lowest terms with a positive denominator.

use crate::abs;
use crate::bigint::LargeInt;
use crate::count::from_count;
use crate::text::decimal_text;
use std::ops::{Add, Div, Mul, Sub};
use vstd::arithmetic::div_mod::{
    lemma_fundamental_div_mod, lemma_mod_multiples_basic, lemma_mod_self_0, lemma_small_mod,
    lemma_truncate_middle,
};
use vstd::arithmetic::power::pow;
use vstd::prelude::*;
use vstd::std_specs::ops::{AddSpecImpl, DivSpecImpl, MulSpecImpl, SubSpecImpl};
use vstd::string::StringExecFns;

verus! {

/// The greatest common divisor, by Euclid's recursion; `gcd(0, 0)` is `0`.
pub open spec fn gcd(a: nat, b: nat) -> nat
    decreases b,
{
    if b == 0 {
        a
    } else {
        gcd(b, a % b)
    }
}

/// The greatest common divisor divides both numbers.
pub proof fn lemma_gcd_divides(a: nat, b: nat)
    requires
        a > 0 || b > 0,
    ensures
        gcd(a, b) > 0,
        a % gcd(a, b) == 0,
        b % gcd(a, b) == 0,
    decreases b,
{
    if b == 0 {
        lemma_mod_self_0(a as int);
        lemma_small_mod(0, a);
    } else {
        let r = a % b;
        lemma_gcd_divides(b, r);
        let g = gcd(b, r) as int;
        lemma_fundamental_div_mod(a as int, b as int);
        lemma_fundamental_div_mod(b as int, g);
        lemma_fundamental_div_mod(r as int, g);
        let kb = b as int / g;
        let kr = r as int / g;
        let q = a as int / b as int;
        assert(a == (kb * q + kr) * g) by (nonlinear_arith)
            requires
                a == b * q + r,
                b == g * kb,
                r == g * kr,
        ;
        lemma_mod_multiples_basic(kb * q + kr, g);
    }
}

/// A common factor can be taken out of the greatest common divisor.
pub proof fn lemma_gcd_scales(k: nat, a: nat, b: nat)
    requires
        k > 0,
    ensures
        gcd(k * a, k * b) == k * gcd(a, b),
    decreases b,
{
    if b == 0 {
        assert(k * b == 0);
    } else {
        lemma_truncate_middle(a as int, k as int, b as int);
        lemma_gcd_scales(k, b, a % b);
    }
}

/// Two numbers divided by their greatest common divisor have no common divisor left.
pub proof fn lemma_gcd_quotients_coprime(a: nat, b: nat)
    requires
        a > 0 || b > 0,
    ensures
        gcd(a / gcd(a, b), b / gcd(a, b)) == 1,
{
    let g = gcd(a, b);
    lemma_gcd_divides(a, b);
    lemma_fundamental_div_mod(a as int, g as int);
    lemma_fundamental_div_mod(b as int, g as int);
    let x = a / g;
    let y = b / g;
    lemma_gcd_scales(g, x, y);
    let c = gcd(x, y) as int;
    assert(c == 1) by (nonlinear_arith)
        requires
            g as int == g * c,
            g > 0,
    ;
}

/// The greatest common divisor of two numbers that are not negative.
///
/// Calls `num::integer::gcd`, which for `i64` is Stein's algorithm. The contract claims
/// that what it returns is the greatest common divisor in the mathematical sense.
#[verifier::external_body]
fn greatest_common_divisor(a: i64, b: i64) -> (g: i64)
    requires
        a >= 0,
        b >= 0,
    ensures
        g == gcd(a as nat, b as nat),
{
    num::integer::gcd(a, b)
}

/// `i64::pow` of the standard library: the base raised to the exponent. It overflows
/// where the power does not fit, which the precondition rules out.
pub assume_specification[ i64::pow ](base: i64, exp: u32) -> (r: i64)
    requires
        i64::MIN <= pow(base as int, exp as nat) <= i64::MAX,
    ensures
        r == pow(base as int, exp as nat),
;

/// Within the range that can be negated.
pub open spec fn fits(x: int) -> bool {
    i64::MIN < x <= i64::MAX
}

/// The quotient rounded toward zero, for a positive divisor.
pub open spec fn trunc_div(a: int, b: int) -> int {
    if a >= 0 {
        a / b
    } else {
        -((-a) / b)
    }
}

/// What is left after `trunc_div`; it has the sign of `a`.
pub open spec fn trunc_rem(a: int, b: int) -> int {
    if a >= 0 {
        a % b
    } else {
        -((-a) % b)
    }
}

/// A fraction of two machine integers.
#[derive(Debug, PartialEq, Eq)]
pub struct Fraction {
    pub numerator: i64,
    pub denominator: i64,
}

impl Clone for Fraction {
    /// A copy with the same numerator and denominator.
    fn clone(&self) -> (r: Self)
        ensures
            r == *self,
    {
        Fraction { numerator: self.numerator, denominator: self.denominator }
    }
}

impl Fraction {
    /// The invariant of a normalized fraction: a positive denominator, and a numerator
    /// that can be negated.
    pub open spec fn wf(&self) -> bool {
        &&& self.denominator > 0
        &&& self.numerator > i64::MIN
    }

    /// In lowest terms.
    pub open spec fn is_reduced(&self) -> bool {
        gcd(abs(self.numerator as int), abs(self.denominator as int)) == 1
    }

    /// The fraction `n / d` in lowest terms with a positive denominator.
    pub open spec fn normal_form(n: int, d: int) -> Fraction {
        let g = gcd(abs(n), abs(d)) as int;
        let magnitude = abs(n) as int / g;
        Fraction {
            numerator: (if (n < 0) != (d < 0) {
                -magnitude
            } else {
                magnitude
            }) as i64,
            denominator: (abs(d) as int / g) as i64,
        }
    }

    /// The normal form of a fraction of machine integers is well formed, in lowest
    /// terms, and the same rational number.
    pub proof fn lemma_normal_form(n: int, d: int)
        requires
            fits(n),
            fits(d),
            d != 0,
        ensures
            Fraction::normal_form(n, d).wf(),
            Fraction::normal_form(n, d).is_reduced(),
            Fraction::normal_form(n, d).numerator * d == n * Fraction::normal_form(
                n,
                d,
            ).denominator,
            abs(Fraction::normal_form(n, d).numerator as int) <= abs(n),
            Fraction::normal_form(n, d).denominator <= abs(d),
            n == 0 <==> Fraction::normal_form(n, d).numerator == 0,
    {
        let a = abs(n);
        let b = abs(d);
        let g = gcd(a, b) as int;
        lemma_gcd_divides(a, b);
        lemma_gcd_quotients_coprime(a, b);
        lemma_fundamental_div_mod(a as int, g);
        lemma_fundamental_div_mod(b as int, g);
        let x = a as int / g;
        let y = b as int / g;
        assert(0 <= x <= a && 0 < y <= b) by (nonlinear_arith)
            requires
                a == g * x,
                b == g * y,
                g > 0,
                a >= 0,
                b > 0,
        ;
        assert(x * b == a * y) by (nonlinear_arith)
            requires
                a == g * x,
                b == g * y,
        ;
        assert((-x) * b == -(x * b) && x * (-b) == -(x * b) && (-x) * (-b) == x * b
            && (-a) * y == -(a * y)) by (nonlinear_arith);
        assert(a == 0 <==> x == 0) by (nonlinear_arith)
            requires
                a == g * x,
                g > 0,
        ;
    }

    /// The fraction `numerator / denominator`, in lowest terms and with a positive
    /// denominator. The denominator must not be zero, and neither number the least
    /// machine integer.
    pub fn new(numerator: i64, denominator: i64) -> (r: Self)
        requires
            denominator != 0,
            fits(numerator as int),
            fits(denominator as int),
        ensures
            r == Fraction::normal_form(numerator as int, denominator as int),
            r.wf(),
            r.is_reduced(),
    {
        let sign: i64 = if denominator < 0 {
            -1
        } else {
            1
        };
        let numerator_abs: i64 = if numerator < 0 {
            -numerator
        } else {
            numerator
        };
        let denominator_abs: i64 = if denominator < 0 {
            -denominator
        } else {
            denominator
        };
        let gcd = greatest_common_divisor(numerator_abs, denominator_abs);
        proof {
            let a = abs(numerator as int);
            let b = abs(denominator as int);
            Fraction::lemma_normal_form(numerator as int, denominator as int);
            lemma_gcd_divides(a, b);
            lemma_fundamental_div_mod(a as int, gcd as int);
            let x = a as int / gcd as int;
            assert(0 <= x <= a) by (nonlinear_arith)
                requires
                    a == gcd * x,
                    gcd > 0,
                    a >= 0,
            ;
        }
        Fraction { numerator: numerator / gcd * sign, denominator: denominator_abs / gcd }
    }

    /// The whole part, rounded toward zero, and what is left as a fraction of its own.
    pub fn to_mixed(&self) -> (r: (i64, Fraction))
        requires
            self.wf(),
        ensures
            r.0 == trunc_div(self.numerator as int, self.denominator as int),
            r.1 == Fraction::normal_form(
                trunc_rem(self.numerator as int, self.denominator as int),
                self.denominator as int,
            ),
            r.1.wf(),
    {
        let whole_part = self.numerator / self.denominator;
        let remainder = self.numerator % self.denominator;
        proof {
            let a = abs(self.numerator as int) as int;
            let d = self.denominator as int;
            vstd::arithmetic::div_mod::lemma_mod_division_less_than_divisor(a, d);
        }
        (whole_part, Fraction::new(remainder, self.denominator))
    }

    /// The fraction turned upside down. There is none for zero.
    pub fn reciprocal(&self) -> (r: Self)
        requires
            self.wf(),
            self.numerator != 0,
        ensures
            r == Fraction::normal_form(self.denominator as int, self.numerator as int),
            r.wf(),
            r.is_reduced(),
            r.numerator != 0,
    {
        proof {
            Fraction::lemma_normal_form(self.denominator as int, self.numerator as int);
        }
        Fraction::new(self.denominator, self.numerator)
    }

    /// Whether numerator and denominator can be raised to `e` without overflow.
    pub open spec fn can_raise(&self, e: nat) -> bool {
        &&& fits(pow(self.numerator as int, e))
        &&& fits(pow(self.denominator as int, e))
        &&& pow(self.denominator as int, e) != 0
    }

    /// Numerator and denominator raised to `e`, in lowest terms.
    pub open spec fn raised(&self, e: nat) -> Fraction {
        Fraction::normal_form(pow(self.numerator as int, e), pow(self.denominator as int, e))
    }

    /// What `exponentiate` needs of its arguments: an exponent within the machine's
    /// range of exponents, either way; powers that fit; and, where the exponent is
    /// negative, a fraction other than zero, whose reciprocal is then the one raised.
    pub open spec fn can_exponentiate(&self, exp: i64) -> bool {
        &&& self.wf()
        &&& -(u32::MAX as int) <= exp <= u32::MAX
        &&& exp > 0 ==> self.can_raise(exp as nat)
        &&& exp < 0 ==> self.numerator != 0 && Fraction::normal_form(
            self.denominator as int,
            self.numerator as int,
        ).can_raise((-exp) as nat)
    }

    /// The fraction raised to `exp`; for a negative `exp`, its reciprocal raised to `-exp`.
    pub open spec fn power(&self, exp: i64) -> Fraction {
        if exp == 0 {
            Fraction::normal_form(1, 1)
        } else if exp > 0 {
            self.raised(exp as nat)
        } else {
            Fraction::normal_form(self.denominator as int, self.numerator as int).raised(
                (-exp) as nat,
            )
        }
    }

    /// The fraction raised to `exp`: numerator and denominator are raised separately, and
    /// a negative exponent raises the reciprocal.
    pub fn exponentiate(&self, exp: i64) -> (r: Self)
        requires
            self.can_exponentiate(exp),
        ensures
            r == self.power(exp),
            r.wf(),
        decreases
            (if exp < 0 {
                1nat
            } else {
                0nat
            }),
    {
        if exp == 0 {
            return Fraction::new(1, 1);
        }
        let base = if exp > 0 {
            Fraction::new(self.numerator.pow(exp as u32), self.denominator.pow(exp as u32))
        } else {
            self.reciprocal().exponentiate(-exp)
        };
        base
    }

    /// Whether the magnitude is below one.
    pub fn is_proper(&self) -> (r: bool)
        requires
            self.wf(),
        ensures
            r == (abs(self.numerator as int) < abs(self.denominator as int)),
    {
        let n = if self.numerator < 0 {
            -self.numerator
        } else {
            self.numerator
        };
        n < self.denominator
    }

    /// How the fraction is written: `n/d` where it is proper, else the whole part alone
    /// where nothing is left, else the whole part, a space, and what is left without its
    /// sign.
    pub open spec fn text(&self) -> Seq<char> {
        let n = self.numerator as int;
        let d = self.denominator as int;
        if abs(n) < abs(d) {
            decimal_text(n) + seq!['/'] + decimal_text(d)
        } else {
            let rest = Fraction::normal_form(trunc_rem(n, d), d);
            if rest.numerator == 0 {
                decimal_text(trunc_div(n, d))
            } else {
                decimal_text(trunc_div(n, d)) + seq![' '] + decimal_text(
                    abs(rest.numerator as int) as int,
                ) + seq!['/'] + decimal_text(rest.denominator as int)
            }
        }
    }

    /// Writes the fraction, as a proper fraction or as a mixed number.
    pub fn to_string(&self) -> (r: String)
        requires
            self.wf(),
        ensures
            r@ == self.text(),
    {
        let mut out = String::new();
        if self.is_proper() {
            push_integer(&mut out, self.numerator);
            out.push('/');
            push_integer(&mut out, self.denominator);
        } else {
            let (whole, remainder) = self.to_mixed();
            proof {
                let n = self.numerator as int;
                let d = self.denominator as int;
                assert(abs(trunc_div(n, d)) <= abs(n)) by (nonlinear_arith)
                    requires
                        d > 0,
                ;
            }
            push_integer(&mut out, whole);
            if remainder.numerator != 0 {
                let rest = if remainder.numerator < 0 {
                    -remainder.numerator
                } else {
                    remainder.numerator
                };
                out.push(' ');
                push_integer(&mut out, rest);
                out.push('/');
                push_integer(&mut out, remainder.denominator);
            }
        }
        assert(out@ =~= self.text());
        out
    }
}

/// Appends the decimal text of `x`.
fn push_integer(out: &mut String, x: i64)
    requires
        fits(x as int),
    ensures
        final(out)@ == old(out)@ + decimal_text(x as int),
{
    let magnitude: u64 = if x < 0 {
        (-x) as u64
    } else {
        x as u64
    };
    let plain = from_count(magnitude);
    let value = if x < 0 {
        LargeInt::new(-1, plain.digits)
    } else {
        plain
    };
    let text = value.to_string();
    out.append(text.as_str());
}

impl AddSpecImpl for Fraction {
    open spec fn obeys_add_spec() -> bool {
        true
    }

    open spec fn add_req(self, other: Fraction) -> bool {
        &&& self.wf()
        &&& other.wf()
        &&& fits(self.numerator * other.denominator)
        &&& fits(other.numerator * self.denominator)
        &&& fits(self.numerator * other.denominator + other.numerator * self.denominator)
        &&& fits(self.denominator * other.denominator)
    }

    open spec fn add_spec(self, other: Fraction) -> Fraction {
        Fraction::normal_form(
            self.numerator * other.denominator + other.numerator * self.denominator,
            self.denominator * other.denominator,
        )
    }
}

impl Add for Fraction {
    type Output = Fraction;

    /// The sum, over the product of the denominators, in lowest terms.
    fn add(self, other: Fraction) -> (r: Fraction) {
        proof {
            lemma_positive_product(self.denominator as int, other.denominator as int);
        }
        let numerator = self.numerator * other.denominator + other.numerator * self.denominator;
        let denominator = self.denominator * other.denominator;
        Fraction::new(numerator, denominator)
    }
}

impl SubSpecImpl for Fraction {
    open spec fn obeys_sub_spec() -> bool {
        true
    }

    open spec fn sub_req(self, other: Fraction) -> bool {
        &&& self.wf()
        &&& other.wf()
        &&& fits(self.numerator * other.denominator)
        &&& fits(other.numerator * self.denominator)
        &&& fits(self.numerator * other.denominator - other.numerator * self.denominator)
        &&& fits(self.denominator * other.denominator)
    }

    open spec fn sub_spec(self, other: Fraction) -> Fraction {
        Fraction::normal_form(
            self.numerator * other.denominator - other.numerator * self.denominator,
            self.denominator * other.denominator,
        )
    }
}

impl Sub for Fraction {
    type Output = Fraction;

    /// The difference, over the product of the denominators, in lowest terms.
    fn sub(self, other: Fraction) -> (r: Fraction) {
        proof {
            lemma_positive_product(self.denominator as int, other.denominator as int);
        }
        let numerator = self.numerator * other.denominator - other.numerator * self.denominator;
        let denominator = self.denominator * other.denominator;
        Fraction::new(numerator, denominator)
    }
}

/// Whether the product of two fractions can be formed without overflow.
pub open spec fn can_multiply(a: Fraction, b: Fraction) -> bool {
    &&& a.wf()
    &&& b.wf()
    &&& fits(a.numerator * b.numerator)
    &&& fits(a.denominator * b.denominator)
}

/// The product of two fractions, in lowest terms.
pub open spec fn product(a: Fraction, b: Fraction) -> Fraction {
    Fraction::normal_form(a.numerator * b.numerator, a.denominator * b.denominator)
}

impl MulSpecImpl for Fraction {
    open spec fn obeys_mul_spec() -> bool {
        true
    }

    open spec fn mul_req(self, other: Fraction) -> bool {
        can_multiply(self, other)
    }

    open spec fn mul_spec(self, other: Fraction) -> Fraction {
        product(self, other)
    }
}

impl Mul for Fraction {
    type Output = Fraction;

    /// The product, in lowest terms.
    fn mul(self, other: Fraction) -> (r: Fraction) {
        proof {
            lemma_positive_product(self.denominator as int, other.denominator as int);
        }
        let numerator = self.numerator * other.numerator;
        let denominator = self.denominator * other.denominator;
        Fraction::new(numerator, denominator)
    }
}

impl DivSpecImpl for Fraction {
    open spec fn obeys_div_spec() -> bool {
        true
    }

    open spec fn div_req(self, other: Fraction) -> bool {
        &&& self.wf()
        &&& other.wf()
        &&& other.numerator != 0
        &&& can_multiply(
            self,
            Fraction::normal_form(other.denominator as int, other.numerator as int),
        )
    }

    open spec fn div_spec(self, other: Fraction) -> Fraction {
        product(self, Fraction::normal_form(other.denominator as int, other.numerator as int))
    }
}

impl Div for Fraction {
    type Output = Fraction;

    /// The quotient: the product with the reciprocal.
    fn div(self, other: Fraction) -> (r: Fraction) {
        self * other.reciprocal()
    }
}

/// A product of positive numbers is positive.
proof fn lemma_positive_product(x: int, y: int)
    requires
        x > 0,
        y > 0,
    ensures
        x * y > 0,
{
    assert(x * y > 0) by (nonlinear_arith)
        requires
            x > 0,
            y > 0,
    ;
}

} // verus!
