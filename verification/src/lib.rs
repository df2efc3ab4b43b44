//! Arbitrary-precision integer arithmetic on sign-and-digit values.

pub mod base_conversion;
pub mod bigint;
pub mod count;
pub mod digits;
pub mod error;
pub mod fractions;
pub mod grid;
pub mod laws;
pub mod parallel;
pub mod text;

pub use crate::bigint::LargeInt;
pub use crate::error::ArithmeticError;

use crate::bigint::reversed;
use crate::count::{from_count, to_count};
use crate::digits::{
    digits_value, is_digits, leading_value, lemma_lowest_digit, lemma_pow10_add,
    lemma_pow10_monotonic, lemma_reverse_digits, lemma_reverse_value, lemma_value_bound,
    lemma_value_prepend, lemma_value_single, lemma_value_take_step, lemma_value_zeros, pow10,
    zeros,
};
use crate::grid::{accumulate_row, extend_zeros, is_scaled_row};
use crate::parallel::{
    lemma_grouped_product, parallel_product, partial_products, seq_product, views,
};
use std::cmp::Ordering;
use vstd::arithmetic::div_mod::lemma_fundamental_div_mod_converse;
use vstd::arithmetic::power::{
    lemma_pow0, lemma_pow1, lemma_pow_adds, lemma_pow_multiplies, lemma_square_is_pow2, pow,
};
use vstd::prelude::*;

verus! {

/// The product, by grid multiplication: one partial product per digit of `a`, computed
/// independently of the others, then merged into a buffer of `len(a) + len(b)` digits
/// with carries renormalized.
pub fn multiply(a: &LargeInt, b: &LargeInt) -> (r: LargeInt)
    requires
        a.wf(),
        b.wf(),
    ensures
        r.wf(),
        r@ == a@ * b@,
{
    let rows = partial_products(&a.digits, &b.digits);
    let la = a.digits.len();
    let lb = b.digits.len();
    let mut result: Vec<u8> = Vec::new();
    extend_zeros(&mut result, la);
    extend_zeros(&mut result, lb);
    proof {
        assert(result@ =~= zeros((la + lb) as nat));
        lemma_value_zeros((la + lb) as nat);
        assert(a.digits@.take(0) =~= Seq::<u8>::empty());
        assert(0 * digits_value(b.digits@) == 0);
    }
    let mut i: usize = 0;
    while i < la
        invariant
            i <= la,
            la == a.digits@.len(),
            lb == b.digits@.len(),
            result@.len() == la + lb,
            is_digits(result@),
            is_digits(a.digits@),
            is_digits(b.digits@),
            rows@.len() == la,
            forall|k: int| 0 <= k < la ==> is_scaled_row(#[trigger] rows@[k]@, b.digits@, a.digits@[k]),
            digits_value(result@) == digits_value(a.digits@.take(i as int)) * digits_value(
                b.digits@,
            ),
        decreases la - i,
    {
        proof {
            let bv = digits_value(b.digits@) as int;
            let lo = digits_value(a.digits@.take(i as int)) as int;
            let hi = digits_value(a.digits@.take(i + 1)) as int;
            let d = a.digits@[i as int] as int;
            let p = pow10(i as nat) as int;
            assert(is_scaled_row(rows@[i as int]@, b.digits@, a.digits@[i as int]));
            lemma_value_take_step(a.digits@, i as int);
            assert(is_digits(a.digits@.take(i + 1)));
            lemma_value_bound(a.digits@.take(i + 1));
            lemma_value_bound(b.digits@);
            lemma_pow10_add((i + 1) as nat, lb as nat);
            lemma_pow10_monotonic((i + 1 + lb) as nat, (la + lb) as nat);
            assert(hi * bv == lo * bv + p * (d * bv)) by (nonlinear_arith)
                requires
                    hi == lo + d * p,
            ;
            let ph = pow10((i + 1) as nat) as int;
            let pb = pow10(lb as nat) as int;
            assert(hi * bv < ph * pb) by (nonlinear_arith)
                requires
                    0 <= hi < ph,
                    0 <= bv < pb,
            ;
        }
        accumulate_row(&mut result, &rows[i], i);
        i = i + 1;
    }
    assert(a.digits@.take(la as int) =~= a.digits@);
    let sign: i8 = if a.sign == b.sign {
        1
    } else {
        -1
    };
    let r = LargeInt::new(sign, result);
    proof {
        let x = a.magnitude() as int;
        let y = b.magnitude() as int;
        assert((-x) * (-y) == x * y) by (nonlinear_arith);
        assert((-x) * y == -(x * y)) by (nonlinear_arith);
        assert(x * (-y) == -(x * y)) by (nonlinear_arith);
    }
    r
}

/// The absolute value.
pub open spec fn abs(x: int) -> nat {
    if x < 0 {
        (-x) as nat
    } else {
        x as nat
    }
}

/// The quotient that `divide_and_modulo` gives: the quotient of the magnitudes, negative
/// when exactly one operand is negative.
pub open spec fn quotient(a: int, b: int) -> int {
    if (a < 0) == (b < 0) {
        (abs(a) / abs(b)) as int
    } else {
        -((abs(a) / abs(b)) as int)
    }
}

/// The remainder that `divide_and_modulo` gives: the remainder of the magnitudes, never
/// negative.
pub open spec fn remainder(a: int, b: int) -> int {
    (abs(a) % abs(b)) as int
}

/// Takes the magnitude of `b` from `rest` as often as it fits, and counts how often.
fn count_subtractions(rest: LargeInt, b: &LargeInt) -> (r: (LargeInt, u8))
    requires
        rest.wf(),
        b.wf(),
        rest.sign == 1,
        b.magnitude() > 0,
        rest.magnitude() < 10 * b.magnitude(),
    ensures
        r.0.wf(),
        r.0.sign == 1,
        r.0.magnitude() < b.magnitude(),
        r.0.magnitude() + r.1 * b.magnitude() == rest.magnitude(),
        r.1 < 10,
{
    let ghost start = rest.magnitude();
    let mut remainder = rest;
    let mut count: u8 = 0;
    assert(0 * b.magnitude() == 0);
    while !matches!(remainder.compare_abs(b), Ordering::Less)
        invariant
            remainder.wf(),
            b.wf(),
            remainder.sign == 1,
            b.magnitude() > 0,
            start < 10 * b.magnitude(),
            count < 10,
            remainder.magnitude() + count * b.magnitude() == start,
        decreases remainder.magnitude(),
    {
        proof {
            let m = b.magnitude();
            let x = remainder.magnitude();
            assert(count < 9) by (nonlinear_arith)
                requires
                    x + count * m == start,
                    start < 10 * m,
                    x >= m,
                    m > 0,
            ;
            assert((count + 1) * m == count * m + m) by (nonlinear_arith);
        }
        remainder = remainder.subtract_same_sign(b);
        count = count + 1;
    }
    (remainder, count)
}

/// Quotient and remainder together, by long division: the digits of `a` are brought down
/// one at a time from the most significant end, and each quotient digit is the number of
/// times the magnitude of `b` can be taken from the running remainder. Division by zero
/// is an error.
pub fn divide_and_modulo(a: &LargeInt, b: &LargeInt) -> (r: Result<
    (LargeInt, LargeInt),
    ArithmeticError,
>)
    requires
        a.wf(),
        b.wf(),
    ensures
        b@ == 0 <==> r is Err,
        r matches Err(e) ==> e == ArithmeticError::DivisionByZero,
        r matches Ok((q, m)) ==> q.wf() && m.wf() && q@ == quotient(a@, b@) && m@ == remainder(
            a@,
            b@,
        ),
{
    if b.is_zero() {
        return Err(ArithmeticError::DivisionByZero);
    }
    proof {
        b.lemma_zero_digits();
    }
    let mut quotient: Vec<u8> = Vec::new();
    let mut remainder = LargeInt::zero();
    let mut i: usize = a.digits.len();
    proof {
        assert(a.digits@.skip(i as int) =~= Seq::<u8>::empty());
        let m = b.magnitude() as int;
        assert(0int % m == 0 && 0int / m == 0) by (nonlinear_arith)
            requires
                m > 0,
        ;
    }
    while i > 0
        invariant
            a.wf(),
            b.wf(),
            b.magnitude() > 0,
            i <= a.digits@.len(),
            remainder.wf(),
            remainder.sign == 1,
            is_digits(quotient@),
            remainder.magnitude() == digits_value(a.digits@.skip(i as int)) % b.magnitude(),
            leading_value(quotient@) == digits_value(a.digits@.skip(i as int)) / b.magnitude(),
        decreases i,
    {
        i = i - 1;
        let digit = a.digits[i];
        let ghost high = digits_value(a.digits@.skip(i + 1)) as int;
        let ghost m = b.magnitude() as int;
        let ghost before = remainder.digits@;
        let LargeInt { sign: _, digits: mut shifted } = remainder;
        shifted.insert(0, digit);
        proof {
            assert(shifted@ =~= seq![digit] + before);
            lemma_value_prepend(digit, before);
            assert(a.digits@.skip(i as int) =~= seq![digit] + a.digits@.skip(i + 1));
            lemma_value_prepend(digit, a.digits@.skip(i + 1));
            assert(high == m * (high / m) + high % m) by (nonlinear_arith)
                requires
                    m > 0,
            ;
            assert(0 <= high % m < m) by (nonlinear_arith)
                requires
                    m > 0,
            ;
        }
        let (rest, count) = count_subtractions(LargeInt::new(1, shifted), b);
        proof {
            let x = digit + 10 * high;
            let q = 10 * (high / m) + count;
            let s = rest.magnitude() as int;
            assert(x == q * m + s) by (nonlinear_arith)
                requires
                    x == digit + 10 * high,
                    high == m * (high / m) + high % m,
                    s + count * m == digit + 10 * (high % m),
                    q == 10 * (high / m) + count,
            ;
            lemma_fundamental_div_mod_converse(x, m, q, s);
            assert(quotient@.push(count).drop_last() =~= quotient@);
        }
        remainder = rest;
        quotient.push(count);
    }
    assert(a.digits@.skip(0) =~= a.digits@);
    let digits = reversed(&quotient);
    proof {
        lemma_reverse_value(quotient@);
        lemma_reverse_digits(quotient@);
        a.lemma_zero_digits();
    }
    let sign: i8 = if a.sign == b.sign {
        1
    } else {
        -1
    };
    Ok((LargeInt::new(sign, digits), remainder))
}

/// One squaring step of binary exponentiation.
proof fn lemma_pow_halves(b: int, e: nat)
    requires
        e > 0,
    ensures
        e % 2 == 1 ==> pow(b, e) == b * pow(b * b, e / 2),
        e % 2 == 0 ==> pow(b, e) == pow(b * b, e / 2),
{
    let h = e / 2;
    lemma_square_is_pow2(b);
    lemma_pow_multiplies(b, 2, h);
    assert(pow(b * b, h) == pow(b, 2 * h));
    if e % 2 == 1 {
        assert(e == 1 + 2 * h);
        lemma_pow_adds(b, 1, 2 * h);
        lemma_pow1(b);
    } else {
        assert(e == 2 * h);
    }
}

/// `base` to the power `exp`, by binary exponentiation: the exponent is halved with
/// `divide_and_modulo` until it is zero, the base is squared at each step, and the
/// steps at which the exponent is odd multiply the base into the result. The exponent
/// must not be negative.
pub fn exponentiate(base: &LargeInt, exp: &LargeInt) -> (r: LargeInt)
    requires
        base.wf(),
        exp.wf(),
        exp@ >= 0,
    ensures
        r.wf(),
        r@ == pow(base@, exp@ as nat),
{
    if exp.is_zero() {
        proof {
            lemma_pow0(base@);
        }
        return LargeInt::one();
    }
    let ghost goal = pow(base@, exp@ as nat);
    let mut result = LargeInt::one();
    let mut base = base.clone();
    let mut exp = exp.clone();
    let two_digits: Vec<u8> = vec![2];
    proof {
        assert(two_digits@ =~= seq![2u8]);
        lemma_value_single(2u8);
        assert(1 * goal == goal);
    }
    let two = LargeInt::new(1, two_digits);
    while !exp.is_zero()
        invariant
            base.wf(),
            exp.wf(),
            result.wf(),
            two.wf(),
            two@ == 2,
            exp@ >= 0,
            result@ * pow(base@, exp@ as nat) == goal,
        decreases exp@,
    {
        let ghost b = base@;
        let ghost e = exp@ as nat;
        let ghost acc = result@;
        proof {
            lemma_lowest_digit(exp.digits@);
            lemma_pow_halves(b, e);
            assert((e % 10) % 2 == e % 2) by (nonlinear_arith);
        }
        if exp.digits[0] % 2 == 1 {
            result = multiply(&result, &base);
            proof {
                assert((acc * b) * pow(b * b, e / 2) == acc * (b * pow(b * b, e / 2)))
                    by (nonlinear_arith);
            }
        }
        base = multiply(&base, &base);
        exp = divide_and_modulo(&exp, &two).unwrap().0;
    }
    proof {
        lemma_pow0(base@);
        assert(result@ * 1 == result@);
    }
    result
}

/// `n!`.
pub open spec fn factorial_of(n: nat) -> nat
    decreases n,
{
    if n == 0 {
        1
    } else {
        n * factorial_of((n - 1) as nat)
    }
}

/// The integers `1, 2, ..., n`.
pub open spec fn count_up(n: nat) -> Seq<int> {
    Seq::new(n, |i: int| i + 1)
}

/// The product of `1, 2, ..., n` is `n!`.
pub proof fn lemma_count_up_product(n: nat)
    ensures
        seq_product(count_up(n)) == factorial_of(n),
    decreases n,
{
    if n > 0 {
        assert(count_up(n).drop_last() =~= count_up((n - 1) as nat));
        lemma_count_up_product((n - 1) as nat);
        let f = factorial_of((n - 1) as nat) as int;
        assert(f * n == n * f) by (nonlinear_arith);
    }
}

/// The factorial of `n`: the values `1, 2, ..., n` are built and then combined by a
/// parallel reduction over `multiply`. A negative `n` is an error, and so is one that
/// does not fit a machine-sized count.
pub fn factorial(n: &LargeInt) -> (r: Result<LargeInt, ArithmeticError>)
    requires
        n.wf(),
    ensures
        match r {
            Ok(f) => 0 <= n@ <= usize::MAX && f.wf() && f@ == factorial_of(n@ as nat),
            Err(ArithmeticError::NegativeFactorial) => n@ < 0,
            Err(ArithmeticError::CountOverflow) => n@ > usize::MAX,
            Err(ArithmeticError::DivisionByZero) => false,
        },
{
    proof {
        n.lemma_zero_digits();
    }
    if n.is_zero() {
        return Ok(LargeInt::one());
    }
    if n.sign == -1 {
        return Err(ArithmeticError::NegativeFactorial);
    }
    let count = match to_count(n) {
        Some(c) => c,
        None => {
            return Err(ArithmeticError::CountOverflow);
        },
    };
    let mut range: Vec<LargeInt> = Vec::new();
    let mut x: usize = 0;
    while x < count
        invariant
            x <= count,
            range@.len() == x,
            forall|k: int| 0 <= k < x ==> (#[trigger] range@[k]).wf() && range@[k]@ == k + 1,
        decreases count - x,
    {
        x = x + 1;
        range.push(from_count(x as u64));
    }
    let product = parallel_product(&range);
    proof {
        lemma_grouped_product(product@, views(range@));
        assert(views(range@) =~= count_up(count as nat));
        lemma_count_up_product(count as nat);
    }
    Ok(product)
}

} // verus!
