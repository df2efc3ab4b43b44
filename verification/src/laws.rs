//! Laws of the arithmetic, stated over the integers that the values denote.
//!
//! Every operation of this crate returns a well-formed value and says which integer
//! it denotes, and a well-formed value is determined by that integer, digit for digit
//! (`LargeInt::lemma_view_determines`). So a law about the integers is a law about the
//! values that the operations return.

use crate::bigint::LargeInt;
use crate::text::{decimal_text, lemma_text_of_value, text_value};
use crate::{abs, quotient, remainder};
use vstd::arithmetic::div_mod::lemma_fundamental_div_mod;
use vstd::arithmetic::power::{lemma_pow0, lemma_pow1, pow};
use vstd::prelude::*;

verus! {

/// Writing what was parsed and parsing it again changes nothing: for every text, the
/// text that `to_string` gives for `parse` of it denotes the same integer.
pub proof fn lemma_write_then_parse(text: Seq<char>)
    ensures
        text_value(decimal_text(text_value(text))) == text_value(text),
{
    lemma_text_of_value(text_value(text));
}

/// Addition commutes: `a.add(&b)` and `b.add(&a)` denote the same integer.
pub proof fn lemma_add_commutes(a: LargeInt, b: LargeInt)
    requires
        a.wf(),
        b.wf(),
    ensures
        a@ + b@ == b@ + a@,
{
}

/// A value and its negation cancel: `zero().subtract(&a)` denotes `0 - a`, and adding
/// that to `a` denotes zero.
pub proof fn lemma_add_negation(a: LargeInt)
    requires
        a.wf(),
    ensures
        a@ + (0 - a@) == 0,
{
}

/// Multiplication associates: `multiply(a, multiply(b, c))` and
/// `multiply(multiply(a, b), c)` denote the same integer.
pub proof fn lemma_multiply_associates(a: LargeInt, b: LargeInt, c: LargeInt)
    requires
        a.wf(),
        b.wf(),
        c.wf(),
    ensures
        a@ * (b@ * c@) == (a@ * b@) * c@,
{
    assert(a@ * (b@ * c@) == (a@ * b@) * c@) by (nonlinear_arith);
}

/// The division identity: quotient times divisor plus remainder gives the dividend
/// back, exactly where the dividend is not negative or the remainder is zero. The
/// remainder of `divide_and_modulo` is never negative, so for a negative dividend
/// that leaves a remainder the sum misses the dividend by twice the remainder.
pub proof fn lemma_division_identity(a: LargeInt, b: LargeInt)
    requires
        a.wf(),
        b.wf(),
        b@ != 0,
    ensures
        (a@ >= 0 || remainder(a@, b@) == 0) ==> quotient(a@, b@) * b@ + remainder(a@, b@)
            == a@,
        (a@ < 0 && remainder(a@, b@) != 0) ==> quotient(a@, b@) * b@ + remainder(a@, b@) == a@
            + 2 * remainder(a@, b@),
{
    let x = abs(a@) as int;
    let y = abs(b@) as int;
    let q = x / y;
    lemma_fundamental_div_mod(x, y);
    assert(q * y == y * q && (-q) * y == -(y * q) && q * (-y) == -(y * q) && (-q) * (-y) == y
        * q) by (nonlinear_arith);
}

/// The exponents zero and one: `exponentiate(x, zero)` denotes one, and
/// `exponentiate(x, one)` denotes what `x` denotes.
pub proof fn lemma_exponent_zero_and_one(x: LargeInt)
    requires
        x.wf(),
    ensures
        pow(x@, 0) == 1,
        pow(x@, 1) == x@,
{
    lemma_pow0(x@);
    lemma_pow1(x@);
}

} // verus!
