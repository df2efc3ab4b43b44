//! Conversions between `LargeInt` and machine-sized counts.

use crate::bigint::LargeInt;
use crate::digits::{
    digits_value, is_digits, lemma_carry_step, lemma_suffix_at_most, lemma_value_prepend,
    lemma_value_push, pow10,
};
use vstd::prelude::*;

verus! {

/// The magnitude of `n` as a machine-sized count, or `None` where it does not fit one.
pub fn to_count(n: &LargeInt) -> (r: Option<usize>)
    requires
        n.wf(),
    ensures
        r == (if n.magnitude() <= usize::MAX {
            Some(n.magnitude() as usize)
        } else {
            None
        }),
{
    let mut acc: usize = 0;
    let mut i: usize = n.digits.len();
    assert(n.digits@.skip(i as int) =~= Seq::<u8>::empty());
    while i > 0
        invariant
            i <= n.digits@.len(),
            is_digits(n.digits@),
            acc == digits_value(n.digits@.skip(i as int)),
        decreases i,
    {
        i = i - 1;
        let digit = n.digits[i];
        proof {
            assert(n.digits@.skip(i as int) =~= seq![digit] + n.digits@.skip(i + 1));
            lemma_value_prepend(digit, n.digits@.skip(i + 1));
            lemma_suffix_at_most(n.digits@, i as int);
        }
        let scaled = match acc.checked_mul(10) {
            Some(v) => v,
            None => {
                return None;
            },
        };
        acc = match scaled.checked_add(digit as usize) {
            Some(v) => v,
            None => {
                return None;
            },
        };
    }
    assert(n.digits@.skip(0) =~= n.digits@);
    Some(acc)
}

/// The value `x`.
pub fn from_count(x: u64) -> (r: LargeInt)
    ensures
        r.wf(),
        r@ == x,
{
    let mut digits: Vec<u8> = Vec::new();
    let mut rest: u64 = x;
    assert(rest * pow10(0) == x) by {
        assert(pow10(0) == 1);
        assert(rest * 1 == rest);
    }
    while rest > 0
        invariant
            is_digits(digits@),
            digits_value(digits@) + rest * pow10(digits@.len()) == x,
        decreases rest,
    {
        let d: u8 = (rest % 10) as u8;
        proof {
            lemma_value_push(digits@, d);
            let p = pow10(digits@.len()) as int;
            lemma_carry_step(rest as int, p);
        }
        digits.push(d);
        rest = rest / 10;
    }
    assert(0 * pow10(digits@.len()) == 0);
    LargeInt::new(1, digits)
}

} // verus!
