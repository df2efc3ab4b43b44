//! The building blocks of grid multiplication: one partial product per digit of
//! the first factor, and the merge of a partial product into the result buffer.

use crate::digits::{
    digits_value, is_digits, lemma_carry_step, lemma_pow10_add, lemma_value_concat,
    lemma_value_prepend, lemma_value_push, lemma_value_take_step, pow10, zeros,
};
use vstd::prelude::*;

verus! {

/// `row` is the partial product `d * b`, written with exactly one digit more than `b`.
pub open spec fn is_scaled_row(row: Seq<u8>, b: Seq<u8>, d: u8) -> bool {
    &&& is_digits(row)
    &&& row.len() == b.len() + 1
    &&& digits_value(row) == d * digits_value(b)
}

/// Replacing one digit changes the value by the difference at that position.
pub proof fn lemma_value_update(s: Seq<u8>, i: int, x: u8)
    requires
        0 <= i < s.len(),
    ensures
        digits_value(s.update(i, x)) == digits_value(s) - s[i] * pow10(i as nat) + x * pow10(
            i as nat,
        ),
{
    let lo = s.take(i);
    let hi = s.skip(i + 1);
    assert(s =~= lo + (seq![s[i]] + hi));
    assert(s.update(i, x) =~= lo + (seq![x] + hi));
    lemma_value_concat(lo, seq![s[i]] + hi);
    lemma_value_concat(lo, seq![x] + hi);
    lemma_value_prepend(s[i], hi);
    lemma_value_prepend(x, hi);
    let p = pow10(i as nat) as int;
    let h = digits_value(hi) as int;
    let y = s[i] as int;
    let z = x as int;
    assert(p * (z + 10 * h) == p * (y + 10 * h) - y * p + z * p) by (nonlinear_arith);
}

/// Appends `n` zero digits.
pub fn extend_zeros(v: &mut Vec<u8>, n: usize)
    ensures
        final(v)@ == old(v)@ + zeros(n as nat),
{
    let ghost start = v@;
    let mut k: usize = 0;
    while k < n
        invariant
            k <= n,
            v@ == start + zeros(k as nat),
        decreases n - k,
    {
        v.push(0);
        k = k + 1;
        assert(v@ =~= start + zeros(k as nat));
    }
}

/// The partial product of the digits `b` and the single digit `d`.
pub fn scale_digits(b: &Vec<u8>, d: u8) -> (row: Vec<u8>)
    requires
        is_digits(b@),
        d < 10,
    ensures
        is_scaled_row(row@, b@, d),
{
    let mut row: Vec<u8> = Vec::new();
    let mut carry: u8 = 0;
    let mut j: usize = 0;
    proof {
        assert(b@.take(0) =~= Seq::<u8>::empty());
        assert(d * 0 == 0);
        assert(0 * pow10(0) == 0);
    }
    while j < b.len()
        invariant
            j <= b.len(),
            is_digits(b@),
            d < 10,
            is_digits(row@),
            row@.len() == j,
            carry < 10,
            digits_value(row@) + carry * pow10(j as nat) == d * digits_value(b@.take(j as int)),
        decreases b.len() - j,
    {
        assert(d * b[j as int] <= 81) by (nonlinear_arith)
            requires
                d <= 9,
                b[j as int] <= 9,
        ;
        let t: u8 = d * b[j] + carry;
        proof {
            lemma_value_take_step(b@, j as int);
            lemma_value_push(row@, t % 10);
            lemma_carry_step(t as int, pow10(j as nat) as int);
            let p = pow10(j as nat) as int;
            let x = b@[j as int] as int;
            let v = digits_value(b@.take(j as int)) as int;
            let c = carry as int;
            let e = d as int;
            assert((e * x + c) * p == e * (x * p) + c * p) by (nonlinear_arith);
            assert(e * (v + x * p) == e * v + e * (x * p)) by (nonlinear_arith);
        }
        row.push(t % 10);
        carry = t / 10;
        j = j + 1;
    }
    proof {
        assert(b@.take(b.len() as int) =~= b@);
        lemma_value_push(row@, carry);
    }
    row.push(carry);
    row
}

/// Adds `row`, shifted up by `offset` digits, into the buffer `acc`, carrying as far as
/// needed. The sum has to fit the buffer.
pub fn accumulate_row(acc: &mut Vec<u8>, row: &Vec<u8>, offset: usize)
    requires
        is_digits(old(acc)@),
        is_digits(row@),
        offset + row@.len() <= old(acc)@.len(),
        digits_value(old(acc)@) + pow10(offset as nat) * digits_value(row@) < pow10(
            old(acc)@.len(),
        ),
    ensures
        final(acc)@.len() == old(acc)@.len(),
        is_digits(final(acc)@),
        digits_value(final(acc)@) == digits_value(old(acc)@) + pow10(offset as nat)
            * digits_value(row@),
{
    let ghost start = acc@;
    let n = acc.len();
    let m = row.len();
    let mut carry: u8 = 0;
    let mut j: usize = 0;
    proof {
        assert(row@.take(0) =~= Seq::<u8>::empty());
        assert(pow10(offset as nat) * 0 == 0);
        assert(0 * pow10(offset as nat) == 0);
    }
    while j < m
        invariant
            j <= m,
            m == row@.len(),
            n == acc@.len(),
            offset + m <= n,
            is_digits(acc@),
            is_digits(row@),
            carry <= 1,
            digits_value(acc@) + carry * pow10((offset + j) as nat) == digits_value(start)
                + pow10(offset as nat) * digits_value(row@.take(j as int)),
        decreases m - j,
    {
        let p = offset + j;
        let sum: u8 = acc[p] + row[j] + carry;
        proof {
            lemma_value_update(acc@, p as int, sum % 10);
            lemma_value_take_step(row@, j as int);
            lemma_pow10_add(offset as nat, j as nat);
            let q = pow10(p as nat) as int;
            let po = pow10(offset as nat) as int;
            let pj = pow10(j as nat) as int;
            lemma_carry_step(sum as int, q);
            let x = acc@[p as int] as int;
            let y = row@[j as int] as int;
            let c = carry as int;
            let v = digits_value(row@.take(j as int)) as int;
            assert((x + y + c) * q == x * q + y * q + c * q) by (nonlinear_arith);
            assert(po * (v + y * pj) == po * v + y * (po * pj)) by (nonlinear_arith);
        }
        acc.set(p, sum % 10);
        carry = sum / 10;
        j = j + 1;
    }
    assert(row@.take(m as int) =~= row@);
    let mut p: usize = offset + m;
    while carry > 0 && p < n
        invariant
            offset + m <= p <= n,
            n == acc@.len(),
            is_digits(acc@),
            carry <= 1,
            digits_value(acc@) + carry * pow10(p as nat) == digits_value(start) + pow10(
                offset as nat,
            ) * digits_value(row@),
        decreases n - p,
    {
        let sum: u8 = acc[p] + carry;
        proof {
            lemma_value_update(acc@, p as int, sum % 10);
            let q = pow10(p as nat) as int;
            lemma_carry_step(sum as int, q);
            let x = acc@[p as int] as int;
            let c = carry as int;
            assert((x + c) * q == x * q + c * q) by (nonlinear_arith);
        }
        acc.set(p, sum % 10);
        carry = sum / 10;
        p = p + 1;
    }
    proof {
        if carry > 0 {
            assert(p == n);
            assert(carry * pow10(n as nat) == pow10(n as nat)) by (nonlinear_arith)
                requires
                    carry == 1,
            ;
        }
    }
}

} // verus!
