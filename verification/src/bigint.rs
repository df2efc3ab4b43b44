//! The arbitrary-precision integer type and its additive arithmetic.

use crate::digits::{
    digits_value, is_canonical, is_digits, lemma_canonical_unique, lemma_canonical_zero,
    lemma_carry_step, lemma_longer_is_larger, lemma_pow10_positive, lemma_reverse_digits,
    lemma_reverse_value, lemma_value_bound, lemma_value_drop_zero, lemma_value_order,
    lemma_value_pad, lemma_value_push, lemma_value_single, lemma_value_take_step,
    lemma_value_zero_iff, pow10, zeros,
};
use crate::text::{
    char_of, decimal_text, digits_text, is_negative_text, lemma_digits_text_numeral,
    lemma_text_digits_are_digits, skip_white_space, text_digits, text_value,
};
use std::cmp::Ordering;
use vstd::prelude::*;

verus! {

/// An integer of unbounded magnitude: a sign and decimal digits, least significant first.
#[derive(Debug)]
pub struct LargeInt {
    /// `1` for zero and positive values, `-1` for negative ones.
    pub sign: i8,
    /// Decimal digits, least significant first.
    pub digits: Vec<u8>,
}

impl View for LargeInt {
    type V = int;

    /// The integer that the value denotes.
    open spec fn view(&self) -> int {
        if self.sign == -1 {
            -(digits_value(self.digits@) as int)
        } else {
            digits_value(self.digits@) as int
        }
    }
}

impl Clone for LargeInt {
    /// A copy with the same sign and digits.
    fn clone(&self) -> (r: Self)
        ensures
            r.sign == self.sign,
            r.digits@ == self.digits@,
    {
        LargeInt { sign: self.sign, digits: copy_digits(&self.digits) }
    }
}

/// A fresh vector with the same entries.
fn copy_digits(v: &Vec<u8>) -> (r: Vec<u8>)
    ensures
        r@ == v@,
{
    let mut r: Vec<u8> = Vec::new();
    let mut i: usize = 0;
    while i < v.len()
        invariant
            i <= v.len(),
            r@ == v@.take(i as int),
        decreases v.len() - i,
    {
        r.push(v[i]);
        assert(v@.take(i + 1) =~= v@.take(i as int).push(v@[i as int]));
        i = i + 1;
    }
    assert(v@.take(v.len() as int) =~= v@);
    r
}

/// The entries of `v` in the opposite order.
pub(crate) fn reversed(v: &Vec<u8>) -> (r: Vec<u8>)
    ensures
        r@ == v@.reverse(),
{
    let n = v.len();
    let mut r: Vec<u8> = Vec::new();
    let mut i: usize = n;
    while i > 0
        invariant
            i <= n,
            n == v@.len(),
            r@.len() == n - i,
            forall|k: int| 0 <= k < r@.len() ==> r@[k] == v@[n - 1 - k],
        decreases i,
    {
        i = i - 1;
        r.push(v[i]);
    }
    assert(r@ =~= v@.reverse());
    r
}

/// The entries of `v`, extended with most-significant zeros to `n` entries.
fn padded(v: &Vec<u8>, n: usize) -> (r: Vec<u8>)
    requires
        v.len() <= n,
    ensures
        r@ == v@ + zeros((n - v.len()) as nat),
{
    let mut r = copy_digits(v);
    while r.len() < n
        invariant
            v.len() <= r.len() <= n,
            r@ == v@ + zeros((r.len() - v.len()) as nat),
        decreases n - r.len(),
    {
        r.push(0);
        assert(r@ =~= v@ + zeros((r.len() - v.len()) as nat));
    }
    r
}

/// The larger of two lengths.
pub open spec fn longer(m: nat, n: nat) -> nat {
    if m >= n {
        m
    } else {
        n
    }
}

/// Within one length, the digit at the most significant difference decides.
proof fn lemma_digit_decides(a: Seq<u8>, b: Seq<u8>, k: usize)
    requires
        is_digits(a),
        is_digits(b),
        a.len() == b.len(),
        k < a.len(),
        a[k as int] < b[k as int],
        forall|j: int| k < j < a.len() ==> a[j] == b[j],
    ensures
        digits_value(a) < digits_value(b),
{
    lemma_value_order(a, b, k as int);
}

impl LargeInt {
    /// The absolute value.
    pub open spec fn magnitude(&self) -> nat {
        digits_value(self.digits@)
    }

    /// The representation invariant: a proper sign, canonical digits, and a positive zero.
    pub open spec fn wf(&self) -> bool {
        &&& (self.sign == 1 || self.sign == -1)
        &&& is_canonical(self.digits@)
        &&& (self.digits@.len() == 1 && self.digits@[0] == 0) ==> self.sign == 1
    }

    /// A well-formed value is zero exactly when its digits are the single digit `0`.
    pub proof fn lemma_zero_digits(&self)
        requires
            self.wf(),
        ensures
            self@ == 0 <==> self.digits@ == seq![0u8],
            self@ == 0 <==> self.magnitude() == 0,
            self@ == 0 ==> self.sign == 1,
    {
        lemma_canonical_zero(self.digits@);
    }

    /// A well-formed value is determined by the integer it denotes.
    pub proof fn lemma_view_determines(a: &LargeInt, b: &LargeInt)
        requires
            a.wf(),
            b.wf(),
            a@ == b@,
        ensures
            a.sign == b.sign,
            a.digits@ == b.digits@,
    {
        a.lemma_zero_digits();
        b.lemma_zero_digits();
        lemma_canonical_unique(a.digits@, b.digits@);
    }

    /// Builds a value from a sign and digits, least significant first, and normalizes it:
    /// redundant most-significant zeros are dropped, no digit at all means zero, and zero
    /// is positive.
    pub fn new(sign: i8, digits: Vec<u8>) -> (r: Self)
        requires
            sign == 1 || sign == -1,
            is_digits(digits@),
        ensures
            r.wf(),
            r.magnitude() == digits_value(digits@),
            r.sign == (if digits_value(digits@) == 0 { 1i8 } else { sign }),
            r@ == (if sign == -1 {
                -(digits_value(digits@) as int)
            } else {
                digits_value(digits@) as int
            }),
    {
        let ghost given = digits@;
        let mut digits = digits;
        while digits.len() > 1 && digits[digits.len() - 1] == 0
            invariant
                is_digits(digits@),
                digits_value(digits@) == digits_value(given),
            decreases digits.len(),
        {
            proof {
                lemma_value_drop_zero(digits@);
            }
            let ghost before = digits@;
            digits.pop();
            assert(digits@ =~= before.drop_last());
        }
        if digits.len() == 0 {
            digits.push(0);
            proof {
                lemma_value_single(0u8);
                assert(digits@ =~= seq![0u8]);
            }
        }
        proof {
            lemma_value_zero_iff(digits@);
            if digits@.len() == 1 && digits@[0] == 0 {
                assert(digits@ =~= seq![0u8]);
                lemma_value_single(0u8);
            }
        }
        if digits.len() == 1 && digits[0] == 0 {
            LargeInt { sign: 1, digits }
        } else {
            LargeInt { sign, digits }
        }
    }

    /// Reads a decimal text. The value is negative where the first character after leading
    /// white space is `-`; its digits are the digit characters of the text, in their
    /// order; every other character is passed over. A text without digits gives zero.
    pub fn parse(input: &str) -> (r: Self)
        ensures
            r.wf(),
            r@ == text_value(input@),
    {
        let mut found: Vec<u8> = Vec::new();
        let mut leading = true;
        let mut negative = false;
        proof {
            assert(input@.take(0) =~= Seq::<char>::empty());
            assert(input@.skip(0) =~= input@);
        }
        for c in it: input.chars()
            invariant
                it.seq() == input@,
                found@ == text_digits(input@.take(it.index())),
                leading ==> !negative && skip_white_space(input@) == skip_white_space(
                    input@.skip(it.index()),
                ),
                !leading ==> negative == is_negative_text(input@),
        {
            let ghost k = it.index();
            proof {
                assert(c == input@[k]);
                assert(input@.take(k + 1).drop_last() =~= input@.take(k));
                assert(input@.take(k + 1).last() == c);
                assert(input@.skip(k).drop_first() =~= input@.skip(k + 1));
                assert(input@.skip(k)[0] == c);
            }
            if leading && !c.is_whitespace() {
                leading = false;
                negative = c == '-';
            }
            let code = c as u32;
            if 48 <= code && code <= 57 {
                found.push((code - 48) as u8);
            }
        }
        proof {
            assert(input@.take(input@.len() as int) =~= input@);
            assert(input@.skip(input@.len() as int) =~= Seq::<char>::empty());
            lemma_text_digits_are_digits(input@);
            lemma_reverse_value(found@);
            lemma_reverse_digits(found@);
        }
        let sign: i8 = if negative {
            -1
        } else {
            1
        };
        LargeInt::new(sign, reversed(&found))
    }

    /// Writes the value in decimal, most significant digit first, after a `-` where the
    /// sign is negative and the value is not zero. The digits have to be canonical; a
    /// zero of either sign is written `0`.
    pub fn to_string(&self) -> (r: String)
        requires
            self.sign == 1 || self.sign == -1,
            is_canonical(self.digits@),
        ensures
            r@ == decimal_text(self@),
    {
        let mut result = String::new();
        if self.sign == -1 && !self.is_zero() {
            result.push('-');
        }
        let ghost prefix = result@;
        let n = self.digits.len();
        let mut i: usize = n;
        assert(digits_text(self.digits@).take(0) =~= Seq::<char>::empty());
        assert(prefix + Seq::<char>::empty() =~= prefix);
        while i > 0
            invariant
                i <= n,
                n == self.digits@.len(),
                is_digits(self.digits@),
                result@ == prefix + digits_text(self.digits@).take(n - i),
            decreases i,
        {
            i = i - 1;
            let digit = self.digits[i];
            result.push((digit + 48) as char);
            proof {
                let t = digits_text(self.digits@);
                assert(t.take(n - i) =~= t.take(n - i - 1).push(char_of(digit)));
                assert(result@ =~= prefix + t.take(n - i));
            }
        }
        proof {
            let t = digits_text(self.digits@);
            assert(t.take(n as int) =~= t);
            lemma_digits_text_numeral(self.digits@);
            lemma_canonical_zero(self.digits@);
        }
        result
    }

    /// Zero.
    pub fn zero() -> (r: Self)
        ensures
            r.wf(),
            r@ == 0,
            r.sign == 1,
            r.digits@ == seq![0u8],
    {
        let digits: Vec<u8> = vec![0];
        proof {
            assert(digits@ =~= seq![0u8]);
            lemma_value_single(0u8);
        }
        let r = LargeInt::new(1, digits);
        proof {
            r.lemma_zero_digits();
        }
        r
    }

    /// One.
    pub fn one() -> (r: Self)
        ensures
            r.wf(),
            r@ == 1,
            r.sign == 1,
            r.digits@ == seq![1u8],
    {
        let digits: Vec<u8> = vec![1];
        proof {
            assert(digits@ =~= seq![1u8]);
            lemma_value_single(1u8);
        }
        let r = LargeInt::new(1, digits);
        proof {
            lemma_canonical_unique(r.digits@, seq![1u8]);
        }
        r
    }

    /// Whether the digits are the single digit `0`; for canonical digits, whether the
    /// value is zero.
    pub fn is_zero(&self) -> (r: bool)
        ensures
            r == (self.digits@ == seq![0u8]),
            is_canonical(self.digits@) ==> (r <==> self@ == 0),
    {
        proof {
            if is_canonical(self.digits@) {
                lemma_canonical_zero(self.digits@);
            }
            if self.digits@.len() == 1 && self.digits@[0] == 0 {
                assert(self.digits@ =~= seq![0u8]);
            }
        }
        self.digits.len() == 1 && self.digits[0] == 0
    }

    /// Orders two values by magnitude: by digit count first, then digit by digit from the
    /// most significant end, where the first difference decides. The signs play no part;
    /// the digits have to be canonical.
    pub fn compare_abs(&self, other: &Self) -> (r: Ordering)
        requires
            is_canonical(self.digits@),
            is_canonical(other.digits@),
        ensures
            match r {
                Ordering::Less => self.magnitude() < other.magnitude(),
                Ordering::Equal => self.magnitude() == other.magnitude(),
                Ordering::Greater => self.magnitude() > other.magnitude(),
            },
    {
        let n = self.digits.len();
        if n < other.digits.len() {
            proof {
                lemma_longer_is_larger(self.digits@, other.digits@);
            }
            return Ordering::Less;
        }
        if n > other.digits.len() {
            proof {
                lemma_longer_is_larger(other.digits@, self.digits@);
            }
            return Ordering::Greater;
        }
        let mut i: usize = n;
        while i > 0
            invariant
                i <= n,
                n == self.digits@.len(),
                n == other.digits@.len(),
                is_digits(self.digits@),
                is_digits(other.digits@),
                forall|j: int| i <= j < n ==> self.digits@[j] == other.digits@[j],
            decreases i,
        {
            i = i - 1;
            let x = self.digits[i];
            let y = other.digits[i];
            if x < y {
                proof {
                    lemma_digit_decides(self.digits@, other.digits@, i);
                }
                return Ordering::Less;
            }
            if x > y {
                proof {
                    lemma_digit_decides(other.digits@, self.digits@, i);
                }
                return Ordering::Greater;
            }
        }
        assert(self.digits@ =~= other.digits@);
        Ordering::Equal
    }

    /// Copies of both digit sequences, the shorter one extended with most-significant zeros
    /// to the length of the longer. The operands are left as they are.
    pub fn pad_equal_lengths(a: &Self, b: &Self) -> (r: (Vec<u8>, Vec<u8>))
        ensures
            r.0@.len() == longer(a.digits@.len(), b.digits@.len()),
            r.1@.len() == longer(a.digits@.len(), b.digits@.len()),
            r.0@ == a.digits@ + zeros((r.0@.len() - a.digits@.len()) as nat),
            r.1@ == b.digits@ + zeros((r.1@.len() - b.digits@.len()) as nat),
            digits_value(r.0@) == digits_value(a.digits@),
            digits_value(r.1@) == digits_value(b.digits@),
    {
        let n = if a.digits.len() >= b.digits.len() {
            a.digits.len()
        } else {
            b.digits.len()
        };
        proof {
            lemma_value_pad(a.digits@, (n - a.digits@.len()) as nat);
            lemma_value_pad(b.digits@, (n - b.digits@.len()) as nat);
        }
        (padded(&a.digits, n), padded(&b.digits, n))
    }

    /// Adds the magnitudes, digit by digit with carry, and gives the sum the sign of `self`.
    pub fn add_same_sign(&self, other: &Self) -> (r: Self)
        requires
            self.wf(),
            other.wf(),
        ensures
            r.wf(),
            r.magnitude() == self.magnitude() + other.magnitude(),
            r.sign == (if r.magnitude() == 0 { 1i8 } else { self.sign }),
    {
        let mut result_digits: Vec<u8> = Vec::new();
        let mut carry: u8 = 0;
        let (a_padded, b_padded) = LargeInt::pad_equal_lengths(self, other);
        let n = a_padded.len();
        assert(is_digits(a_padded@));
        assert(is_digits(b_padded@));
        let mut i: usize = 0;
        while i < n
            invariant
                i <= n,
                n == a_padded@.len(),
                n == b_padded@.len(),
                is_digits(a_padded@),
                is_digits(b_padded@),
                is_digits(result_digits@),
                result_digits@.len() == i,
                carry <= 1,
                digits_value(result_digits@) + carry * pow10(i as nat) == digits_value(
                    a_padded@.take(i as int),
                ) + digits_value(b_padded@.take(i as int)),
            decreases n - i,
        {
            let sum: u8 = a_padded[i] + b_padded[i] + carry;
            proof {
                lemma_value_take_step(a_padded@, i as int);
                lemma_value_take_step(b_padded@, i as int);
                lemma_value_push(result_digits@, sum % 10);
                lemma_carry_step(sum as int, pow10(i as nat) as int);
                let p = pow10(i as nat) as int;
                let x = a_padded@[i as int] as int;
                let y = b_padded@[i as int] as int;
                let c = carry as int;
                assert((x + y + c) * p == x * p + y * p + c * p) by (nonlinear_arith);
            }
            result_digits.push(sum % 10);
            carry = sum / 10;
            i = i + 1;
        }
        proof {
            assert(a_padded@.take(n as int) =~= a_padded@);
            assert(b_padded@.take(n as int) =~= b_padded@);
            lemma_value_push(result_digits@, carry);
            if carry == 0 {
                assert(carry * pow10(n as nat) == 0) by (nonlinear_arith)
                    requires
                        carry == 0,
                ;
            }
        }
        if carry > 0 {
            result_digits.push(carry);
        }
        LargeInt::new(self.sign, result_digits)
    }

    /// Subtracts the magnitude of `other` from the magnitude of `self`, digit by digit with
    /// borrow, and gives the difference the sign of `self`. The magnitude of `self` must not
    /// be the smaller one.
    pub fn subtract_same_sign(&self, other: &Self) -> (r: Self)
        requires
            self.wf(),
            other.wf(),
            self.magnitude() >= other.magnitude(),
        ensures
            r.wf(),
            r.magnitude() == self.magnitude() - other.magnitude(),
            r.sign == (if r.magnitude() == 0 { 1i8 } else { self.sign }),
    {
        let mut result_digits: Vec<u8> = Vec::new();
        let mut borrow: u8 = 0;
        let (a_padded, b_padded) = LargeInt::pad_equal_lengths(self, other);
        let n = a_padded.len();
        assert(is_digits(a_padded@));
        assert(is_digits(b_padded@));
        let mut i: usize = 0;
        while i < n
            invariant
                i <= n,
                n == a_padded@.len(),
                n == b_padded@.len(),
                is_digits(a_padded@),
                is_digits(b_padded@),
                is_digits(result_digits@),
                result_digits@.len() == i,
                borrow <= 1,
                digits_value(result_digits@) - borrow * pow10(i as nat) == digits_value(
                    a_padded@.take(i as int),
                ) - digits_value(b_padded@.take(i as int)),
            decreases n - i,
        {
            let take: u8 = b_padded[i] + borrow;
            let diff: u8 = if a_padded[i] < take {
                a_padded[i] + 10 - take
            } else {
                a_padded[i] - take
            };
            let next: u8 = if a_padded[i] < take {
                1
            } else {
                0
            };
            proof {
                lemma_value_take_step(a_padded@, i as int);
                lemma_value_take_step(b_padded@, i as int);
                lemma_value_push(result_digits@, diff);
                let p = pow10(i as nat) as int;
                let x = a_padded@[i as int] as int;
                let y = b_padded@[i as int] as int;
                let c = borrow as int;
                let d = diff as int;
                let e = next as int;
                assert(d - e * 10 == x - y - c);
                assert(d * p - e * (10 * p) == x * p - y * p - c * p) by (nonlinear_arith)
                    requires
                        d - e * 10 == x - y - c,
                ;
            }
            result_digits.push(diff);
            borrow = next;
            i = i + 1;
        }
        proof {
            assert(a_padded@.take(n as int) =~= a_padded@);
            assert(b_padded@.take(n as int) =~= b_padded@);
            lemma_value_bound(result_digits@);
            lemma_pow10_positive(n as nat);
        }
        LargeInt::new(self.sign, result_digits)
    }

    /// The difference by comparison of magnitudes: zero where they are equal; where `self`
    /// has the larger one, the magnitude of `other` taken from it, under the sign of
    /// `self`; else the operands change places, and the sign of what comes out is
    /// negated. For operands of one sign this is `self - other`.
    pub fn subtract_abs(&self, other: &Self) -> (r: Self)
        requires
            self.wf(),
            other.wf(),
        ensures
            r.wf(),
            self.magnitude() >= other.magnitude() ==> r.magnitude() == self.magnitude()
                - other.magnitude(),
            self.magnitude() < other.magnitude() ==> r.magnitude() == other.magnitude()
                - self.magnitude(),
            self.magnitude() == other.magnitude() ==> r.sign == 1,
            self.magnitude() > other.magnitude() ==> r.sign == self.sign,
            self.magnitude() < other.magnitude() ==> r.sign == -other.sign,
            self.sign == other.sign ==> r@ == self@ - other@,
    {
        match self.compare_abs(other) {
            Ordering::Equal => LargeInt::zero(),
            Ordering::Greater => self.subtract_same_sign(other),
            Ordering::Less => {
                let mut result = other.subtract_same_sign(self);
                proof {
                    lemma_canonical_zero(result.digits@);
                    if result.digits@.len() == 1 && result.digits@[0] == 0 {
                        assert(result.digits@ =~= seq![0u8]);
                    }
                }
                result.sign = -result.sign;
                result
            },
        }
    }

    /// The magnitude as a value of its own: the same digits under the positive sign.
    fn absolute(&self) -> (r: Self)
        requires
            self.wf(),
        ensures
            r.wf(),
            r.sign == 1,
            r.digits@ == self.digits@,
    {
        LargeInt { sign: 1, digits: copy_digits(&self.digits) }
    }

    /// The sum. Operands of one sign add their magnitudes under that sign; for operands
    /// of opposite signs the magnitude of the negative one is subtracted from the
    /// positive one, and the comparison of magnitudes gives the sign.
    pub fn add(&self, other: &Self) -> (r: Self)
        requires
            self.wf(),
            other.wf(),
        ensures
            r.wf(),
            r@ == self@ + other@,
    {
        match (self.sign == 1, other.sign == 1) {
            (true, true) => self.add_same_sign(other),
            (false, false) => self.add_same_sign(other),
            (true, false) => self.subtract_abs(&other.absolute()),
            (false, true) => other.subtract_abs(&self.absolute()),
        }
    }

    /// The difference. Operands of one sign are subtracted by comparison of magnitudes;
    /// operands of opposite signs add their magnitudes under the sign of `self`.
    pub fn subtract(&self, other: &Self) -> (r: Self)
        requires
            self.wf(),
            other.wf(),
        ensures
            r.wf(),
            r@ == self@ - other@,
    {
        match (self.sign == 1, other.sign == 1) {
            (true, true) => self.subtract_abs(other),
            (false, false) => self.subtract_abs(other),
            (true, false) => self.add_same_sign(other),
            (false, true) => self.add_same_sign(other),
        }
    }
}

} // verus!
