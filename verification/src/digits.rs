//! Little-endian decimal digit sequences and the numbers they denote.
//!
//! Everything here is specification and proof: a digit sequence is a
//! `Seq<u8>` whose entry `i` is the coefficient of `10^i`.

use vstd::prelude::*;

verus! {

/// `10^n`.
pub open spec fn pow10(n: nat) -> nat
    decreases n,
{
    if n == 0 {
        1
    } else {
        10 * pow10((n - 1) as nat)
    }
}

/// Every entry is a decimal digit.
pub open spec fn is_digits(s: Seq<u8>) -> bool {
    forall|i: int| 0 <= i < s.len() ==> #[trigger] s[i] < 10
}

/// The number denoted by `s`, least significant digit first.
pub open spec fn digits_value(s: Seq<u8>) -> nat
    decreases s.len(),
{
    if s.len() == 0 {
        0
    } else {
        digits_value(s.drop_last()) + s.last() as nat * pow10((s.len() - 1) as nat)
    }
}

/// `n` zero digits.
pub open spec fn zeros(n: nat) -> Seq<u8> {
    Seq::new(n, |i: int| 0u8)
}

/// The canonical form of a magnitude: at least one digit, and no leading zero
/// unless the number is zero, which is the single digit `0`.
pub open spec fn is_canonical(s: Seq<u8>) -> bool {
    &&& s.len() >= 1
    &&& is_digits(s)
    &&& s.len() > 1 ==> s.last() != 0
}

/// Powers of ten are positive.
pub proof fn lemma_pow10_positive(n: nat)
    ensures
        pow10(n) >= 1,
    decreases n,
{
    if n > 0 {
        lemma_pow10_positive((n - 1) as nat);
    }
}

/// Exponents add where powers multiply.
pub proof fn lemma_pow10_add(a: nat, b: nat)
    ensures
        pow10(a + b) == pow10(a) * pow10(b),
    decreases b,
{
    if b == 0 {
        assert(pow10(a) * 1 == pow10(a));
    } else {
        lemma_pow10_add(a, (b - 1) as nat);
        assert(pow10(a + b) == 10 * pow10((a + b - 1) as nat));
        assert(10 * (pow10(a) * pow10((b - 1) as nat)) == pow10(a) * (10 * pow10((b - 1) as nat)))
            by (nonlinear_arith);
    }
}

/// A larger exponent gives no smaller a power.
pub proof fn lemma_pow10_monotonic(a: nat, b: nat)
    requires
        a <= b,
    ensures
        pow10(a) <= pow10(b),
    decreases b,
{
    if a < b {
        lemma_pow10_monotonic(a, (b - 1) as nat);
    }
}

/// Appending a most-significant digit adds `d * 10^len`.
pub proof fn lemma_value_push(s: Seq<u8>, d: u8)
    ensures
        digits_value(s.push(d)) == digits_value(s) + d as nat * pow10(s.len()),
{
    assert(s.push(d).drop_last() =~= s);
}

/// A sequence of `n` digits denotes a number below `10^n`.
pub proof fn lemma_value_bound(s: Seq<u8>)
    requires
        is_digits(s),
    ensures
        digits_value(s) < pow10(s.len()),
    decreases s.len(),
{
    if s.len() > 0 {
        let t = s.drop_last();
        lemma_value_bound(t);
        let p = pow10(t.len());
        let d = s.last() as nat;
        assert(d <= 9);
        assert(d * p <= 9 * p) by (nonlinear_arith)
            requires
                d <= 9,
        ;
    }
}

/// A nonzero most-significant digit puts the number at or above `10^(len-1)`.
pub proof fn lemma_value_lower_bound(s: Seq<u8>)
    requires
        s.len() > 0,
        s.last() != 0,
    ensures
        digits_value(s) >= pow10((s.len() - 1) as nat),
{
    let p = pow10((s.len() - 1) as nat);
    let d = s.last() as nat;
    assert(d * p >= p) by (nonlinear_arith)
        requires
            d >= 1,
    ;
}

/// The value of a concatenation: the high part is shifted by the length of the low part.
pub proof fn lemma_value_concat(lo: Seq<u8>, hi: Seq<u8>)
    ensures
        digits_value(lo + hi) == digits_value(lo) + pow10(lo.len()) * digits_value(hi),
    decreases hi.len(),
{
    if hi.len() == 0 {
        assert(lo + hi =~= lo);
        assert(pow10(lo.len()) * 0 == 0);
    } else {
        let h = hi.drop_last();
        let d = hi.last();
        assert((lo + hi).drop_last() =~= lo + h);
        lemma_value_concat(lo, h);
        lemma_pow10_add(lo.len(), h.len());
        let pl = pow10(lo.len()) as int;
        let ph = pow10(h.len()) as int;
        let vh = digits_value(h) as int;
        assert(pl * (vh + d * ph) == pl * vh + d * (pl * ph)) by (nonlinear_arith);
    }
}

/// Prepending a least-significant digit multiplies the rest by ten.
pub proof fn lemma_value_prepend(d: u8, s: Seq<u8>)
    ensures
        digits_value(seq![d] + s) == d as nat + 10 * digits_value(s),
{
    lemma_value_concat(seq![d], s);
    lemma_value_single(d);
    assert(pow10(1) == 10) by {
        reveal_with_fuel(pow10, 2);
    }
}

/// A single digit denotes itself.
pub proof fn lemma_value_single(d: u8)
    ensures
        digits_value(seq![d]) == d as nat,
{
    let s = seq![d];
    assert(s.drop_last() =~= Seq::<u8>::empty());
    assert(digits_value(s.drop_last()) == 0);
    assert(pow10(0) == 1);
    assert(d as nat * 1 == d as nat);
}

/// Zero digits denote zero.
pub proof fn lemma_value_zeros(n: nat)
    ensures
        digits_value(zeros(n)) == 0,
    decreases n,
{
    if n > 0 {
        assert(zeros(n).drop_last() =~= zeros((n - 1) as nat));
        lemma_value_zeros((n - 1) as nat);
        assert(0 * pow10((n - 1) as nat) == 0);
    }
}

/// Padding with most-significant zeros leaves the value unchanged.
pub proof fn lemma_value_pad(s: Seq<u8>, n: nat)
    ensures
        digits_value(s + zeros(n)) == digits_value(s),
{
    lemma_value_concat(s, zeros(n));
    lemma_value_zeros(n);
    assert(pow10(s.len()) * 0 == 0);
}

/// Extending a prefix by one digit.
pub proof fn lemma_value_take_step(s: Seq<u8>, i: int)
    requires
        0 <= i < s.len(),
    ensures
        digits_value(s.take(i + 1)) == digits_value(s.take(i)) + s[i] as nat * pow10(i as nat),
{
    assert(s.take(i + 1) =~= s.take(i).push(s[i]));
    lemma_value_push(s.take(i), s[i]);
}

/// Only the all-zero sequences denote zero.
pub proof fn lemma_value_zero_iff(s: Seq<u8>)
    ensures
        digits_value(s) == 0 <==> (forall|i: int| 0 <= i < s.len() ==> #[trigger] s[i] == 0),
    decreases s.len(),
{
    if s.len() > 0 {
        let t = s.drop_last();
        lemma_value_zero_iff(t);
        lemma_pow10_positive(t.len());
        let p = pow10(t.len());
        let d = s.last() as nat;
        assert(d > 0 ==> d * p > 0) by (nonlinear_arith)
            requires
                p >= 1,
        ;
        assert(d == 0 ==> d * p == 0) by (nonlinear_arith);
        if digits_value(s) == 0 {
            assert forall|i: int| 0 <= i < s.len() implies #[trigger] s[i] == 0 by {
                if i < t.len() {
                    assert(t[i] == s[i]);
                }
            }
        } else {
            if forall|i: int| 0 <= i < s.len() ==> #[trigger] s[i] == 0 {
                assert(s.last() == 0);
                assert forall|i: int| 0 <= i < t.len() implies #[trigger] t[i] == 0 by {
                    assert(t[i] == s[i]);
                }
                assert(false);
            }
        }
    }
}

/// Canonical digits denote zero exactly when they are the single digit `0`.
pub proof fn lemma_canonical_zero(s: Seq<u8>)
    requires
        is_canonical(s),
    ensures
        digits_value(s) == 0 <==> s == seq![0u8],
{
    lemma_value_zero_iff(s);
    if digits_value(s) == 0 {
        assert(s.last() == 0);
        assert(s =~= seq![0u8]);
    }
    if s == seq![0u8] {
        lemma_value_single(0u8);
    }
}

/// Among digit sequences of one length, the most significant difference decides the order.
pub proof fn lemma_value_order(a: Seq<u8>, b: Seq<u8>, k: int)
    requires
        is_digits(a),
        is_digits(b),
        a.len() == b.len(),
        0 <= k < a.len(),
        a[k] < b[k],
        forall|j: int| k < j < a.len() ==> a[j] == b[j],
    ensures
        digits_value(a) < digits_value(b),
{
    let al = a.take(k);
    let bl = b.take(k);
    let ah = a.skip(k);
    let bh = b.skip(k);
    assert(a =~= al + ah);
    assert(b =~= bl + bh);
    lemma_value_concat(al, ah);
    lemma_value_concat(bl, bh);
    let at = ah.drop_first();
    let bt = bh.drop_first();
    assert(at =~= bt);
    assert(ah =~= seq![a[k]] + at);
    assert(bh =~= seq![b[k]] + bt);
    lemma_value_prepend(a[k], at);
    lemma_value_prepend(b[k], bt);
    lemma_value_bound(al);
    let p = pow10(k as nat) as int;
    let x = digits_value(ah) as int;
    let y = digits_value(bh) as int;
    assert(x + 1 <= y);
    assert(p * (x + 1) <= p * y) by (nonlinear_arith)
        requires
            x + 1 <= y,
            p >= 0,
    ;
    assert(p * (x + 1) == p * x + p) by (nonlinear_arith);
}

/// A canonical sequence with more digits denotes a larger number.
pub proof fn lemma_longer_is_larger(a: Seq<u8>, b: Seq<u8>)
    requires
        is_canonical(a),
        is_canonical(b),
        a.len() < b.len(),
    ensures
        digits_value(a) < digits_value(b),
{
    lemma_value_bound(a);
    lemma_value_lower_bound(b);
    lemma_pow10_monotonic(a.len(), (b.len() - 1) as nat);
}

/// Canonical digit sequences are unique: equal values mean equal digits.
pub proof fn lemma_canonical_unique(a: Seq<u8>, b: Seq<u8>)
    requires
        is_canonical(a),
        is_canonical(b),
        digits_value(a) == digits_value(b),
    ensures
        a == b,
{
    if a.len() < b.len() {
        lemma_longer_is_larger(a, b);
    } else if b.len() < a.len() {
        lemma_longer_is_larger(b, a);
    } else {
        lemma_same_length_unique(a, b, a.len() as int);
        assert(a =~= b);
    }
}

/// Sequences of one length with one value agree from any index up, given that they agree above `n`.
proof fn lemma_same_length_unique(a: Seq<u8>, b: Seq<u8>, n: int)
    requires
        is_digits(a),
        is_digits(b),
        a.len() == b.len(),
        digits_value(a) == digits_value(b),
        0 <= n <= a.len(),
        forall|j: int| n <= j < a.len() ==> a[j] == b[j],
    ensures
        forall|j: int| 0 <= j < a.len() ==> a[j] == b[j],
    decreases n,
{
    if n > 0 {
        let k = n - 1;
        if a[k] < b[k] {
            lemma_value_order(a, b, k);
        } else if b[k] < a[k] {
            lemma_value_order(b, a, k);
        }
        lemma_same_length_unique(a, b, k);
    }
}

/// Dropping a most-significant zero leaves the value unchanged.
pub proof fn lemma_value_drop_zero(s: Seq<u8>)
    requires
        s.len() > 0,
        s.last() == 0,
    ensures
        digits_value(s.drop_last()) == digits_value(s),
{
    assert(0 * pow10((s.len() - 1) as nat) == 0);
}

/// One column of a carry chain: a column sum splits into a digit and a carry.
pub proof fn lemma_carry_step(x: int, p: int)
    requires
        x >= 0,
    ensures
        (x % 10) * p + (x / 10) * (10 * p) == x * p,
{
    assert(x == 10 * (x / 10) + x % 10);
    assert((x % 10) * p + (x / 10) * (10 * p) == (10 * (x / 10) + x % 10) * p)
        by (nonlinear_arith);
}

/// The number denoted by `s` read the other way round, most significant digit first.
pub open spec fn leading_value(s: Seq<u8>) -> nat
    decreases s.len(),
{
    if s.len() == 0 {
        0
    } else {
        10 * leading_value(s.drop_last()) + s.last() as nat
    }
}

/// Reading a reversed sequence least-significant-first is reading the sequence
/// most-significant-first.
pub proof fn lemma_reverse_value(s: Seq<u8>)
    ensures
        digits_value(s.reverse()) == leading_value(s),
    decreases s.len(),
{
    if s.len() > 0 {
        let t = s.drop_last();
        assert(s.reverse() =~= seq![s.last()] + t.reverse());
        lemma_value_prepend(s.last(), t.reverse());
        lemma_reverse_value(t);
    }
}

/// Reversal keeps digits digits.
pub proof fn lemma_reverse_digits(s: Seq<u8>)
    requires
        is_digits(s),
    ensures
        is_digits(s.reverse()),
        s.reverse().len() == s.len(),
{
    assert forall|i: int| 0 <= i < s.reverse().len() implies #[trigger] s.reverse()[i] < 10 by {
        assert(s.reverse()[i] == s[s.len() - 1 - i]);
    }
}

/// The least significant digit is the value modulo ten.
pub proof fn lemma_lowest_digit(s: Seq<u8>)
    requires
        s.len() > 0,
        is_digits(s),
    ensures
        digits_value(s) % 10 == s[0] as nat,
        digits_value(s) / 10 == digits_value(s.drop_first()),
{
    assert(s =~= seq![s[0]] + s.drop_first());
    lemma_value_prepend(s[0], s.drop_first());
    let h = digits_value(s.drop_first()) as int;
    let d = s[0] as int;
    vstd::arithmetic::div_mod::lemma_fundamental_div_mod_converse(d + 10 * h, 10, h, d);
}

/// The digits from some position up denote no more than the whole sequence.
pub proof fn lemma_suffix_at_most(s: Seq<u8>, i: int)
    requires
        0 <= i <= s.len(),
    ensures
        digits_value(s.skip(i)) <= digits_value(s),
{
    assert(s =~= s.take(i) + s.skip(i));
    lemma_value_concat(s.take(i), s.skip(i));
    lemma_pow10_positive(i as nat);
    let p = pow10(i as nat) as int;
    let h = digits_value(s.skip(i)) as int;
    assert(p * h >= h) by (nonlinear_arith)
        requires
            p >= 1,
            h >= 0,
    ;
}

} // verus!
