//! Decimal text: what a string denotes when it is parsed, and how an integer is written.

use crate::digits::{
    lemma_lowest_digit,
    digits_value, is_canonical, is_digits, leading_value, lemma_pow10_positive,
    lemma_value_lower_bound, lemma_value_single,
};
use vstd::prelude::*;

verus! {

/// The characters with Unicode's `White_Space` property.
pub open spec fn is_white_space(c: char) -> bool {
    let u = c as u32;
    ||| 0x09 <= u <= 0x0D
    ||| u == 0x20
    ||| u == 0x85
    ||| u == 0xA0
    ||| u == 0x1680
    ||| 0x2000 <= u <= 0x200A
    ||| u == 0x2028
    ||| u == 0x2029
    ||| u == 0x202F
    ||| u == 0x205F
    ||| u == 0x3000
}

/// `char::is_whitespace` of the standard library: whether the character has Unicode's
/// `White_Space` property. The contract lists the code points that have it.
pub assume_specification[ char::is_whitespace ](c: char) -> (r: bool)
    ensures
        r == is_white_space(c),
;

/// `String::push` of the standard library: appends one character.
pub assume_specification[ String::push ](s: &mut String, c: char)
    ensures
        final(s)@ == old(s)@.push(c),
;

/// One of the characters `0` to `9`.
pub open spec fn is_digit_char(c: char) -> bool {
    48 <= c as u32 <= 57
}

/// The digit that a digit character stands for.
pub open spec fn digit_of(c: char) -> u8 {
    (c as u32 - 48) as u8
}

/// The character that stands for a digit.
pub open spec fn char_of(d: u8) -> char {
    ((d + 48) as u8) as char
}

/// The digits that occur in a text, in the order in which they occur; every other
/// character is passed over.
pub open spec fn text_digits(s: Seq<char>) -> Seq<u8>
    decreases s.len(),
{
    if s.len() == 0 {
        Seq::empty()
    } else if is_digit_char(s.last()) {
        text_digits(s.drop_last()).push(digit_of(s.last()))
    } else {
        text_digits(s.drop_last())
    }
}

/// The text without its leading white space.
pub open spec fn skip_white_space(s: Seq<char>) -> Seq<char>
    decreases s.len(),
{
    if s.len() > 0 && is_white_space(s[0]) {
        skip_white_space(s.drop_first())
    } else {
        s
    }
}

/// Whether a text reads as negative: its first character after leading white space is `-`.
pub open spec fn is_negative_text(s: Seq<char>) -> bool {
    let t = skip_white_space(s);
    t.len() > 0 && t[0] == '-'
}

/// The integer that a text denotes: its digits read as a decimal number, negated where
/// the text reads as negative. A text without digits denotes zero.
pub open spec fn text_value(s: Seq<char>) -> int {
    if is_negative_text(s) {
        -(leading_value(text_digits(s)) as int)
    } else {
        leading_value(text_digits(s)) as int
    }
}

/// The decimal numeral of a natural number, without redundant leading zeros.
pub open spec fn numeral(n: nat) -> Seq<char>
    decreases n,
{
    if n < 10 {
        seq![char_of(n as u8)]
    } else {
        numeral(n / 10).push(char_of((n % 10) as u8))
    }
}

/// The decimal text of an integer: its numeral, after a `-` where it is negative.
pub open spec fn decimal_text(v: int) -> Seq<char> {
    if v < 0 {
        seq!['-'] + numeral((-v) as nat)
    } else {
        numeral(v as nat)
    }
}

/// Digits written most significant first.
pub open spec fn digits_text(s: Seq<u8>) -> Seq<char> {
    Seq::new(s.len(), |i: int| char_of(s[s.len() - 1 - i]))
}

/// What `text_digits` finds are decimal digits.
pub proof fn lemma_text_digits_are_digits(s: Seq<char>)
    ensures
        is_digits(text_digits(s)),
    decreases s.len(),
{
    if s.len() > 0 {
        lemma_text_digits_are_digits(s.drop_last());
    }
}

/// The digits of a concatenation are the digits of its parts.
pub proof fn lemma_text_digits_concat(a: Seq<char>, b: Seq<char>)
    ensures
        text_digits(a + b) == text_digits(a) + text_digits(b),
    decreases b.len(),
{
    if b.len() == 0 {
        assert(a + b =~= a);
        assert(text_digits(a) + text_digits(b) =~= text_digits(a));
    } else {
        assert((a + b).drop_last() =~= a + b.drop_last());
        lemma_text_digits_concat(a, b.drop_last());
        if is_digit_char(b.last()) {
            assert(text_digits(a + b) =~= text_digits(a) + text_digits(b));
        }
    }
}

/// The digits of a one-character text.
pub proof fn lemma_text_digits_single(c: char)
    ensures
        text_digits(seq![c]) == (if is_digit_char(c) {
            seq![digit_of(c)]
        } else {
            Seq::empty()
        }),
{
    let s = seq![c];
    assert(s.drop_last() =~= Seq::<char>::empty());
    assert(text_digits(s.drop_last()) =~= Seq::<u8>::empty());
    assert(s.last() == c);
    if is_digit_char(c) {
        assert(text_digits(s) =~= seq![digit_of(c)]);
    }
}

/// A digit's character is a digit character that stands for that digit, and is neither
/// white space nor a minus sign.
pub proof fn lemma_char_of_digit(d: u8)
    requires
        d < 10,
    ensures
        is_digit_char(char_of(d)),
        digit_of(char_of(d)) == d,
        !is_white_space(char_of(d)),
        char_of(d) != '-',
        char_of(d) as u32 == d + 48,
{
}

/// Reading a numeral gives the number back.
pub proof fn lemma_numeral_value(n: nat)
    ensures
        leading_value(text_digits(numeral(n))) == n,
        numeral(n).len() > 0,
        is_digit_char(numeral(n)[0]),
    decreases n,
{
    if n < 10 {
        let d = n as u8;
        lemma_char_of_digit(d);
        lemma_text_digits_single(char_of(d));
        let t = seq![d];
        assert(t.drop_last() =~= Seq::<u8>::empty());
        assert(leading_value(t.drop_last()) == 0);
        assert(t.last() == d);
        assert(leading_value(t) == d);
    } else {
        let d = (n % 10) as u8;
        lemma_char_of_digit(d);
        lemma_numeral_value(n / 10);
        let s = numeral(n);
        let t = numeral(n / 10);
        assert(s.drop_last() =~= t);
        assert(text_digits(s) == text_digits(t).push(d));
        assert(text_digits(t).push(d).drop_last() =~= text_digits(t));
        assert(s[0] == t[0]);
    }
}

/// Parsing what was written gives the integer back.
pub proof fn lemma_text_of_value(v: int)
    ensures
        text_value(decimal_text(v)) == v,
{
    if v < 0 {
        let n = (-v) as nat;
        let s = decimal_text(v);
        lemma_numeral_value(n);
        lemma_text_digits_concat(seq!['-'], numeral(n));
        lemma_text_digits_single('-');
        assert(text_digits(s) =~= text_digits(numeral(n)));
        assert(s[0] == '-');
        assert(!is_white_space('-'));
    } else {
        let n = v as nat;
        lemma_numeral_value(n);
        let s = numeral(n);
        let d = digit_of(s[0]);
        assert(!is_white_space(s[0]));
        assert(s[0] != '-');
    }
}

/// Canonical digits, written most significant first, are the numeral of their value.
pub proof fn lemma_digits_text_numeral(s: Seq<u8>)
    requires
        is_canonical(s),
    ensures
        digits_text(s) == numeral(digits_value(s)),
    decreases s.len(),
{
    if s.len() == 1 {
        assert(s =~= seq![s[0]]);
        lemma_value_single(s[0]);
        assert(digits_text(s) =~= seq![char_of(s[0])]);
    } else {
        let rest = s.drop_first();
        lemma_lowest_digit(s);
        lemma_value_lower_bound(rest);
        lemma_pow10_positive((rest.len() - 1) as nat);
        lemma_digits_text_numeral(rest);
        assert(digits_text(s) =~= digits_text(rest).push(char_of(s[0])));
    }
}

} // verus!
