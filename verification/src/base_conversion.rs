//! Numerals in the bases from 2 to 36.

use vstd::prelude::*;

verus! {

/// The value of a character as a digit: `0` to `9`, then the letters, in either case,
/// from ten on. `None` for every other character.
pub open spec fn digit_value(c: char) -> Option<nat> {
    let u = c as u32;
    if 48 <= u <= 57 {
        Some((u - 48) as nat)
    } else if 97 <= u <= 122 {
        Some((u - 97 + 10) as nat)
    } else if 65 <= u <= 90 {
        Some((u - 65 + 10) as nat)
    } else {
        None
    }
}

/// The number that a run of digits denotes in a base, most significant digit first;
/// `None` where a character is no digit of that base. The empty run denotes zero.
pub open spec fn digits_in_base(s: Seq<char>, base: nat) -> Option<nat>
    decreases s.len(),
{
    if s.len() == 0 {
        Some(0)
    } else {
        match (digits_in_base(s.drop_last(), base), digit_value(s.last())) {
            (Some(high), Some(d)) => if d < base {
                Some(high * base + d)
            } else {
                None
            },
            _ => None,
        }
    }
}

/// The number that a numeral denotes in a base: after an optional `+`, at least one
/// digit, nothing but digits of that base, and a value within 128 bits.
pub open spec fn radix_value(s: Seq<char>, base: u32) -> Option<u128> {
    let body = if s.len() > 0 && s[0] == '+' {
        s.drop_first()
    } else {
        s
    };
    if body.len() == 0 {
        None
    } else {
        match digits_in_base(body, base as nat) {
            Some(v) => if v <= u128::MAX {
                Some(v as u128)
            } else {
                None
            },
            None => None,
        }
    }
}

/// The character for a digit below 36: `0` to `9`, then `a` to `z`.
pub open spec fn radix_char(d: nat) -> char {
    if d < 10 {
        ((48 + d) as u8) as char
    } else {
        ((97 + d - 10) as u8) as char
    }
}

/// The numeral of a number in a base, without redundant leading zeros.
pub open spec fn radix_text(n: nat, base: nat) -> Seq<char>
    decreases n,
    via radix_text_decreases
{
    if n < base || base < 2 {
        seq![radix_char(n)]
    } else {
        radix_text(n / base, base).push(radix_char(n % base))
    }
}

/// Dividing by a base makes a number at least as large as the base smaller.
#[via_fn]
proof fn radix_text_decreases(n: nat, base: nat) {
    if !(n < base || base < 2) {
        assert(n / base < n) by (nonlinear_arith)
            requires
                n >= base,
                base >= 2,
        ;
    }
}

/// Digits, least significant first, written most significant first.
pub open spec fn radix_digits_text(s: Seq<u8>) -> Seq<char> {
    Seq::new(s.len(), |i: int| radix_char(s[s.len() - 1 - i] as nat))
}

/// Whether a base is one of the bases from 2 to 36.
pub open spec fn is_base(base: u32) -> bool {
    2 <= base <= 36
}

/// Reads a numeral in a base.
///
/// Calls `u128::from_str_radix` of the standard library and drops the kind of error.
/// The contract claims what its documentation says: an optional `+`, then digits only,
/// where the digits are `0-9`, `a-z` and `A-Z` as far as the base goes; an empty
/// numeral, a character that is no digit, and a value beyond 128 bits are errors.
#[verifier::external_body]
fn parse_radix(number: &str, base: u32) -> (r: Option<u128>)
    requires
        is_base(base),
    ensures
        r == radix_value(number@, base),
{
    match u128::from_str_radix(number, base) {
        Ok(value) => Some(value),
        Err(_) => None,
    }
}

/// The numeral of `number` in `base`, with lower-case letters for the digits from ten on.
pub fn decimal_to_base(number: u128, base: u32) -> (r: String)
    requires
        is_base(base),
    ensures
        r@ == radix_text(number as nat, base as nat),
{
    let mut result = String::new();
    if number == 0 {
        result.push('0');
        assert(result@ =~= radix_text(0, base as nat));
        return result;
    }
    let mut found: Vec<u8> = Vec::new();
    let mut rest: u128 = number;
    assert(radix_text(number as nat, base as nat) =~= radix_text(rest as nat, base as nat)
        + radix_digits_text(found@));
    while rest > 0
        invariant
            is_base(base),
            forall|i: int| 0 <= i < found@.len() ==> found@[i] < base,
            rest > 0 ==> radix_text(number as nat, base as nat) == radix_text(
                rest as nat,
                base as nat,
            ) + radix_digits_text(found@),
            rest == 0 ==> radix_text(number as nat, base as nat) == radix_digits_text(found@),
        decreases rest,
    {
        let remainder: u8 = (rest % base as u128) as u8;
        proof {
            let x = rest as int;
            let b = base as int;
            assert(x >= b ==> x / b >= 1) by (nonlinear_arith)
                requires
                    b >= 2,
            ;
            assert(0 <= x < b ==> x / b == 0 && x % b == x) by (nonlinear_arith)
                requires
                    b >= 2,
            ;
            let c = radix_char(remainder as nat);
            let longer = found@.push(remainder);
            assert(radix_digits_text(longer) =~= seq![c] + radix_digits_text(found@));
            let whole = radix_text(rest as nat, base as nat);
            if rest >= base {
                let high = radix_text((rest / base as u128) as nat, base as nat);
                assert(whole == high.push(c));
                assert(high.push(c) + radix_digits_text(found@) =~= high + (seq![c]
                    + radix_digits_text(found@)));
            } else {
                assert(whole == seq![c]);
            }
        }
        found.push(remainder);
        rest = rest / base as u128;
    }
    let n = found.len();
    let mut i: usize = n;
    assert(radix_digits_text(found@).take(0) =~= result@);
    while i > 0
        invariant
            i <= n,
            n == found@.len(),
            is_base(base),
            forall|k: int| 0 <= k < found@.len() ==> found@[k] < base,
            result@ == radix_digits_text(found@).take(n - i),
        decreases i,
    {
        i = i - 1;
        let remainder = found[i];
        let digit: char = if remainder < 10 {
            (48 + remainder) as char
        } else {
            (97 + (remainder - 10)) as char
        };
        result.push(digit);
        proof {
            let t = radix_digits_text(found@);
            assert(t.take(n - i) =~= t.take(n - i - 1).push(digit));
        }
    }
    assert(radix_digits_text(found@).take(n as int) =~= radix_digits_text(found@));
    result
}

/// What `convert_base` and `to_decimal` say of a base out of range.
pub open spec fn base_message() -> Seq<char> {
    "Base must be between 2 and 36"@
}

/// What `convert_base` and `to_decimal` say of a numeral that cannot be read.
pub open spec fn number_message() -> Seq<char> {
    "Invalid number for the given base"@
}

/// Reads `number` as a numeral in `from_base` and writes it in `to_base`. Both bases
/// have to be among 2 to 36, and the numeral has to denote a value within 128 bits.
pub fn convert_base(number: &str, from_base: u32, to_base: u32) -> (r: Result<String, String>)
    ensures
        match r {
            Ok(text) => {
                &&& is_base(from_base)
                &&& is_base(to_base)
                &&& radix_value(number@, from_base) matches Some(v)
                &&& text@ == radix_text(v as nat, to_base as nat)
            },
            Err(message) => if is_base(from_base) && is_base(to_base) {
                radix_value(number@, from_base) is None && message@ == number_message()
            } else {
                message@ == base_message()
            },
        },
{
    if from_base < 2 || from_base > 36 || to_base < 2 || to_base > 36 {
        return Err("Base must be between 2 and 36".to_owned());
    }
    let decimal_value = match parse_radix(number, from_base) {
        Some(value) => value,
        None => {
            return Err("Invalid number for the given base".to_owned());
        },
    };
    Ok(decimal_to_base(decimal_value, to_base))
}

/// Reads `number` as a numeral in `from_base`, which has to be among 2 to 36.
pub fn to_decimal(number: &str, from_base: u32) -> (r: Result<u128, String>)
    ensures
        match r {
            Ok(value) => is_base(from_base) && radix_value(number@, from_base) == Some(value),
            Err(message) => if is_base(from_base) {
                radix_value(number@, from_base) is None && message@ == number_message()
            } else {
                message@ == base_message()
            },
        },
{
    if from_base < 2 || from_base > 36 {
        return Err("Base must be between 2 and 36".to_owned());
    }
    match parse_radix(number, from_base) {
        Some(value) => Ok(value),
        None => Err("Invalid number for the given base".to_owned()),
    }
}

} // verus!
