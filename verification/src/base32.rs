//! Base-32 numerals with the digits `0-9a-v`.

use vstd::prelude::*;

verus! {

/// The digit for a value below 32: `0-9`, then `a-v`.
pub open spec fn digit_char(d: nat) -> char {
    if d < 10 {
        (48 + d) as u8 as char
    } else {
        (87 + d) as u8 as char
    }
}

/// One of the digits `0-9a-v`.
pub open spec fn is_digit(c: char) -> bool {
    '0' <= c <= '9' || 'a' <= c <= 'v'
}

/// The value of a digit, which may be written in either case.
pub open spec fn digit_value(c: char) -> Option<nat> {
    if '0' <= c <= '9' {
        Some((c as nat - 48) as nat)
    } else if 'a' <= c <= 'v' {
        Some((c as nat - 87) as nat)
    } else if 'A' <= c <= 'V' {
        Some((c as nat - 55) as nat)
    } else {
        None
    }
}

/// The numeral of `n`: no leading zero, and `"0"` for zero.
pub open spec fn b32_digits(n: nat) -> Seq<char>
    decreases n,
{
    if n < 32 {
        seq![digit_char(n)]
    } else {
        b32_digits(n / 32).push(digit_char(n % 32))
    }
}

/// `s` without the `+` that may stand before a numeral. A `+` before another
/// `+` is left where it is.
pub open spec fn unsigned(s: Seq<char>) -> Seq<char> {
    if s.len() > 0 && s[0] == '+' && !(s.len() > 1 && s[1] == '+') {
        s.skip(1)
    } else {
        s
    }
}

/// The number that the digits of `s` write, most significant first, with
/// any `_` between them passed over; `None` when `s` holds anything else.
pub open spec fn digits_value(s: Seq<char>) -> Option<nat>
    decreases s.len(),
{
    if s.len() == 0 {
        Some(0)
    } else {
        match digits_value(s.drop_last()) {
            None => None,
            Some(v) => if s.last() == '_' {
                Some(v)
            } else {
                match digit_value(s.last()) {
                    Some(d) => Some(32 * v + d),
                    None => None,
                }
            },
        }
    }
}

/// The number that `s` writes in base 32: digits in either case, with `_`
/// allowed after the first digit and one `+` before it. The empty string
/// and a lone `+` write no number.
pub open spec fn parse_number(s: Seq<char>) -> Option<nat> {
    let t = unsigned(s);
    if t.len() == 0 || t[0] == '_' {
        None
    } else {
        digits_value(t)
    }
}

/// The digit for a value is a digit of that value, and `0` only for 0.
pub proof fn lemma_digit_char(d: nat)
    requires
        d < 32,
    ensures
        is_digit(digit_char(d)),
        digit_value(digit_char(d)) == Some(d),
        (digit_char(d) == '0') == (d == 0),
{
}

/// The value of a digit as the machine computes it.
pub fn digit_of(c: char) -> (r: Option<u8>)
    ensures
        r is Some == digit_value(c) is Some,
        r is Some ==> r->0 == digit_value(c)->0 && r->0 < 32,
{
    let v = c as u32;
    if 48 <= v && v <= 57 {
        Some((v - 48) as u8)
    } else if 97 <= v && v <= 118 {
        Some((v - 87) as u8)
    } else if 65 <= v && v <= 86 {
        Some((v - 55) as u8)
    } else {
        None
    }
}

/// A numeral is made of digits.
pub proof fn lemma_b32_digits(n: nat)
    ensures
        b32_digits(n).len() >= 1,
        forall|i: int| 0 <= i < b32_digits(n).len() ==> is_digit(#[trigger] b32_digits(n)[i]),
    decreases n,
{
    if n < 32 {
        lemma_digit_char(n);
    } else {
        lemma_b32_digits(n / 32);
        lemma_digit_char(n % 32);
    }
}

/// The digits of a numeral write its number.
pub proof fn lemma_digits_value_of_numeral(n: nat)
    ensures
        digits_value(b32_digits(n)) == Some(n),
    decreases n,
{
    let s = b32_digits(n);
    if n < 32 {
        lemma_digit_char(n);
        assert(s.drop_last() =~= Seq::<char>::empty());
        assert(digits_value(s.drop_last()) == Some(0nat));
    } else {
        lemma_digits_value_of_numeral(n / 32);
        lemma_digit_char(n % 32);
        assert(s.drop_last() =~= b32_digits(n / 32));
    }
}

/// Parsing the numeral of a number gives the number back.
pub proof fn lemma_parse_numeral(n: nat)
    ensures
        parse_number(b32_digits(n)) == Some(n),
{
    lemma_b32_digits(n);
    lemma_digits_value_of_numeral(n);
    let s = b32_digits(n);
    assert(is_digit(s[0]));
    assert(unsigned(s) == s);
}

} // verus!
