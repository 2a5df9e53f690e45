//! Run-length encoding of the zeros in a digit string.
//!
//! A run of `k` zeros, `k` at most 1023, is written as `0xy`, where `xy` is
//! `k` as two base-32 digits; longer runs are split. Every other character
//! stands for itself.

use crate::base32::{b32_digits, digit_char, digit_of, digit_value, is_digit, lemma_digit_char};
use crate::bignum::{from_u64, to_str_radix32};
use crate::text::push_char;
use vstd::prelude::*;
use vstd::string::StrSliceExecFns;
use vstd::string::StringExecFns;

verus! {

/// Why a string could not be decoded.
#[derive(Debug, PartialEq, Eq, Clone, Copy)]
pub enum Error {
    /// The string ends inside a run marker.
    DecodingError,
    /// The two characters after a `0` are not a base-32 number.
    DecodingErrorInvalidZerosCount,
}

/// The longest run that one marker can hold.
pub const MAX_ZEROS: u16 = 1023;

/// `k` zeros.
pub open spec fn zeros(k: nat) -> Seq<char> {
    Seq::new(k, |i: int| '0')
}

/// The number of zeros that `s` starts with.
pub open spec fn zero_run(s: Seq<char>) -> nat
    decreases s.len(),
{
    if s.len() > 0 && s[0] == '0' {
        1 + zero_run(s.skip(1))
    } else {
        0
    }
}

/// The marker for a run of `k` zeros.
pub open spec fn run_marker(k: nat) -> Seq<char> {
    seq!['0', digit_char(k / 32), digit_char(k % 32)]
}

/// The encoding of `s`.
pub open spec fn encoded(s: Seq<char>) -> Seq<char>
    decreases s.len(),
    via encoded_decreases
{
    if s.len() == 0 {
        Seq::empty()
    } else if s[0] != '0' {
        seq![s[0]] + encoded(s.skip(1))
    } else {
        let k = if zero_run(s) <= MAX_ZEROS { zero_run(s) } else { MAX_ZEROS as nat };
        run_marker(k) + encoded(s.skip(k as int))
    }
}

#[via_fn]
proof fn encoded_decreases(s: Seq<char>) {
    lemma_zero_run(s);
}

/// The run length that the two characters after a `0` stand for: two
/// base-32 digits in either case, or a `+` and one digit.
pub open spec fn zeros_count(c1: char, c2: char) -> Option<nat> {
    if c1 == '+' {
        digit_value(c2)
    } else if digit_value(c1) is Some && digit_value(c2) is Some {
        Some(32 * digit_value(c1)->0 + digit_value(c2)->0)
    } else {
        None
    }
}

/// `prefix` put before a decoded rest, or the rest's error.
pub open spec fn prepend(prefix: Seq<char>, rest: Result<Seq<char>, Error>) -> Result<
    Seq<char>,
    Error,
> {
    match rest {
        Ok(r) => Ok(prefix + r),
        Err(e) => Err(e),
    }
}

/// What `s` decodes to, or the first error met from the left.
pub open spec fn decoded(s: Seq<char>) -> Result<Seq<char>, Error>
    decreases s.len(),
{
    if s.len() == 0 {
        Ok(Seq::empty())
    } else if s[0] != '0' {
        prepend(seq![s[0]], decoded(s.skip(1)))
    } else if s.len() < 3 {
        Err(Error::DecodingError)
    } else {
        match zeros_count(s[1], s[2]) {
            None => Err(Error::DecodingErrorInvalidZerosCount),
            Some(k) => prepend(zeros(k), decoded(s.skip(3))),
        }
    }
}

/// `zeros(k)` before a string makes its run of zeros `k` longer, and the
/// run is made of zeros.
pub proof fn lemma_zero_run(s: Seq<char>)
    ensures
        zero_run(s) <= s.len(),
        forall|i: int| 0 <= i < zero_run(s) ==> s[i] == '0',
        zero_run(s) < s.len() ==> s[zero_run(s) as int] != '0',
        s.take(zero_run(s) as int) =~= zeros(zero_run(s)),
    decreases s.len(),
{
    if s.len() > 0 && s[0] == '0' {
        lemma_zero_run(s.skip(1));
        assert forall|i: int| 0 <= i < zero_run(s) implies s[i] == '0' by {
            if i > 0 {
                assert(s.skip(1)[i - 1] == s[i]);
            }
        }
        if zero_run(s) < s.len() {
            assert(s.skip(1)[zero_run(s.skip(1)) as int] == s[zero_run(s) as int]);
        }
    }
}

/// The run of `zeros(c) + t` is `c` more than that of `t`.
pub proof fn lemma_zero_run_prefix(c: nat, t: Seq<char>)
    ensures
        zero_run(zeros(c) + t) == c + zero_run(t),
    decreases c,
{
    let s = zeros(c) + t;
    if c == 0 {
        assert(s =~= t);
    } else {
        assert(s.skip(1) =~= zeros((c - 1) as nat) + t);
        lemma_zero_run_prefix((c - 1) as nat, t);
    }
}

/// A pending run of `c` zeros that is followed by another character, by the
/// end, or that is full, is encoded as one marker.
pub proof fn lemma_encoded_run(c: nat, t: Seq<char>)
    requires
        0 < c <= MAX_ZEROS,
        t.len() == 0 || t[0] != '0' || c == MAX_ZEROS,
    ensures
        encoded(zeros(c) + t) == run_marker(c) + encoded(t),
{
    let s = zeros(c) + t;
    lemma_zero_run_prefix(c, t);
    assert(s[0] == '0');
    assert(s.skip(c as int) =~= t);
}

/// Writes the marker for a pending run, if there is one, and starts anew.
fn push_zero(s: &mut String, count: &mut u16)
    requires
        *old(count) <= MAX_ZEROS,
    ensures
        *final(count) == 0,
        final(s)@ == old(s)@ + (if *old(count) == 0 {
            Seq::<char>::empty()
        } else {
            run_marker(*old(count) as nat)
        }),
{
    if *count == 0 {
        assert(s@ + Seq::<char>::empty() =~= s@);
        return ;
    }
    let ghost before = s@;
    let ghost c = *count as nat;
    push_char(s, '0');
    let n = to_str_radix32(&from_u64(*count as u64));
    proof {
        reveal_with_fuel(b32_digits, 3);
        lemma_digit_char(0);
        assert(c < 32 ==> n@ =~= seq![digit_char(c)]);
        assert(c >= 32 ==> n@ =~= seq![digit_char(c / 32), digit_char(c % 32)]);
    }
    if n.as_str().unicode_len() == 1 {
        push_char(s, '0');
    }
    s.append(n.as_str());
    *count = 0;
    assert(s@ =~= before + run_marker(c));
}

/// Encodes the runs of zeros in `i`.
pub fn encode(i: &str) -> (res: String)
    ensures
        res@ == encoded(i@),
{
    let mut zero_count: u16 = 0;
    let mut res = String::new();
    let n = i.unicode_len();
    let mut k: usize = 0;
    assert(zeros(0) + i@.skip(0) =~= i@);
    while k < n
        invariant
            n == i@.len(),
            k <= n,
            zero_count <= MAX_ZEROS,
            encoded(i@) == res@ + encoded(zeros(zero_count as nat) + i@.skip(k as int)),
        decreases n - k,
    {
        let ch = i.get_char(k);
        let ghost rest = i@.skip(k as int);
        let ghost tail = i@.skip(k + 1);
        let ghost pending = zeros(zero_count as nat);
        let ghost before = res@;
        assert(rest =~= seq![ch] + tail);
        if ch == '0' {
            if zero_count == MAX_ZEROS {
                proof {
                    lemma_encoded_run(zero_count as nat, rest);
                    assert(zeros(0) + rest =~= rest);
                }
                push_zero(&mut res, &mut zero_count);
            }
            assert(zeros(zero_count as nat) + rest =~= zeros((zero_count + 1) as nat) + tail);
            zero_count += 1;
        } else {
            proof {
                if zero_count > 0 {
                    lemma_encoded_run(zero_count as nat, rest);
                } else {
                    assert(pending + rest =~= rest);
                }
                assert(rest.skip(1) =~= tail);
                assert(zeros(0) + tail =~= tail);
            }
            push_zero(&mut res, &mut zero_count);
            push_char(&mut res, ch);
            assert(encoded(rest) == seq![ch] + encoded(tail));
            assert(encoded(i@) =~= res@ + encoded(tail));
        }
        k += 1;
    }
    proof {
        assert(i@.skip(k as int) =~= Seq::<char>::empty());
        let pending = zeros(zero_count as nat);
        assert(pending + Seq::<char>::empty() =~= pending);
        if zero_count > 0 {
            lemma_encoded_run(zero_count as nat, Seq::empty());
        }
    }
    push_zero(&mut res, &mut zero_count);
    assert(res@ =~= encoded(i@));
    res
}

/// The run length written by two characters, as `zeros_count` defines it.
fn parse_count(c1: char, c2: char) -> (r: Option<u16>)
    ensures
        r is Some == zeros_count(c1, c2) is Some,
        r is Some ==> r->0 == zeros_count(c1, c2)->0 && r->0 <= MAX_ZEROS,
{
    let low = digit_of(c2);
    if c1 == '+' {
        return match low {
            Some(d) => Some(d as u16),
            None => None,
        };
    }
    match (digit_of(c1), low) {
        (Some(h), Some(l)) => Some(32 * (h as u16) + (l as u16)),
        _ => None,
    }
}

/// Decodes the run markers in `i`; what this returns is what
/// [`decoded`] says, character for character and error for error.
///
/// Two characters cannot write a count above [`MAX_ZEROS`], so a count is
/// refused only for what it is written with.
pub fn decode(i: &str) -> (res: Result<String, Error>)
    ensures
        match res {
            Ok(s) => decoded(i@) == Ok::<Seq<char>, Error>(s@),
            Err(e) => decoded(i@) == Err::<Seq<char>, Error>(e),
        },
{
    let mut res = String::new();
    // 0: outside a marker; 1: after its `0`; 2: after its first count character
    let mut state: u8 = 0;
    let mut first: char = '0';
    let n = i.unicode_len();
    let mut k: usize = 0;
    assert(i@.skip(0) =~= i@);
    assert(Seq::<char>::empty() + i@ =~= i@);
    proof {
        lemma_prepend_empty(decoded(i@));
    }
    while k < n
        invariant
            n == i@.len(),
            k <= n,
            state <= 2,
            state <= k,
            decoded(i@) == prepend(res@, decoded(i@.skip(k - state))),
            state >= 1 ==> i@[k - state] == '0',
            state == 2 ==> first == i@[k - 1],
        decreases n - k,
    {
        let ch = i.get_char(k);
        let ghost token = i@.skip(k - state);
        let ghost before = res@;
        if state == 0 {
            if ch == '0' {
                state = 1;
            } else {
                push_char(&mut res, ch);
                proof {
                    assert(token[0] == ch);
                    assert(decoded(token) == prepend(seq![ch], decoded(token.skip(1))));
                    assert(token.skip(1) =~= i@.skip(k + 1));
                    lemma_prepend_twice(before, seq![ch], decoded(i@.skip(k + 1)));
                    assert(res@ =~= before + seq![ch]);
                }
            }
        } else if state == 1 {
            first = ch;
            state = 2;
        } else {
            assert(token[0] == '0' && token[1] == first && token[2] == ch);
            assert(token.skip(3) =~= i@.skip(k + 1));
            assert(decoded(token) == match zeros_count(first, ch) {
                None => Err(Error::DecodingErrorInvalidZerosCount),
                Some(c) => prepend(zeros(c), decoded(token.skip(3))),
            });
            match parse_count(first, ch) {
                None => {
                    return Err(Error::DecodingErrorInvalidZerosCount);
                },
                Some(c) => {
                    let mut j: u16 = 0;
                    while j < c
                        invariant
                            j <= c,
                            res@ == before + zeros(j as nat),
                        decreases c - j,
                    {
                        push_char(&mut res, '0');
                        j += 1;
                        assert(res@ =~= before + zeros(j as nat));
                    }
                    proof {
                        lemma_prepend_twice(before, zeros(c as nat), decoded(i@.skip(k + 1)));
                    }
                    state = 0;
                },
            }
        }
        k += 1;
    }
    if state != 0 {
        assert(i@.skip(k - state).len() < 3);
        return Err(Error::DecodingError);
    }
    proof {
        assert(i@.skip(k as int) =~= Seq::<char>::empty());
        assert(res@ + Seq::<char>::empty() =~= res@);
    }
    Ok(res)
}

/// Nothing put before a decoded rest leaves it as it is.
pub proof fn lemma_prepend_empty(rest: Result<Seq<char>, Error>)
    ensures
        prepend(Seq::empty(), rest) == rest,
{
    if let Ok(r) = rest {
        assert(Seq::<char>::empty() + r =~= r);
    }
}

/// Putting `b` and then `a` before a decoded rest puts `a + b` before it.
pub proof fn lemma_prepend_twice(a: Seq<char>, b: Seq<char>, rest: Result<Seq<char>, Error>)
    ensures
        prepend(a, prepend(b, rest)) == prepend(a + b, rest),
{
    if let Ok(r) = rest {
        assert(a + (b + r) =~= (a + b) + r);
    }
}

/// Decoding undoes encoding, whatever the string holds.
pub proof fn lemma_decode_encode(x: Seq<char>)
    ensures
        decoded(encoded(x)) == Ok::<Seq<char>, Error>(x),
    decreases x.len(),
{
    if x.len() == 0 {
        assert(x =~= Seq::<char>::empty());
    } else if x[0] != '0' {
        let rest = x.skip(1);
        lemma_decode_encode(rest);
        let e = encoded(x);
        assert(e == seq![x[0]] + encoded(rest));
        assert(e[0] == x[0]);
        assert(e.skip(1) =~= encoded(rest));
        assert(seq![x[0]] + rest =~= x);
        assert(decoded(e) == prepend(seq![x[0]], decoded(e.skip(1))));
    } else {
        lemma_zero_run(x);
        let k = if zero_run(x) <= MAX_ZEROS { zero_run(x) } else { MAX_ZEROS as nat };
        let rest = x.skip(k as int);
        lemma_decode_encode(rest);
        let e = encoded(x);
        assert(e == run_marker(k) + encoded(rest));
        assert(e[0] == '0' && e[1] == digit_char(k / 32) && e[2] == digit_char(k % 32));
        assert(e.skip(3) =~= encoded(rest));
        lemma_digit_char(k / 32);
        lemma_digit_char(k % 32);
        assert(zeros_count(e[1], e[2]) == Some(k));
        assert(decoded(e) == prepend(zeros(k), decoded(e.skip(3))));
        assert(zeros(k) + rest =~= x);
    }
}

/// The encoding of a string of digits is a string of digits.
pub proof fn lemma_encoded_digits(s: Seq<char>)
    requires
        forall|i: int| 0 <= i < s.len() ==> is_digit(#[trigger] s[i]),
    ensures
        forall|i: int| 0 <= i < encoded(s).len() ==> is_digit(#[trigger] encoded(s)[i]),
    decreases s.len(),
{
    if s.len() == 0 {
    } else if s[0] != '0' {
        let rest = s.skip(1);
        assert forall|i: int| 0 <= i < rest.len() implies is_digit(#[trigger] rest[i]) by {
            assert(rest[i] == s[i + 1]);
        }
        lemma_encoded_digits(rest);
        let e = encoded(s);
        assert(e == seq![s[0]] + encoded(rest));
        assert forall|i: int| 0 <= i < e.len() implies is_digit(#[trigger] e[i]) by {
            if i >= 1 {
                assert(e[i] == encoded(rest)[i - 1]);
            } else {
                assert(is_digit(s[0]));
            }
        }
    } else {
        lemma_zero_run(s);
        let k = if zero_run(s) <= MAX_ZEROS { zero_run(s) } else { MAX_ZEROS as nat };
        let rest = s.skip(k as int);
        assert forall|i: int| 0 <= i < rest.len() implies is_digit(#[trigger] rest[i]) by {
            assert(rest[i] == s[i + k]);
        }
        lemma_encoded_digits(rest);
        lemma_digit_char(k / 32);
        lemma_digit_char(k % 32);
        let e = encoded(s);
        assert(e == run_marker(k) + encoded(rest));
        assert forall|i: int| 0 <= i < e.len() implies is_digit(#[trigger] e[i]) by {
            if i >= 3 {
                assert(e[i] == encoded(rest)[i - 3]);
            } else {
                assert(e[i] == run_marker(k)[i]);
            }
        }
    }
}

} // verus!
