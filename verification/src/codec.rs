//! The text form of shares: one line for each share,
//! `<n0>:<modulus>:<residue>`, the numbers in base 32 and the first two
//! with their zeros run-length encoded.

use crate::base32::{b32_digits, is_digit, lemma_b32_digits, lemma_parse_numeral, parse_number};
use crate::bignum::{big_eq, from_str_radix32, to_str_radix32, uval};
use crate::error::Error;
use crate::share::{share_values, ABSharedSecret, SecretShares};
use crate::text::{
    find_char, lemma_trimmed_same, lemma_until, lemma_until_is, push_char, trim, trimmed, until,
};
use crate::zero_rle::{decode, decoded, encode, encoded, lemma_decode_encode, lemma_encoded_digits};
use num::bigint::BigUint;
use vstd::prelude::*;
use vstd::string::StrSliceExecFns;
use vstd::string::StringExecFns;

verus! {

/// The line of one share, without its line break.
pub open spec fn body_of(n0: nat, share: (nat, nat)) -> Seq<char> {
    encoded(b32_digits(n0)) + seq![':'] + encoded(b32_digits(share.1)) + seq![':'] + b32_digits(
        share.0,
    )
}

/// The lines of the shares, each with its line break.
pub open spec fn serialised_lines(n0: nat, shares: Seq<(nat, nat)>) -> Seq<char>
    decreases shares.len(),
{
    if shares.len() == 0 {
        Seq::empty()
    } else {
        serialised_lines(n0, shares.drop_last()) + body_of(n0, shares.last()) + seq!['\n']
    }
}

/// The text of a set of shares.
pub open spec fn serialised(v: SecretShares) -> Seq<char> {
    serialised_lines(v.n0, v.shares)
}

/// The lines of a text: what stands between its line breaks. A line break
/// at the very end starts no further line.
pub open spec fn rows(s: Seq<char>) -> Seq<Seq<char>>
    decreases s.len(),
    via rows_decreases
{
    if s.len() == 0 {
        Seq::empty()
    } else {
        let k = until(s, '\n');
        if k == s.len() {
            seq![s]
        } else {
            seq![s.take(k as int)] + rows(s.skip(k as int + 1))
        }
    }
}

#[via_fn]
proof fn rows_decreases(s: Seq<char>) {
    lemma_until(s, '\n');
}

/// The first three parts of a line, cut at `:` and trimmed; `None` when the
/// line has fewer than three parts. What follows a third `:` is left out.
pub open spec fn parts(line: Seq<char>) -> Option<(Seq<char>, Seq<char>, Seq<char>)> {
    let a = until(line, ':') as int;
    let b = a + 1 + until(line.skip(a + 1), ':');
    let c = b + 1 + until(line.skip(b + 1), ':');
    if a >= line.len() || b >= line.len() {
        None
    } else {
        Some(
            (
                trimmed(line.subrange(0, a)),
                trimmed(line.subrange(a + 1, b)),
                trimmed(line.subrange(b + 1, c)),
            ),
        )
    }
}

/// A run-length encoded numeral read: decoded, then parsed.
pub open spec fn parse_encoded(part: Seq<char>) -> Result<nat, Error> {
    match decoded(part) {
        Err(e) => Err(Error::ZeroRleDecodingError(e)),
        Ok(text) => match parse_number(text) {
            None => Err(Error::NumberFormatError),
            Some(n) => Ok(n),
        },
    }
}

/// What a line says: the public modulus and the share, or the first thing
/// wrong with it. The public modulus is read first, then the residue, then
/// the modulus.
pub open spec fn parse_line(line: Seq<char>) -> Result<(nat, (nat, nat)), Error> {
    match parts(line) {
        None => Err(Error::StringFormatError),
        Some((first, second, third)) => match parse_encoded(first) {
            Err(e) => Err(e),
            Ok(n0) => match parse_number(third) {
                None => Err(Error::NumberFormatError),
                Some(y) => match parse_encoded(second) {
                    Err(e) => Err(e),
                    Ok(p) => Ok((n0, (y, p))),
                },
            },
        },
    }
}

/// What the lines say together: the shares in the order of their lines
/// under the public modulus that all of them name, or the first thing
/// wrong, going down the lines.
pub open spec fn parsed_rows(lines: Seq<Seq<char>>) -> Result<SecretShares, Error>
    decreases lines.len(),
{
    if lines.len() == 0 {
        Err(Error::NoSharesInString)
    } else {
        let before = parsed_rows(lines.drop_last());
        if lines.len() > 1 && before is Err {
            before
        } else {
            match parse_line(lines.last()) {
                Err(e) => Err(e),
                Ok((n0, share)) => if lines.len() == 1 {
                    Ok(SecretShares { n0, shares: seq![share] })
                } else if n0 != before->Ok_0.n0 {
                    Err(Error::N0NotSameInAllShares)
                } else {
                    Ok(SecretShares { n0, shares: before->Ok_0.shares.push(share) })
                },
            }
        }
    }
}

/// What a text says.
pub open spec fn parsed(s: Seq<char>) -> Result<SecretShares, Error> {
    parsed_rows(rows(s))
}

/// Reads a run-length encoded numeral.
fn read_encoded(part: &str) -> (r: Result<BigUint, Error>)
    ensures
        r is Ok <==> parse_encoded(part@) is Ok,
        r matches Ok(n) ==> parse_encoded(part@) == Ok::<nat, Error>(uval(n)),
        r matches Err(e) ==> parse_encoded(part@) == Err::<nat, Error>(e),
{
    match decode(part) {
        Err(e) => Err(Error::ZeroRleDecodingError(e)),
        Ok(text) => match from_str_radix32(text.as_str()) {
            Err(_) => Err(Error::NumberFormatError),
            Ok(n) => Ok(n),
        },
    }
}

/// Reads one line.
fn read_line(line: &str) -> (r: Result<(BigUint, (BigUint, BigUint)), Error>)
    ensures
        r is Ok <==> parse_line(line@) is Ok,
        r matches Ok(v) ==> parse_line(line@) == Ok::<(nat, (nat, nat)), Error>(
            (uval(v.0), (uval(v.1.0), uval(v.1.1))),
        ),
        r matches Err(e) ==> parse_line(line@) == Err::<(nat, (nat, nat)), Error>(e),
{
    let n = line.unicode_len();
    let a = find_char(line, 0, ':');
    assert(line@.skip(0) =~= line@);
    if a >= n {
        return Err(Error::StringFormatError);
    }
    let b = find_char(line, a + 1, ':');
    if b >= n {
        return Err(Error::StringFormatError);
    }
    let c = find_char(line, b + 1, ':');
    let first = trim(line.substring_char(0, a));
    let second = trim(line.substring_char(a + 1, b));
    let third = trim(line.substring_char(b + 1, c));
    let n0 = match read_encoded(first) {
        Err(e) => {
            return Err(e);
        },
        Ok(n0) => n0,
    };
    let y = match from_str_radix32(third) {
        Err(_) => {
            return Err(Error::NumberFormatError);
        },
        Ok(y) => y,
    };
    let p = match read_encoded(second) {
        Err(e) => {
            return Err(e);
        },
        Ok(p) => p,
    };
    Ok((n0, (y, p)))
}

impl ABSharedSecret {
    /// The text of the shares, one line for each.
    pub fn to_string(&self) -> (res: String)
        ensures
            res@ == serialised(self@),
    {
        let mut res = String::new();
        let n0 = to_str_radix32(&self.n0);
        let first = encode(n0.as_str());
        let mut i: usize = 0;
        let ghost all = share_values(self.shares@);
        assert(all.take(0) =~= Seq::<(nat, nat)>::empty());
        while i < self.shares.len()
            invariant
                i <= self.shares.len(),
                all == share_values(self.shares@),
                first@ == encoded(b32_digits(uval(self.n0))),
                res@ == serialised_lines(uval(self.n0), all.take(i as int)),
            decreases self.shares.len() - i,
        {
            let s = &self.shares[i];
            let v = to_str_radix32(&s.0);
            let n = to_str_radix32(&s.1);
            let second = encode(n.as_str());
            let ghost before = res@;
            res.append(first.as_str());
            push_char(&mut res, ':');
            res.append(second.as_str());
            push_char(&mut res, ':');
            res.append(v.as_str());
            push_char(&mut res, '\n');
            proof {
                let now = all.take(i + 1);
                assert(now.drop_last() =~= all.take(i as int));
                assert(now.last() == (uval(s.0), uval(s.1)));
                assert(res@ =~= before + body_of(uval(self.n0), now.last()) + seq!['\n']);
            }
            i += 1;
        }
        assert(all.take(i as int) =~= all);
        res
    }

    /// The shares that a text holds, line by line; what this returns is
    /// what [`parsed`] says of the text.
    pub fn from_str(s: &str) -> (res: Result<Self, Error>)
        ensures
            res is Ok <==> parsed(s@) is Ok,
            res matches Ok(v) ==> parsed(s@) == Ok::<SecretShares, Error>(v@),
            res matches Err(e) ==> parsed(s@) == Err::<SecretShares, Error>(e),
    {
        let n = s.unicode_len();
        let mut n0: Option<BigUint> = None;
        let mut shares: Vec<(BigUint, BigUint)> = Vec::new();
        let mut at: usize = 0;
        let ghost mut done: Seq<Seq<char>> = Seq::empty();
        assert(s@.skip(0) =~= s@);
        assert(done + rows(s@) =~= rows(s@));
        while at < n
            invariant
                n == s@.len(),
                at <= n,
                rows(s@) == done + rows(s@.skip(at as int)),
                done.len() == shares@.len(),
                done.len() == 0 <==> n0 is None,
                done.len() > 0 ==> parsed_rows(done) == Ok::<SecretShares, Error>(
                    SecretShares { n0: uval(n0->0), shares: share_values(shares@) },
                ),
            decreases n - at,
        {
            let end = find_char(s, at, '\n');
            let line = s.substring_char(at, end);
            let ghost rest = s@.skip(at as int);
            let ghost tail = if end < n {
                rest.skip(end - at + 1)
            } else {
                Seq::<char>::empty()
            };
            let ghost seen = done.push(line@);
            proof {
                assert(rest.take(end - at) =~= line@);
                if end == n {
                    assert(rest =~= line@);
                    assert(rows(rest) =~= seq![line@] + rows(tail));
                }
                assert(done + rows(rest) =~= seen + rows(tail));
                assert(seen.drop_last() =~= done);
            }
            match read_line(line) {
                Err(e) => {
                    proof {
                        lemma_error_stays(seen, rows(tail));
                    }
                    return Err(e);
                },
                Ok((n0_tmp, share)) => {
                    let ghost before = share_values(shares@);
                    shares.push(share);
                    assert(share_values(shares@) =~= before.push((uval(share.0), uval(share.1))));
                    match &n0 {
                        None => {
                            assert(share_values(shares@) =~= seq![(uval(share.0), uval(share.1))]);
                            n0 = Some(n0_tmp);
                        },
                        Some(known) => {
                            if !big_eq(&n0_tmp, known) {
                                proof {
                                    lemma_error_stays(seen, rows(tail));
                                }
                                return Err(Error::N0NotSameInAllShares);
                            }
                        },
                    }
                },
            }
            proof {
                done = seen;
                if end < n {
                    assert(tail =~= s@.skip(end + 1));
                } else {
                    assert(tail =~= s@.skip(end as int));
                }
            }
            at = if end < n {
                end + 1
            } else {
                end
            };
        }
        proof {
            assert(s@.skip(at as int) =~= Seq::<char>::empty());
            assert(done + Seq::<Seq<char>>::empty() =~= done);
        }
        match n0 {
            None => Err(Error::NoSharesInString),
            Some(n0) => Ok(ABSharedSecret { n0, shares }),
        }
    }
}

/// What is wrong with some lines is still the first thing wrong when more
/// lines follow them.
pub proof fn lemma_error_stays(lines: Seq<Seq<char>>, more: Seq<Seq<char>>)
    requires
        lines.len() > 0,
        parsed_rows(lines) is Err,
    ensures
        parsed_rows(lines + more) == parsed_rows(lines),
    decreases more.len(),
{
    if more.len() == 0 {
        assert(lines + more =~= lines);
    } else {
        lemma_error_stays(lines, more.drop_last());
        assert((lines + more).drop_last() =~= lines + more.drop_last());
    }
}

/// Three strings of digits joined by `:` are cut into those three.
pub proof fn lemma_parts_of_joined(first: Seq<char>, second: Seq<char>, third: Seq<char>)
    requires
        forall|i: int| 0 <= i < first.len() ==> is_digit(#[trigger] first[i]),
        forall|i: int| 0 <= i < second.len() ==> is_digit(#[trigger] second[i]),
        forall|i: int| 0 <= i < third.len() ==> is_digit(#[trigger] third[i]),
    ensures
        parts(first + seq![':'] + second + seq![':'] + third) == Some((first, second, third)),
{
    let line = first + seq![':'] + second + seq![':'] + third;
    let a = first.len() as int;
    let b = a + 1 + second.len();
    let c = b + 1 + third.len();
    assert forall|i: int| 0 <= i < a implies line[i] != ':' by {
        assert(is_digit(first[i]));
    }
    lemma_until_is(line, ':', a as nat);
    let after_first = line.skip(a + 1);
    assert forall|i: int| 0 <= i < second.len() implies after_first[i] != ':' by {
        assert(is_digit(second[i]));
    }
    lemma_until_is(after_first, ':', second.len());
    let after_second = line.skip(b + 1);
    assert(after_second =~= third);
    assert forall|i: int| 0 <= i < third.len() implies after_second[i] != ':' by {
        assert(is_digit(third[i]));
    }
    lemma_until_is(after_second, ':', third.len());
    assert(line.subrange(0, a) =~= first);
    assert(line.subrange(a + 1, b) =~= second);
    assert(line.subrange(b + 1, c) =~= third);
    if first.len() > 0 {
        assert(is_digit(first[0]) && is_digit(first[first.len() - 1]));
    }
    if second.len() > 0 {
        assert(is_digit(second[0]) && is_digit(second[second.len() - 1]));
    }
    if third.len() > 0 {
        assert(is_digit(third[0]) && is_digit(third[third.len() - 1]));
    }
    lemma_trimmed_same(first);
    lemma_trimmed_same(second);
    lemma_trimmed_same(third);
}

/// The line of a share says that share.
pub proof fn lemma_parse_body(n0: nat, share: (nat, nat))
    ensures
        parse_line(body_of(n0, share)) == Ok::<(nat, (nat, nat)), Error>((n0, share)),
        forall|i: int| 0 <= i < body_of(n0, share).len() ==> #[trigger] body_of(n0, share)[i] != '\n',
{
    let first = encoded(b32_digits(n0));
    let second = encoded(b32_digits(share.1));
    let third = b32_digits(share.0);
    lemma_b32_digits(n0);
    lemma_b32_digits(share.1);
    lemma_b32_digits(share.0);
    lemma_encoded_digits(b32_digits(n0));
    lemma_encoded_digits(b32_digits(share.1));
    lemma_parts_of_joined(first, second, third);
    lemma_decode_encode(b32_digits(n0));
    lemma_decode_encode(b32_digits(share.1));
    lemma_parse_numeral(n0);
    lemma_parse_numeral(share.1);
    lemma_parse_numeral(share.0);
    let body = body_of(n0, share);
    assert forall|i: int| 0 <= i < body.len() implies #[trigger] body[i] != '\n' by {
        let a = first.len() as int;
        let b = a + 1 + second.len();
        if i < a {
            assert(is_digit(first[i]));
        } else if a < i < b {
            assert(is_digit(second[i - a - 1]));
        } else if i > b {
            assert(is_digit(third[i - b - 1]));
        }
    }
}

/// A text that is empty or ends with a line break, followed by one more
/// line with its line break, has the lines of the text and then that line.
pub proof fn lemma_rows_append(text: Seq<char>, body: Seq<char>)
    requires
        text.len() == 0 || text.last() == '\n',
        forall|i: int| 0 <= i < body.len() ==> #[trigger] body[i] != '\n',
    ensures
        rows(text + body + seq!['\n']) == rows(text).push(body),
    decreases text.len(),
{
    let whole = text + body + seq!['\n'];
    if text.len() == 0 {
        assert(whole =~= body + seq!['\n']);
        lemma_until_is(whole, '\n', body.len());
        assert(whole.take(body.len() as int) =~= body);
        assert(whole.skip(body.len() as int + 1) =~= Seq::<char>::empty());
        assert(rows(whole) == seq![body] + rows(Seq::<char>::empty()));
        assert(rows(text) =~= Seq::<Seq<char>>::empty());
        assert(seq![body] + Seq::<Seq<char>>::empty() =~= Seq::<Seq<char>>::empty().push(body));
    } else {
        lemma_until(text, '\n');
        let k = until(text, '\n');
        assert(k < text.len()) by {
            if k == text.len() {
                assert(text[text.len() - 1] != '\n');
            }
        }
        assert forall|i: int| 0 <= i < k implies whole[i] != '\n' by {
            assert(whole[i] == text[i]);
        }
        lemma_until_is(whole, '\n', k);
        let rest = text.skip(k as int + 1);
        assert(whole.skip(k as int + 1) =~= rest + body + seq!['\n']);
        assert(whole.take(k as int) =~= text.take(k as int));
        if rest.len() > 0 {
            assert(rest.last() == text.last());
        }
        lemma_rows_append(rest, body);
        assert(rows(text) == seq![text.take(k as int)] + rows(rest));
        assert(rows(whole) == seq![whole.take(k as int)] + rows(whole.skip(k as int + 1)));
        assert(seq![text.take(k as int)] + rows(rest).push(body) =~= (seq![text.take(k as int)]
            + rows(rest)).push(body));
    }
}

/// The lines of a set of shares, without their line breaks.
pub open spec fn bodies(n0: nat, shares: Seq<(nat, nat)>) -> Seq<Seq<char>> {
    shares.map_values(|share: (nat, nat)| body_of(n0, share))
}

/// The text of a set of shares is cut into the lines of the shares.
pub proof fn lemma_rows_serialised(n0: nat, shares: Seq<(nat, nat)>)
    ensures
        rows(serialised_lines(n0, shares)) == bodies(n0, shares),
        serialised_lines(n0, shares).len() == 0 || serialised_lines(n0, shares).last() == '\n',
    decreases shares.len(),
{
    if shares.len() == 0 {
        assert(bodies(n0, shares) =~= Seq::<Seq<char>>::empty());
    } else {
        let init = shares.drop_last();
        lemma_rows_serialised(n0, init);
        lemma_parse_body(n0, shares.last());
        lemma_rows_append(serialised_lines(n0, init), body_of(n0, shares.last()));
        assert(bodies(n0, shares) =~= bodies(n0, init).push(body_of(n0, shares.last())));
    }
}

/// The lines of a set of shares say those shares.
pub proof fn lemma_parsed_bodies(n0: nat, shares: Seq<(nat, nat)>)
    requires
        shares.len() > 0,
    ensures
        parsed_rows(bodies(n0, shares)) == Ok::<SecretShares, Error>(SecretShares { n0, shares }),
    decreases shares.len(),
{
    let lines = bodies(n0, shares);
    let init = shares.drop_last();
    lemma_parse_body(n0, shares.last());
    assert(lines.drop_last() =~= bodies(n0, init));
    assert(lines.last() == body_of(n0, shares.last()));
    if shares.len() == 1 {
        assert(shares =~= seq![shares.last()]);
    } else {
        lemma_parsed_bodies(n0, init);
        assert(init.push(shares.last()) =~= shares);
    }
}

/// Parsing undoes serialising: the text of a set of shares that holds a
/// share says that set. (The text of no shares is empty and says nothing.)
pub proof fn lemma_parse_serialised(v: SecretShares)
    requires
        v.shares.len() > 0,
    ensures
        parsed(serialised(v)) == Ok::<SecretShares, Error>(v),
{
    lemma_rows_serialised(v.n0, v.shares);
    lemma_parsed_bodies(v.n0, v.shares);
}

} // verus!
