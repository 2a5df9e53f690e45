//! Cutting and building of strings, character by character.
//!
//! All of it is proved but [`push_char`], which states what `String::push`
//! does.

use vstd::prelude::*;
use vstd::string::StrSliceExecFns;

verus! {

/// `String::push`: the string with the character appended. Stated, not
/// proved.
#[verifier::external_body]
pub(crate) fn push_char(s: &mut String, c: char)
    ensures
        final(s)@ == old(s)@.push(c),
{
    s.push(c)
}

/// The length of the part of `s` before the first `c`, or of all of `s`
/// when it holds no `c`.
pub open spec fn until(s: Seq<char>, c: char) -> nat
    decreases s.len(),
{
    if s.len() == 0 || s[0] == c {
        0
    } else {
        1 + until(s.skip(1), c)
    }
}

/// The part before the first `c` holds no `c`, and ends at a `c` or at the
/// end.
pub proof fn lemma_until(s: Seq<char>, c: char)
    ensures
        until(s, c) <= s.len(),
        forall|i: int| 0 <= i < until(s, c) ==> s[i] != c,
        until(s, c) < s.len() ==> s[until(s, c) as int] == c,
    decreases s.len(),
{
    if s.len() > 0 && s[0] != c {
        lemma_until(s.skip(1), c);
        assert forall|i: int| 0 <= i < until(s, c) implies s[i] != c by {
            if i > 0 {
                assert(s.skip(1)[i - 1] == s[i]);
            }
        }
    }
}

/// The first `c` is where no `c` stands before and one stands at, or at the
/// end.
pub proof fn lemma_until_is(s: Seq<char>, c: char, k: nat)
    requires
        k <= s.len(),
        forall|i: int| 0 <= i < k ==> s[i] != c,
        k < s.len() ==> s[k as int] == c,
    ensures
        until(s, c) == k,
    decreases s.len(),
{
    if k > 0 {
        let t = s.skip(1);
        assert forall|i: int| 0 <= i < k - 1 implies t[i] != c by {
            assert(t[i] == s[i + 1]);
        }
        lemma_until_is(t, c, (k - 1) as nat);
    }
}

/// White space as Unicode defines it.
pub open spec fn is_space(c: char) -> bool {
    let v = c as u32;
    ||| 0x09 <= v <= 0x0d
    ||| v == 0x20
    ||| v == 0x85
    ||| v == 0xa0
    ||| v == 0x1680
    ||| 0x2000 <= v <= 0x200a
    ||| v == 0x2028
    ||| v == 0x2029
    ||| v == 0x202f
    ||| v == 0x205f
    ||| v == 0x3000
}

/// The number of white-space characters that `s` starts with.
pub open spec fn leading_spaces(s: Seq<char>) -> nat
    decreases s.len(),
{
    if s.len() == 0 || !is_space(s[0]) {
        0
    } else {
        1 + leading_spaces(s.skip(1))
    }
}

/// The number of white-space characters that `s` ends with.
pub open spec fn trailing_spaces(s: Seq<char>) -> nat
    decreases s.len(),
{
    if s.len() == 0 || !is_space(s.last()) {
        0
    } else {
        1 + trailing_spaces(s.drop_last())
    }
}

/// Where the leading white space ends is where only white space stands
/// before and none, or the end, follows.
pub proof fn lemma_leading_is(s: Seq<char>, k: nat)
    requires
        k <= s.len(),
        forall|i: int| 0 <= i < k ==> is_space(s[i]),
        k < s.len() ==> !is_space(s[k as int]),
    ensures
        leading_spaces(s) == k,
    decreases s.len(),
{
    if k > 0 {
        let t = s.skip(1);
        assert forall|i: int| 0 <= i < k - 1 implies is_space(t[i]) by {
            assert(t[i] == s[i + 1]);
        }
        lemma_leading_is(t, (k - 1) as nat);
    }
}

/// Where the trailing white space starts is where only white space follows
/// and none, or the start, stands before.
pub proof fn lemma_trailing_is(s: Seq<char>, k: nat)
    requires
        k <= s.len(),
        forall|i: int| s.len() - k <= i < s.len() ==> is_space(s[i]),
        k < s.len() ==> !is_space(s[s.len() - k - 1]),
    ensures
        trailing_spaces(s) == k,
    decreases s.len(),
{
    if k > 0 {
        let t = s.drop_last();
        assert forall|i: int| t.len() - (k - 1) <= i < t.len() implies is_space(t[i]) by {
            assert(t[i] == s[i]);
        }
        lemma_trailing_is(t, (k - 1) as nat);
    }
}

/// `s` without the white space at its ends.
pub open spec fn trimmed(s: Seq<char>) -> Seq<char> {
    let t = s.skip(leading_spaces(s) as int);
    t.take(t.len() - trailing_spaces(t))
}

/// A string with no white space at its ends is its own trimming.
pub proof fn lemma_trimmed_same(s: Seq<char>)
    requires
        s.len() > 0 ==> !is_space(s[0]) && !is_space(s.last()),
    ensures
        trimmed(s) == s,
{
    lemma_leading_is(s, 0);
    assert(s.skip(0) =~= s);
    lemma_trailing_is(s, 0);
    assert(s.take(s.len() as int) =~= s);
}

/// Whether `c` is white space.
pub fn char_is_space(c: char) -> (r: bool)
    ensures
        r == is_space(c),
{
    let v = c as u32;
    (0x09 <= v && v <= 0x0d) || v == 0x20 || v == 0x85 || v == 0xa0 || v == 0x1680 || (0x2000 <= v
        && v <= 0x200a) || v == 0x2028 || v == 0x2029 || v == 0x202f || v == 0x205f || v == 0x3000
}

/// The place of the first `c` in `s` at or after `from`, or the length of
/// `s` when there is none.
pub fn find_char(s: &str, from: usize, c: char) -> (r: usize)
    requires
        from <= s@.len(),
    ensures
        r == from + until(s@.skip(from as int), c),
        r <= s@.len(),
{
    let n = s.unicode_len();
    let mut k: usize = from;
    while k < n && s.get_char(k) != c
        invariant
            n == s@.len(),
            from <= k <= n,
            forall|i: int| from <= i < k ==> s@[i] != c,
        decreases n - k,
    {
        k += 1;
    }
    proof {
        lemma_until_is(s@.skip(from as int), c, (k - from) as nat);
    }
    k
}

/// `s` without the white space at its ends.
pub fn trim(s: &str) -> (r: &str)
    ensures
        r@ == trimmed(s@),
{
    let n = s.unicode_len();
    let mut lo: usize = 0;
    while lo < n && char_is_space(s.get_char(lo))
        invariant
            n == s@.len(),
            lo <= n,
            forall|i: int| 0 <= i < lo ==> is_space(s@[i]),
        decreases n - lo,
    {
        lo += 1;
    }
    let mut hi: usize = n;
    while hi > lo && char_is_space(s.get_char(hi - 1))
        invariant
            n == s@.len(),
            lo <= hi <= n,
            forall|i: int| hi <= i < n ==> is_space(s@[i]),
        decreases hi,
    {
        hi -= 1;
    }
    proof {
        lemma_leading_is(s@, lo as nat);
        let t = s@.skip(lo as int);
        lemma_trailing_is(t, (n - hi) as nat);
        assert(t.take(t.len() - (n - hi)) =~= s@.subrange(lo as int, hi as int));
    }
    s.substring_char(lo, hi)
}

} // verus!
