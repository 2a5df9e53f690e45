//! Natural numbers as big-endian byte strings.

use vstd::arithmetic::power::{lemma_pow0, lemma_pow1, lemma_pow_adds, lemma_pow_multiplies, pow as int_pow};
use vstd::prelude::*;

verus! {

/// The number that the bytes `s` write, most significant byte first. The
/// empty string writes 0.
pub open spec fn be_value(s: Seq<u8>) -> nat
    decreases s.len(),
{
    if s.len() == 0 {
        0
    } else {
        be_value(s.drop_last()) * 256 + s.last() as nat
    }
}

/// The shortest byte string that writes `n`, which for 0 is one zero byte.
pub open spec fn be_bytes(n: nat) -> Seq<u8>
    decreases n,
{
    if n < 256 {
        seq![n as u8]
    } else {
        be_bytes(n / 256).push((n % 256) as u8)
    }
}

/// A string of `len` bytes writes a number below `256^len`.
pub proof fn lemma_be_value_bound(s: Seq<u8>)
    ensures
        be_value(s) < int_pow(256, s.len()),
    decreases s.len(),
{
    if s.len() == 0 {
        lemma_pow0(256);
    } else {
        lemma_be_value_bound(s.drop_last());
        let k = (s.len() - 1) as nat;
        lemma_pow_adds(256, k, 1);
        lemma_pow1(256);
        assert(be_value(s.drop_last()) * 256 + 255 < int_pow(256, k) * 256) by (nonlinear_arith)
            requires
                be_value(s.drop_last()) < int_pow(256, k),
        ;
    }
}

/// `256^len` is `2^(8·len)`.
pub proof fn lemma_pow_256(len: nat)
    ensures
        int_pow(256, len) == int_pow(2, 8 * len),
{
    lemma_pow_multiplies(2, 8, len);
    assert(int_pow(2, 8) == 256) by {
        reveal_with_fuel(vstd::arithmetic::power::pow, 9);
    }
}

/// The bytes of a number write that number.
pub proof fn lemma_be_value_of_bytes(n: nat)
    ensures
        be_value(be_bytes(n)) == n,
    decreases n,
{
    if n < 256 {
        let s = seq![n as u8];
        assert(s.drop_last() =~= Seq::<u8>::empty());
        assert(be_value(s.drop_last()) == 0);
    } else {
        let s = be_bytes(n);
        lemma_be_value_of_bytes(n / 256);
        assert(s.drop_last() =~= be_bytes(n / 256));
    }
}

/// A byte string that does not start with a zero byte, or is the one zero
/// byte, is the bytes of the number it writes.
pub proof fn lemma_be_bytes_of_value(s: Seq<u8>)
    requires
        s.len() > 0,
        s[0] != 0 || s.len() == 1,
    ensures
        be_bytes(be_value(s)) == s,
    decreases s.len(),
{
    let init = s.drop_last();
    if s.len() == 1 {
        assert(init =~= Seq::<u8>::empty());
        assert(be_value(init) == 0);
        assert(be_value(s) == s[0]);
        assert(s =~= seq![s[0]]);
    } else {
        assert(init[0] == s[0]);
        lemma_be_bytes_of_value(init);
        lemma_be_value_leading(init);
        let v = be_value(init);
        let n = be_value(s);
        assert(n == v * 256 + s.last());
        assert(n / 256 == v && n % 256 == s.last()) by (nonlinear_arith)
            requires
                n == v * 256 + s.last(),
                s.last() < 256,
        ;
        assert(be_bytes(n) == be_bytes(v).push(s.last()));
        assert(init.push(s.last()) =~= s);
    }
}

/// A byte string that starts with a byte other than zero writes a number
/// other than zero.
pub proof fn lemma_be_value_leading(s: Seq<u8>)
    requires
        s.len() > 0,
        s[0] != 0,
    ensures
        be_value(s) >= 1,
    decreases s.len(),
{
    let init = s.drop_last();
    if s.len() == 1 {
        assert(init =~= Seq::<u8>::empty());
        assert(be_value(init) == 0);
    } else {
        assert(init[0] == s[0]);
        lemma_be_value_leading(init);
    }
}

} // verus!
