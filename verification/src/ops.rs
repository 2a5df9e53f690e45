//! Exponentiation, modular exponentiation, modular inverse and the
//! Miller–Rabin test on big integers.

use crate::bignum::{
    big_add, big_clone, big_div, big_eq, big_lt, big_mul, big_rem, big_sub, from_u64, int_add,
    int_clone, int_div, int_lt, int_mul, int_rem, int_sub, ival, random_range, to_bigint,
    to_biguint, uval,
};
use crate::number_theory::{
    coprime, divides, lemma_coprime_one, lemma_coprime_step, lemma_coprime_symmetric,
    lemma_coprime_zero, lemma_divides_linear,
};
use num::bigint::BigInt;
use num::bigint::BigUint;
use vstd::arithmetic::div_mod::{lemma_fundamental_div_mod, lemma_mul_mod_noop_general, lemma_mod_twice};
use vstd::arithmetic::power::{lemma_pow0, lemma_pow1, lemma_pow_adds, lemma_pow_distributes, pow as int_pow};
use vstd::prelude::*;

verus! {

/// Halving an exponent: `b^e` is `(b·b)^(e/2)`, times `b` once more when `e`
/// is odd.
pub proof fn lemma_pow_halve(b: int, e: nat)
    ensures
        int_pow(b, e) == int_pow(b * b, e / 2) * (if e % 2 == 1 { b } else { 1 }),
{
    let h: nat = e / 2;
    lemma_fundamental_div_mod(e as int, 2);
    lemma_pow_distributes(b, b, h);
    lemma_pow_adds(b, h, h);
    assert(int_pow(b * b, h) == int_pow(b, h + h));
    if e % 2 == 1 {
        assert(e == h + h + 1);
        lemma_pow_adds(b, h + h, 1);
        lemma_pow1(b);
    } else {
        assert(e == h + h);
    }
}

/// Integer power by repeated squaring.
pub fn pow(n: &BigUint, exp: &BigUint) -> (r: BigUint)
    ensures
        uval(r) == int_pow(uval(*n) as int, uval(*exp)),
{
    let one = from_u64(1);
    let two = from_u64(2);
    let mut acc = from_u64(1);
    let mut base = big_clone(n);
    let mut e = big_clone(exp);
    while big_lt(&one, &e)
        invariant
            uval(one) == 1,
            uval(two) == 2,
            uval(acc) * int_pow(uval(base) as int, uval(e)) == int_pow(uval(*n) as int, uval(*exp)),
        decreases uval(e),
    {
        let ghost a0 = uval(acc) as int;
        let ghost b0 = uval(base) as int;
        let ghost e0 = uval(e);
        proof {
            lemma_pow_halve(b0, e0);
        }
        let bit = big_rem(&e, &two);
        if big_eq(&bit, &one) {
            acc = big_mul(&acc, &base);
        }
        base = big_mul(&base, &base);
        e = big_div(&e, &two);
        proof {
            let p = int_pow(b0 * b0, e0 / 2);
            if e0 % 2 == 1 {
                assert(a0 * (p * b0) == (a0 * b0) * p) by (nonlinear_arith);
            } else {
                assert(a0 * (p * 1) == a0 * p) by (nonlinear_arith);
            }
        }
    }
    if big_eq(&e, &one) {
        proof {
            lemma_pow1(uval(base) as int);
        }
        acc = big_mul(&acc, &base);
    } else {
        proof {
            lemma_pow0(uval(base) as int);
        }
    }
    acc
}

/// Modular power by repeated squaring: `n^exp mod m`. For `m == 1` that is 0.
pub fn modular_pow(n: &BigUint, exp: &BigUint, m: &BigUint) -> (r: BigUint)
    requires
        uval(*m) > 0,
    ensures
        uval(r) == int_pow(uval(*n) as int, uval(*exp)) % (uval(*m) as int),
{
    let zero = from_u64(0);
    let one = from_u64(1);
    let two = from_u64(2);
    if big_eq(m, &one) {
        return zero;
    }
    let ghost mm = uval(*m) as int;
    let mut result = from_u64(1);
    let mut e = big_clone(exp);
    let mut base = big_rem(n, m);
    proof {
        lemma_pow_mod_base(uval(*n) as int, uval(*exp), mm);
        lemma_mul_mod_noop_general(1, int_pow(uval(base) as int, uval(e)), mm);
    }
    while big_lt(&zero, &e)
        invariant
            uval(zero) == 0,
            uval(one) == 1,
            uval(two) == 2,
            mm == uval(*m),
            mm > 1,
            uval(result) < mm,
            uval(base) < mm,
            (uval(result) * int_pow(uval(base) as int, uval(e))) % mm == int_pow(
                uval(*n) as int,
                uval(*exp),
            ) % mm,
        decreases uval(e),
    {
        let ghost r0 = uval(result) as int;
        let ghost b0 = uval(base) as int;
        let ghost e0 = uval(e);
        let bit = big_rem(&e, &two);
        if big_eq(&bit, &one) {
            let t = big_mul(&result, &base);
            result = big_rem(&t, m);
        }
        e = big_div(&e, &two);
        let sq = big_mul(&base, &base);
        base = big_rem(&sq, m);
        proof {
            let p = int_pow(b0 * b0, e0 / 2);
            let r1 = uval(result) as int;
            let b1 = uval(base) as int;
            lemma_pow_halve(b0, e0);
            lemma_pow_mod_base(b0 * b0, e0 / 2, mm);
            assert(int_pow(b1, e0 / 2) % mm == p % mm);
            // r1 * b1^(e/2) is congruent to r0 * b0^e
            lemma_mul_mod_noop_general(r1, int_pow(b1, e0 / 2), mm);
            lemma_mul_mod_noop_general(r1, p, mm);
            assert((r1 * int_pow(b1, e0 / 2)) % mm == (r1 * p) % mm);
            if e0 % 2 == 1 {
                lemma_mul_mod_noop_general(r0 * b0, p, mm);
                assert((r1 * p) % mm == ((r0 * b0) * p) % mm);
                assert((r0 * b0) * p == r0 * (p * b0)) by (nonlinear_arith);
            } else {
                assert(r0 * p == r0 * (p * 1)) by (nonlinear_arith);
            }
        }
    }
    proof {
        lemma_pow0(uval(base) as int);
        assert(uval(result) * 1 == uval(result)) by (nonlinear_arith);
        vstd::arithmetic::div_mod::lemma_small_mod(uval(result), mm as nat);
    }
    result
}

/// Reducing the base first does not change a power's remainder.
pub proof fn lemma_pow_mod_base(b: int, e: nat, m: int)
    requires
        m > 0,
    ensures
        int_pow(b % m, e) % m == int_pow(b, e) % m,
    decreases e,
{
    if e == 0 {
        lemma_pow0(b);
        lemma_pow0(b % m);
    } else {
        lemma_pow_mod_base(b, (e - 1) as nat, m);
        let x = int_pow(b % m, (e - 1) as nat);
        let y = int_pow(b, (e - 1) as nat);
        assert(int_pow(b % m, e) == (b % m) * x) by {
            vstd::arithmetic::power::lemma_pow_adds(b % m, 1, (e - 1) as nat);
            lemma_pow1(b % m);
        }
        assert(int_pow(b, e) == b * y) by {
            vstd::arithmetic::power::lemma_pow_adds(b, 1, (e - 1) as nat);
            lemma_pow1(b);
        }
        lemma_mul_mod_noop_general(b % m, x, m);
        lemma_mul_mod_noop_general(b, y, m);
        lemma_mod_twice(b, m);
    }
}

/// The odd number left when every factor 2 is taken out of `m`.
pub open spec fn odd_part(m: nat) -> nat
    decreases m,
{
    if m == 0 || m % 2 == 1 {
        m
    } else {
        odd_part(m / 2)
    }
}

/// How many factors 2 `m` has.
pub open spec fn two_exponent(m: nat) -> nat
    decreases m,
{
    if m == 0 || m % 2 == 1 {
        0
    } else {
        1 + two_exponent(m / 2)
    }
}

/// `a^(d·2^i) mod n`, where `d` is the odd part of `n - 1`: the `i`-th term
/// of the chain of squares that a Miller–Rabin round walks.
pub open spec fn square_chain(n: nat, a: nat, i: nat) -> int {
    int_pow(a as int, odd_part((n - 1) as nat) * int_pow(2, i) as nat) % (n as int)
}

/// Whether `n` is a strong probable prime to base `a`: with `n - 1 = 2^r·d`
/// and `d` odd, either `a^d ≡ 1`, or `a^(d·2^i) ≡ -1 (mod n)` for some
/// `i < r`. A base for which this fails proves `n` composite.
pub open spec fn strong_probable_prime(n: nat, a: nat) -> bool {
    square_chain(n, a, 0) == 1 || exists|i: nat|
        i < two_exponent((n - 1) as nat) && #[trigger] square_chain(n, a, i) == n - 1
}

/// Each term of the chain is the square of the one before it.
pub proof fn lemma_square_chain_step(n: nat, a: nat, i: nat)
    requires
        n > 0,
    ensures
        square_chain(n, a, i + 1) == (square_chain(n, a, i) * square_chain(n, a, i)) % (n as int),
{
    let d = odd_part((n - 1) as nat);
    let t = int_pow(2, i);
    vstd::arithmetic::power::lemma_pow_positive(2, i);
    vstd::arithmetic::power::lemma_pow_positive(2, i + 1);
    assert(int_pow(2, i + 1) == 2 * t) by {
        lemma_pow_adds(2, 1, i);
        lemma_pow1(2);
    }
    let e: nat = d * (t as nat);
    assert(d * (int_pow(2, i + 1) as nat) == e + e) by (nonlinear_arith)
        requires
            int_pow(2, i + 1) == 2 * t,
            t > 0,
            e == d * (t as nat),
    ;
    lemma_pow_adds(a as int, e, e);
    let x = int_pow(a as int, e);
    lemma_mul_mod_noop_general(x, x, n as int);
}

/// Once the chain reaches 1 it stays there.
pub proof fn lemma_square_chain_stays_one(n: nat, a: nat, i: nat, j: nat)
    requires
        n > 1,
        i <= j,
        square_chain(n, a, i) == 1,
    ensures
        square_chain(n, a, j) == 1,
    decreases j - i,
{
    if i < j {
        lemma_square_chain_stays_one(n, a, i, (j - 1) as nat);
        lemma_square_chain_step(n, a, (j - 1) as nat);
        vstd::arithmetic::div_mod::lemma_small_mod(1, n);
    }
}

/// Splits a positive number into its odd part and its power of two.
fn split_twos(m: &BigUint) -> (res: (BigUint, BigUint))
    requires
        uval(*m) > 0,
    ensures
        uval(res.0) == odd_part(uval(*m)),
        uval(res.1) == two_exponent(uval(*m)),
{
    let zero = from_u64(0);
    let one = from_u64(1);
    let two = from_u64(2);
    let mut d = big_clone(m);
    let mut r = from_u64(0);
    while big_eq(&big_rem(&d, &two), &zero)
        invariant
            uval(zero) == 0,
            uval(one) == 1,
            uval(two) == 2,
            uval(d) > 0,
            odd_part(uval(d)) == odd_part(uval(*m)),
            uval(r) + two_exponent(uval(d)) == two_exponent(uval(*m)),
        decreases uval(d),
    {
        r = big_add(&r, &one);
        d = big_div(&d, &two);
    }
    (d, r)
}

/// One Miller–Rabin round on base `a`, given `n - 1 = 2^r·d` with `d` odd.
fn round_passes(n: &BigUint, d: &BigUint, r: &BigUint, a: &BigUint) -> (res: bool)
    requires
        uval(*n) >= 3,
        uval(*n) % 2 == 1,
        uval(*d) == odd_part((uval(*n) - 1) as nat),
        uval(*r) == two_exponent((uval(*n) - 1) as nat),
    ensures
        res == strong_probable_prime(uval(*n), uval(*a)),
{
    let one = from_u64(1);
    let n1 = big_sub(n, &one);
    let ghost nn = uval(*n);
    let ghost aa = uval(*a);
    let ghost rr = uval(*r);
    let mut x = modular_pow(a, d, n);
    proof {
        lemma_pow0(2);
        assert(uval(*d) * 1 == uval(*d)) by (nonlinear_arith);
        assert(uval(x) == square_chain(nn, aa, 0));
        assert(rr >= 1);
    }
    if big_eq(&x, &one) || big_eq(&x, &n1) {
        return true;
    }
    let mut count = big_clone(r);
    let ghost mut j: nat = 0;
    while big_lt(&one, &count)
        invariant
            nn == uval(*n),
            aa == uval(*a),
            nn >= 3,
            uval(one) == 1,
            uval(n1) == nn - 1,
            rr == two_exponent((nn - 1) as nat),
            uval(count) + j == rr,
            uval(count) >= 1,
            uval(x) == square_chain(nn, aa, j),
            square_chain(nn, aa, 0) != 1,
            forall|i: nat| i <= j ==> #[trigger] square_chain(nn, aa, i) != nn - 1,
        decreases uval(count),
    {
        let sq = big_mul(&x, &x);
        x = big_rem(&sq, n);
        proof {
            lemma_square_chain_step(nn, aa, j);
            j = j + 1;
        }
        if big_eq(&x, &one) {
            proof {
                assert forall|i: nat| i < rr implies #[trigger] square_chain(nn, aa, i) != nn - 1 by {
                    if i >= j {
                        lemma_square_chain_stays_one(nn, aa, j, i);
                    }
                }
            }
            return false;
        }
        if big_eq(&x, &n1) {
            assert(j < rr && square_chain(nn, aa, j) == nn - 1);
            return true;
        }
        count = big_sub(&count, &one);
    }
    false
}

/// Whether `n` is a strong probable prime to base `a`: one round of the
/// Miller–Rabin test with the base given instead of drawn.
pub fn is_strong_probable_prime(n: &BigUint, a: &BigUint) -> (res: bool)
    requires
        uval(*n) >= 3,
        uval(*n) % 2 == 1,
    ensures
        res == strong_probable_prime(uval(*n), uval(*a)),
{
    let one = from_u64(1);
    let n1 = big_sub(n, &one);
    let (d, r) = split_twos(&n1);
    round_passes(n, &d, &r, a)
}

/// Some base in `2..=n-2` proves `n` composite.
pub open spec fn rejected(n: nat) -> bool {
    exists|a: nat| 2 <= a < n - 1 && !#[trigger] strong_probable_prime(n, a)
}

/// What a test of `n` with `k` bases that answers `true` has seen: no base
/// at all, for `k == 0` or `n == 3`, or a base in `2..=n-2` to which `n` is
/// a strong probable prime.
pub open spec fn accepted(n: nat, k: nat) -> bool {
    k == 0 || n == 3 || exists|a: nat| 2 <= a < n - 1 && #[trigger] strong_probable_prime(n, a)
}

/// Miller–Rabin test of the odd number `n` with `k` bases drawn at random
/// from `2..=n-2`.
///
/// `false` is returned as soon as a drawn base fails the round, and such a
/// base proves `n` composite: a prime is never refused. `true` is returned
/// when every drawn base passed. For `n == 3` there is no base to draw and
/// the answer is `true`.
pub fn miller_rabin_test(n: &BigUint, k: usize) -> (res: bool)
    requires
        uval(*n) >= 3,
        uval(*n) % 2 == 1,
    ensures
        (k == 0 || uval(*n) == 3) ==> res,
        res ==> accepted(uval(*n), k as nat),
        !res ==> rejected(uval(*n)),
        crate::primality::is_prime(uval(*n)) ==> res,
{
    let one = from_u64(1);
    let two = from_u64(2);
    let n1 = big_sub(n, &one);
    if !big_lt(&two, &n1) {
        return true;
    }
    let (d, r) = split_twos(&n1);
    let mut i: usize = 0;
    while i < k
        invariant
            i <= k,
            uval(two) == 2,
            uval(n1) == uval(*n) - 1,
            uval(*n) > 3,
            uval(*n) % 2 == 1,
            uval(d) == odd_part((uval(*n) - 1) as nat),
            uval(r) == two_exponent((uval(*n) - 1) as nat),
            i > 0 ==> exists|a: nat|
                2 <= a < uval(*n) - 1 && #[trigger] strong_probable_prime(uval(*n), a),
        decreases k - i,
    {
        let a = random_range(&two, &n1);
        if !round_passes(n, &d, &r, &a) {
            proof {
                if crate::primality::is_prime(uval(*n)) {
                    vstd::arithmetic::div_mod::lemma_small_mod(uval(a), uval(*n));
                    crate::primality::lemma_prime_is_strong_probable_prime(uval(*n), uval(a));
                }
            }
            return false;
        }
        i = i + 1;
    }
    true
}

/// No multiple of a number above 1 is 1.
proof fn lemma_no_unit_multiple(b: int, m: int)
    requires
        b >= 2,
    ensures
        b * m != 1,
{
    assert(b * m != 1) by (nonlinear_arith)
        requires
            b >= 2,
    {
        if m >= 1 {
            assert(b * m >= b);
        } else {
            assert(b * m <= 0);
        }
    }
}

fn int_from_u64(x: u64) -> (r: BigInt)
    ensures
        ival(r) == x,
{
    to_bigint(&from_u64(x)).unwrap()
}

/// The inverse of `a` modulo `b`, by the extended Euclidean algorithm, for
/// coprime `a` and `b`. For `b == 1` the result is 1.
pub fn mul_inv(a: &BigUint, b: &BigUint) -> (r: BigUint)
    requires
        uval(*b) >= 1,
        coprime(uval(*a), uval(*b)),
    ensures
        uval(*b) == 1 ==> uval(r) == 1,
        uval(*b) >= 2 ==> uval(r) < uval(*b) && (uval(*a) * uval(r)) % uval(*b) == 1,
{
    let unit = from_u64(1);
    if big_eq(b, &unit) {
        return unit;
    }
    let ghost a0 = uval(*a) as int;
    let ghost b0 = uval(*b) as int;
    let zero = int_from_u64(0);
    let one = int_from_u64(1);
    let mut x0 = int_from_u64(0);
    let mut x1 = int_from_u64(1);
    let mut a = to_bigint(a).unwrap();
    let mut b = to_bigint(b).unwrap();
    let b_start = int_clone(&b);
    // x1·a0 - a == k1·b0 and x0·a0 - b == k0·b0
    let ghost mut k1: int = 0;
    let ghost mut k0: int = -1;
    // whether x1 is the one that is not negative
    let ghost mut pos: bool = true;
    let ghost mut first: bool = true;
    proof {
        if a0 == 0 {
            lemma_coprime_symmetric(0, b0 as nat);
            lemma_coprime_zero(b0 as nat);
        }
        assert(0 * a0 - b0 == -1 * b0) by (nonlinear_arith);
        assert(1 * a0 - a0 == 0 * b0) by (nonlinear_arith);
        assert(1 * b0 - 0 * a0 == b0) by (nonlinear_arith);
    }
    while int_lt(&one, &a)
        invariant
            b0 >= 2,
            a0 >= 1,
            ival(zero) == 0,
            ival(one) == 1,
            ival(b_start) == b0,
            ival(a) >= 1,
            ival(b) >= 0,
            coprime(ival(a) as nat, ival(b) as nat),
            ival(x1) * a0 - ival(a) == k1 * b0,
            ival(x0) * a0 - ival(b) == k0 * b0,
            pos ==> ival(x1) >= 0 && ival(x0) <= 0 && ival(x1) * ival(b) - ival(x0) * ival(a) == b0,
            !pos ==> ival(x1) <= 0 && ival(x0) >= 0 && ival(x0) * ival(a) - ival(x1) * ival(b) == b0,
            first ==> pos && ival(x1) == 1 && ival(x0) == 0,
            !first ==> ival(a) > ival(b),
            !first && pos ==> ival(x1) <= -ival(x0),
            !first && !pos ==> -ival(x1) <= ival(x0),
        decreases ival(b),
    {
        let ghost va = ival(a);
        let ghost vb = ival(b);
        let ghost v0 = ival(x0);
        let ghost v1 = ival(x1);
        proof {
            if vb == 0 {
                lemma_coprime_zero(va as nat);
            }
            lemma_coprime_step(va as nat, vb as nat);
            vstd::arithmetic::div_mod::lemma_fundamental_div_mod(va, vb);
            vstd::arithmetic::div_mod::lemma_mod_bound(va, vb);
        }
        let q = int_div(&a, &b);
        let t = int_clone(&b);
        b = int_rem(&a, &b);
        a = t;
        let t = int_clone(&x0);
        x0 = int_sub(&x1, &int_mul(&q, &x0));
        x1 = t;
        proof {
            let vq = ival(q);
            let vr = ival(b);
            assert(vq >= 0) by (nonlinear_arith)
                requires
                    va >= 1,
                    vb >= 1,
                    vq == va / vb,
            ;
            assert(va == vb * vq + vr);
            assert(!first ==> vq >= 1) by (nonlinear_arith)
                requires
                    va == vb * vq + vr,
                    vr < vb,
                    vq >= 0,
                    !first ==> va > vb,
            ;
            let n0 = v1 - vq * v0;
            assert(n0 * a0 - vr == (k1 - vq * k0) * b0) by (nonlinear_arith)
                requires
                    v1 * a0 - va == k1 * b0,
                    v0 * a0 - vb == k0 * b0,
                    va == vb * vq + vr,
                    n0 == v1 - vq * v0,
            ;
            assert(n0 * vb - v0 * vr == v1 * vb - v0 * va) by (nonlinear_arith)
                requires
                    va == vb * vq + vr,
                    n0 == v1 - vq * v0,
            ;
            if pos {
                assert(n0 >= 0 && (!first ==> n0 >= -v0)) by (nonlinear_arith)
                    requires
                        n0 == v1 - vq * v0,
                        v1 >= 0,
                        v0 <= 0,
                        vq >= 0,
                        !first ==> vq >= 1,
                ;
            } else {
                assert(n0 <= 0 && -n0 >= v0) by (nonlinear_arith)
                    requires
                        n0 == v1 - vq * v0,
                        v1 <= 0,
                        v0 >= 0,
                        vq >= 1,
                ;
            }
            let k = k1 - vq * k0;
            k1 = k0;
            k0 = k;
            pos = !pos;
            first = false;
        }
    }
    let ghost v1 = ival(x1);
    let ghost v0 = ival(x0);
    let ghost vb = ival(b);
    proof {
        assert(ival(a) == 1);
        lemma_no_unit_multiple(b0, a0 - k1);
        lemma_no_unit_multiple(b0, -a0 - k1);
        if !first {
            let w = if pos { v1 } else { -v1 };
            assert(w * vb >= 0) by (nonlinear_arith)
                requires
                    w >= 0,
                    vb >= 0,
            ;
            assert((-v1) * vb == -(v1 * vb)) by (nonlinear_arith);
            assert(w <= b0);
            if w == b0 {
                if pos {
                    assert(b0 * (a0 - k1) == 1) by (nonlinear_arith)
                        requires
                            v1 * a0 - 1 == k1 * b0,
                            v1 == b0,
                    ;
                } else {
                    assert(b0 * (-a0 - k1) == 1) by (nonlinear_arith)
                        requires
                            v1 * a0 - 1 == k1 * b0,
                            v1 == -b0,
                    ;
                }
            }
        }
        assert(-b0 < v1 < b0);
    }
    if int_lt(&x1, &zero) {
        x1 = int_add(&x1, &b_start);
    }
    proof {
        let r = ival(x1);
        let k = if v1 < 0 { k1 + a0 } else { k1 };
        assert(a0 * r == k * b0 + 1) by (nonlinear_arith)
            requires
                v1 * a0 - 1 == k1 * b0,
                r == (if v1 < 0 { v1 + b0 } else { v1 }),
                k == (if v1 < 0 { k1 + a0 } else { k1 }),
        ;
        vstd::arithmetic::div_mod::lemma_mod_multiples_vanish(k, 1, b0);
        vstd::arithmetic::div_mod::lemma_small_mod(1, b0 as nat);
        assert(b0 * k == k * b0) by (nonlinear_arith);
    }
    to_biguint(&x1).unwrap()
}

/// The other way of Euclid's step: what is coprime after it was coprime
/// before.
pub proof fn lemma_coprime_step_back(a: nat, b: nat)
    requires
        b > 0,
        coprime(b, a % b),
    ensures
        coprime(a, b),
{
    assert forall|d: nat| #[trigger] divides(d, a) && divides(d, b) implies d == 1 by {
        vstd::arithmetic::div_mod::lemma_fundamental_div_mod(a as int, b as int);
        lemma_divides_linear(d, b, a / b, a % b);
        assert(b * (a / b) + a % b == a);
        assert(divides(d, b) && divides(d, a % b));
    }
}

/// Whether two numbers are coprime, by Euclid's algorithm.
pub fn are_coprime(a: &BigUint, b: &BigUint) -> (r: bool)
    ensures
        r == coprime(uval(*a), uval(*b)),
{
    let zero = from_u64(0);
    let mut x = big_clone(a);
    let mut y = big_clone(b);
    while big_lt(&zero, &y)
        invariant
            uval(zero) == 0,
            coprime(uval(x), uval(y)) == coprime(uval(*a), uval(*b)),
        decreases uval(y),
    {
        proof {
            if coprime(uval(x), uval(y)) {
                lemma_coprime_step(uval(x), uval(y));
            }
            if coprime(uval(y), uval(x) % uval(y)) {
                lemma_coprime_step_back(uval(x), uval(y));
            }
            vstd::arithmetic::div_mod::lemma_mod_bound(uval(x) as int, uval(y) as int);
        }
        let t = big_rem(&x, &y);
        x = y;
        y = t;
    }
    proof {
        if coprime(uval(x), 0) {
            lemma_coprime_zero(uval(x));
        }
        if uval(x) == 1 {
            lemma_coprime_one(0);
        }
    }
    big_eq(&x, &from_u64(1))
}

} // verus!
