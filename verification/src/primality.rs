//! Prime numbers, Fermat's little theorem, and why the Miller–Rabin test
//! never takes a prime for a composite.

use crate::ops::{
    lemma_square_chain_step, odd_part, rejected, square_chain, strong_probable_prime, two_exponent,
};
use crate::number_theory::{
    coprime, divides, lemma_bezout, lemma_coprime_product, lemma_product_remove, pairwise_coprime,
    product,
};
use vstd::arithmetic::div_mod::{
    lemma_fundamental_div_mod, lemma_mod_bound, lemma_mod_equivalence, lemma_mod_multiples_basic,
    lemma_mod_multiples_vanish, lemma_mul_mod_noop_general, lemma_small_mod,
};
use vstd::arithmetic::power::{
    lemma_pow0, lemma_pow1, lemma_pow_adds, lemma_pow_positive, pow as int_pow,
};
use vstd::prelude::*;

verus! {

/// `p` is at least 2 and has no divisor but 1 and itself.
pub open spec fn is_prime(p: nat) -> bool {
    p >= 2 && forall|d: nat| #[trigger] divides(d, p) ==> d == 1 || d == p
}

/// A number that a prime does not divide is coprime to it.
pub proof fn lemma_prime_coprime(p: nat, a: nat)
    requires
        is_prime(p),
        a % p != 0,
    ensures
        coprime(a, p),
{
    assert forall|d: nat| #[trigger] divides(d, a) && divides(d, p) implies d == 1 by {
        assert(d == 1 || d == p);
    }
}

/// Euclid's lemma: a prime that divides a product divides a factor.
pub proof fn lemma_prime_divides_product(p: nat, a: nat, b: nat)
    requires
        is_prime(p),
        (a * b) % p == 0,
    ensures
        a % p == 0 || b % p == 0,
{
    if a % p != 0 {
        lemma_prime_coprime(p, a);
        let (x, y) = lemma_bezout(a, p);
        let k = ((a * b) / p) as int;
        lemma_fundamental_div_mod((a * b) as int, p as int);
        let m = k * x + b * y;
        assert(b == m * p) by (nonlinear_arith)
            requires
                a * x + p * y == 1,
                a * b == p * k,
                m == k * x + b * y,
        ;
        lemma_mod_multiples_basic(m, p as int);
    }
}

/// Modulo a prime, 1 has no square roots but 1 and -1.
pub proof fn lemma_square_root_of_one(p: nat, x: nat)
    requires
        is_prime(p),
        x < p,
        (x * x) % p == 1,
    ensures
        x == 1 || x == p - 1,
{
    if x == 0 {
        assert(0 * 0 == 0);
        lemma_small_mod(0, p);
    } else {
        let a = (x - 1) as nat;
        let b = x + 1;
        assert(a * b + 1 == x * x) by (nonlinear_arith)
            requires
                a == x - 1,
                b == x + 1,
        ;
        let k = ((x * x) / p) as int;
        lemma_fundamental_div_mod((x * x) as int, p as int);
        assert(a * b == k * p) by (nonlinear_arith)
            requires
                x * x == p * k + 1,
                a * b + 1 == x * x,
        ;
        lemma_mod_multiples_basic(k, p as int);
        lemma_prime_divides_product(p, a, b);
        if a % p == 0 {
            lemma_small_mod(a, p);
        } else {
            if b < p {
                lemma_small_mod(b, p);
            }
        }
    }
}

/// The numbers of `s` are in `1..=n` and no two of them are the same.
pub open spec fn distinct_up_to(s: Seq<nat>, n: nat) -> bool {
    &&& forall|i: int| 0 <= i < s.len() ==> 1 <= #[trigger] s[i] <= n
    &&& forall|i: int, j: int| 0 <= i < j < s.len() ==> #[trigger] s[i] != #[trigger] s[j]
}

/// The numbers from 1 to `n`.
pub open spec fn one_to(n: nat) -> Seq<nat> {
    Seq::new(n, |i: int| (i + 1) as nat)
}

/// Taking one number out of distinct numbers leaves distinct numbers; if
/// the number taken out was the bound, the rest are below it.
proof fn lemma_distinct_remove(s: Seq<nat>, n: nat, j: int)
    requires
        distinct_up_to(s, n),
        0 <= j < s.len(),
        s[j] == n,
    ensures
        distinct_up_to(s.remove(j), (n - 1) as nat),
{
    let r = s.remove(j);
    assert forall|i: int| 0 <= i < r.len() implies 1 <= #[trigger] r[i] <= n - 1 by {
        if i < j {
            assert(r[i] == s[i]);
            assert(s[i] != s[j]);
        } else {
            assert(r[i] == s[i + 1]);
            assert(s[j] != s[i + 1]);
        }
    }
    assert forall|i: int, k: int| 0 <= i < k < r.len() implies #[trigger] r[i] != #[trigger] r[k] by {
        let si = if i < j { i } else { i + 1 };
        let sk = if k < j { k } else { k + 1 };
        assert(r[i] == s[si] && r[k] == s[sk]);
        assert(s[si] != s[sk]);
    }
}

/// The pigeonhole principle: more than `n` numbers from `1..=n` are not
/// all distinct.
pub proof fn lemma_pigeonhole(s: Seq<nat>, n: nat)
    requires
        distinct_up_to(s, n),
    ensures
        s.len() <= n,
    decreases n,
{
    if s.len() > n {
        if n == 0 {
            assert(1 <= s[0] <= n);
        } else if exists|j: int| 0 <= j < s.len() && s[j] == n {
            let j = choose|j: int| 0 <= j < s.len() && s[j] == n;
            lemma_distinct_remove(s, n, j);
            lemma_pigeonhole(s.remove(j), (n - 1) as nat);
        } else {
            assert forall|i: int| 0 <= i < s.len() implies 1 <= #[trigger] s[i] <= n - 1 by {
                assert(1 <= s[i] <= n);
            }
            lemma_pigeonhole(s, (n - 1) as nat);
        }
    }
}

/// `n` distinct numbers from `1..=n` are the numbers from 1 to `n` in some
/// order, and have their product.
pub proof fn lemma_permutation_product(s: Seq<nat>, n: nat)
    requires
        distinct_up_to(s, n),
        s.len() == n,
    ensures
        product(s) == product(one_to(n)),
    decreases n,
{
    if n == 0 {
        assert(s =~= one_to(0));
    } else {
        if !exists|j: int| 0 <= j < s.len() && s[j] == n {
            assert forall|i: int| 0 <= i < s.len() implies 1 <= #[trigger] s[i] <= n - 1 by {
                assert(1 <= s[i] <= n);
            }
            lemma_pigeonhole(s, (n - 1) as nat);
        }
        let j = choose|j: int| 0 <= j < s.len() && s[j] == n;
        lemma_distinct_remove(s, n, j);
        lemma_permutation_product(s.remove(j), (n - 1) as nat);
        lemma_product_remove(s, j);
        assert(one_to(n).drop_last() =~= one_to((n - 1) as nat));
        assert(one_to(n).last() == n);
        assert(product(one_to(n)) == product(one_to((n - 1) as nat)) * n);
        assert(n * product(s.remove(j)) == product(s.remove(j)) * n) by (nonlinear_arith);
    }
}

/// The residue of `a·(i + 1)` modulo `p`.
pub open spec fn scaled(a: nat, p: nat, i: int) -> nat {
    ((a * (i + 1)) % (p as int)) as nat
}

/// The residues modulo `p` of the first `n` multiples of `a`.
pub open spec fn multiples(a: nat, p: nat, n: nat) -> Seq<nat> {
    Seq::new(n, |i: int| scaled(a, p, i))
}

/// Modulo a prime that does not divide `a`, the multiples of `a` by
/// `1..=p-1` are distinct and none is 0.
proof fn lemma_multiples_distinct(a: nat, p: nat)
    requires
        is_prime(p),
        a % p != 0,
    ensures
        distinct_up_to(multiples(a, p, (p - 1) as nat), (p - 1) as nat),
{
    let s = multiples(a, p, (p - 1) as nat);
    assert forall|i: int| 0 <= i < s.len() implies 1 <= #[trigger] s[i] <= p - 1 by {
        let k = (i + 1) as nat;
        lemma_mod_bound((a * k) as int, p as int);
        if (a * k) % p == 0 {
            lemma_prime_divides_product(p, a, k);
            lemma_small_mod(k, p);
        }
    }
    assert forall|i: int, j: int| 0 <= i < j < s.len() implies #[trigger] s[i] != #[trigger] s[j] by {
        let ki = (i + 1) as nat;
        let kj = (j + 1) as nat;
        if s[i] == s[j] {
            lemma_mod_equivalence((a * kj) as int, (a * ki) as int, p as int);
            let d = (kj - ki) as nat;
            assert(a * kj - a * ki == a * d) by (nonlinear_arith)
                requires
                    d == kj - ki,
            ;
            lemma_prime_divides_product(p, a, d);
            lemma_small_mod(d, p);
        }
    }
}

/// The product of the residues of the first `n` multiples of `a` is
/// congruent to `a^n` times the product of `1..=n`.
proof fn lemma_multiples_product(a: nat, p: nat, n: nat)
    requires
        p > 0,
    ensures
        product(multiples(a, p, n)) % p == (int_pow(a as int, n) * product(one_to(n))) % (p as int),
    decreases n,
{
    if n == 0 {
        lemma_pow0(a as int);
        assert(multiples(a, p, 0) =~= Seq::<nat>::empty());
        assert(one_to(0) =~= Seq::<nat>::empty());
    } else {
        let m = (n - 1) as nat;
        lemma_multiples_product(a, p, m);
        let s = multiples(a, p, n);
        assert(s.drop_last() =~= multiples(a, p, m));
        assert(s.last() == scaled(a, p, n - 1));
        assert(one_to(n).drop_last() =~= one_to(m));
        assert(one_to(n).last() == n);
        let ps = product(multiples(a, p, m)) as int;
        let f = product(one_to(m)) as int;
        let x = int_pow(a as int, m);
        lemma_pow_adds(a as int, m, 1);
        lemma_pow1(a as int);
        assert(int_pow(a as int, n) == x * a);
        // product(s) == ps * ((a * n) % p), and ps % p == (x * f) % p
        lemma_mul_mod_noop_general(ps, (a * n) as int, p as int);
        lemma_mul_mod_noop_general(x * f, (a * n) as int, p as int);
        assert(product(s) == ps * ((a * n) % p));
        assert((x * f) * (a * n) == (x * a) * (f * n)) by (nonlinear_arith);
    }
}

/// Fermat's little theorem: `a^(p-1)` leaves 1 modulo a prime `p` that does
/// not divide `a`.
pub proof fn lemma_fermat(a: nat, p: nat)
    requires
        is_prime(p),
        a % p != 0,
    ensures
        int_pow(a as int, (p - 1) as nat) % (p as int) == 1,
{
    let n = (p - 1) as nat;
    let s = multiples(a, p, n);
    let f = product(one_to(n)) as int;
    let x = int_pow(a as int, n);
    lemma_multiples_distinct(a, p);
    lemma_permutation_product(s, n);
    lemma_multiples_product(a, p, n);
    assert((x * f) % (p as int) == f % (p as int));
    // the product of 1..=p-1 is coprime to p
    assert forall|i: int| 0 <= i < one_to(n).len() implies coprime(#[trigger] one_to(n)[i], p) by {
        lemma_small_mod((i + 1) as nat, p);
        lemma_prime_coprime(p, (i + 1) as nat);
    }
    lemma_coprime_product(one_to(n), p);
    let (u, v) = lemma_bezout(f as nat, p);
    lemma_mod_equivalence(x * f, f, p as int);
    let k = (x * f - f) / (p as int);
    lemma_fundamental_div_mod(x * f - f, p as int);
    let m = k * u + v * (x - 1);
    assert(x - 1 == m * p) by (nonlinear_arith)
        requires
            f * u + p * v == 1,
            x * f - f == p * k,
            m == k * u + v * (x - 1),
    ;
    lemma_mod_multiples_vanish(m, 1, p as int);
    lemma_small_mod(1, p);
    assert(p * m + 1 == x) by (nonlinear_arith)
        requires
            x - 1 == m * p,
    ;
}

/// A positive number is its odd part times two to the number of its
/// factors 2.
pub proof fn lemma_odd_part(m: nat)
    requires
        m > 0,
    ensures
        m == odd_part(m) * int_pow(2, two_exponent(m)),
        odd_part(m) % 2 == 1,
    decreases m,
{
    if m % 2 == 1 {
        lemma_pow0(2);
    } else {
        let h = m / 2;
        lemma_odd_part(h);
        let e = two_exponent(h);
        lemma_pow_adds(2, e, 1);
        lemma_pow1(2);
        assert(odd_part(h) * (int_pow(2, e) * 2) == (odd_part(h) * int_pow(2, e)) * 2)
            by (nonlinear_arith);
    }
}

/// Where the chain of squares modulo a prime reaches 1, it started at 1 or
/// passed through -1 before.
proof fn lemma_chain_reaches_one(p: nat, a: nat, i: nat)
    requires
        is_prime(p),
        p >= 3,
        square_chain(p, a, i) == 1,
    ensures
        square_chain(p, a, 0) == 1 || exists|j: nat| j < i && #[trigger] square_chain(p, a, j) == p - 1,
    decreases i,
{
    if i > 0 {
        let before = (i - 1) as nat;
        let x = square_chain(p, a, before);
        lemma_square_chain_step(p, a, before);
        lemma_mod_bound(
            int_pow(a as int, odd_part((p - 1) as nat) * int_pow(2, before) as nat),
            p as int,
        );
        lemma_square_root_of_one(p, x as nat);
        if x == 1 {
            lemma_chain_reaches_one(p, a, before);
            if square_chain(p, a, 0) != 1 {
                let j = choose|j: nat| j < before && #[trigger] square_chain(p, a, j) == p - 1;
                assert(j < i && square_chain(p, a, j) == p - 1);
            }
        } else {
            assert(before < i && square_chain(p, a, before) == p - 1);
        }
    }
}

/// An odd prime is a strong probable prime to every base that it does not
/// divide: no base proves a prime composite.
pub proof fn lemma_prime_is_strong_probable_prime(p: nat, a: nat)
    requires
        is_prime(p),
        p >= 3,
        a % p != 0,
    ensures
        strong_probable_prime(p, a),
{
    let m = (p - 1) as nat;
    let r = two_exponent(m);
    lemma_odd_part(m);
    lemma_pow_positive(2, r);
    lemma_fermat(a, p);
    assert(odd_part(m) * int_pow(2, r) as nat == m);
    assert(square_chain(p, a, r) == 1);
    lemma_chain_reaches_one(p, a, r);
}

/// A number that some base proves composite is not prime.
pub proof fn lemma_rejected_is_composite(n: nat)
    requires
        n >= 3,
        rejected(n),
    ensures
        !is_prime(n),
{
    let a = choose|a: nat| 2 <= a < n - 1 && !#[trigger] strong_probable_prime(n, a);
    if is_prime(n) {
        lemma_small_mod(a, n);
        lemma_prime_is_strong_probable_prime(n, a);
    }
}

/// Every number from 2 on has a prime divisor.
pub proof fn lemma_prime_divisor(m: nat) -> (q: nat)
    requires
        m >= 2,
    ensures
        is_prime(q),
        divides(q, m),
    decreases m,
{
    if is_prime(m) {
        lemma_mod_multiples_basic(1, m as int);
        m
    } else {
        let d = choose|d: nat| #[trigger] divides(d, m) && !(d == 1 || d == m);
        assert(d < m) by {
            if d > m {
                lemma_small_mod(m, d);
            }
        }
        let q = lemma_prime_divisor(d);
        // q divides d, and d divides m
        let k = m / d;
        let l = d / q;
        lemma_fundamental_div_mod(m as int, d as int);
        lemma_fundamental_div_mod(d as int, q as int);
        assert(m == (l * k) * q) by (nonlinear_arith)
            requires
                m == d * k,
                d == q * l,
        ;
        lemma_mod_multiples_basic((l * k) as int, q as int);
        q
    }
}

/// Each of the numbers from 1 to `n` divides their product.
proof fn lemma_divides_factorial(k: nat, n: nat)
    requires
        1 <= k <= n,
    ensures
        divides(k, product(one_to(n))),
{
    let s = one_to(n);
    lemma_product_remove(s, k - 1);
    let rest = product(s.remove(k - 1));
    assert(product(s) == rest * k) by (nonlinear_arith)
        requires
            product(s) == k * rest,
    ;
    lemma_mod_multiples_basic(rest as int, k as int);
}

/// Euclid's theorem: above every number there is a prime.
pub proof fn lemma_prime_above(n: nat) -> (q: nat)
    ensures
        is_prime(q),
        q > n,
{
    let f = product(one_to(n));
    assert forall|i: int| 0 <= i < one_to(n).len() implies #[trigger] one_to(n)[i] >= 1 by {}
    crate::number_theory::lemma_product_positive(one_to(n));
    let q = lemma_prime_divisor(f + 1);
    if q <= n {
        lemma_divides_factorial(q, n);
        // q divides f and f + 1, so it divides 1
        crate::number_theory::lemma_divides_linear(q, f, 1, 1);
        assert(f * 1 + 1 == f + 1) by (nonlinear_arith);
        lemma_small_mod(1, q);
    }
    q
}

/// Above every number there is an odd prime.
pub proof fn lemma_odd_prime_above(n: nat) -> (q: nat)
    ensures
        is_prime(q),
        q > n,
        q >= 3,
        q % 2 == 1,
{
    let q = lemma_prime_above(if n < 2 { 2 } else { n });
    if q % 2 == 0 {
        assert(divides(2, q));
    }
    q
}

/// Primes that are all different are pairwise coprime.
pub proof fn lemma_primes_pairwise_coprime(ps: Seq<nat>)
    requires
        forall|i: int| 0 <= i < ps.len() ==> is_prime(#[trigger] ps[i]),
        forall|i: int, j: int| 0 <= i < j < ps.len() ==> #[trigger] ps[i] != #[trigger] ps[j],
    ensures
        pairwise_coprime(ps),
{
    assert forall|i: int, j: int| 0 <= i < j < ps.len() implies coprime(
        #[trigger] ps[i],
        #[trigger] ps[j],
    ) by {
        assert(is_prime(ps[i]) && is_prime(ps[j]) && ps[i] != ps[j]);
        if ps[i] % ps[j] == 0 {
            assert(divides(ps[j], ps[i]));
        }
        lemma_prime_coprime(ps[j], ps[i]);
    }
}

} // verus!
