//! Divisibility and coprimality of natural numbers.

use vstd::arithmetic::div_mod::{
    lemma_fundamental_div_mod, lemma_mod_multiples_basic, lemma_mod_multiples_vanish,
    lemma_small_mod,
};
use vstd::prelude::*;

verus! {

/// `d` divides `n`.
pub open spec fn divides(d: nat, n: nat) -> bool {
    d > 0 && n % d == 0
}

/// `a` and `b` have no common divisor but 1.
pub open spec fn coprime(a: nat, b: nat) -> bool {
    forall|d: nat| #[trigger] divides(d, a) && divides(d, b) ==> d == 1
}

/// A divisor of `x` and of `y` divides `x·q + y`, and the other way round:
/// a divisor of `x` and of `x·q + y` divides `y`.
pub proof fn lemma_divides_linear(d: nat, x: nat, q: nat, y: nat)
    requires
        divides(d, x),
    ensures
        divides(d, y) <==> divides(d, x * q + y),
{
    let k = x / d;
    lemma_fundamental_div_mod(x as int, d as int);
    assert(x == d * k);
    let a = (k * q) as int;
    assert(d * a + y == x * q + y) by (nonlinear_arith)
        requires
            x == d * k,
            a == k * q,
    ;
    lemma_mod_multiples_vanish(a, y as int, d as int);
    assert((x * q + y) % d == y % d);
}

/// One step of Euclid's algorithm keeps coprimality.
pub proof fn lemma_coprime_step(a: nat, b: nat)
    requires
        b > 0,
        coprime(a, b),
    ensures
        coprime(b, a % b),
{
    assert forall|d: nat| #[trigger] divides(d, b) && divides(d, a % b) implies d == 1 by {
        lemma_fundamental_div_mod(a as int, b as int);
        lemma_divides_linear(d, b, a / b, a % b);
        assert(b * (a / b) + a % b == a);
        assert(divides(d, a));
    }
}

/// Coprimality does not depend on the order of the two numbers.
pub proof fn lemma_coprime_symmetric(a: nat, b: nat)
    requires
        coprime(a, b),
    ensures
        coprime(b, a),
{
    assert forall|d: nat| #[trigger] divides(d, b) && divides(d, a) implies d == 1 by {
        assert(divides(d, a) && divides(d, b));
    }
}

/// Only 1 is coprime to 0.
pub proof fn lemma_coprime_zero(a: nat)
    requires
        coprime(a, 0),
    ensures
        a == 1,
{
    if a == 0 {
        assert(divides(2, 0));
    } else {
        lemma_mod_multiples_basic(1, a as int);
        assert(divides(a, a));
        assert(divides(a, 0));
    }
}

/// The product of the numbers in `s`; 1 for none.
pub open spec fn product(s: Seq<nat>) -> nat
    decreases s.len(),
{
    if s.len() == 0 {
        1
    } else {
        product(s.drop_last()) * s.last()
    }
}

/// A product of positive numbers is positive, and not below its last
/// factor.
pub proof fn lemma_product_positive(s: Seq<nat>)
    requires
        forall|i: int| 0 <= i < s.len() ==> #[trigger] s[i] >= 1,
    ensures
        product(s) >= 1,
        s.len() > 0 ==> product(s) >= s.last(),
    decreases s.len(),
{
    if s.len() > 0 {
        let init = s.drop_last();
        assert forall|i: int| 0 <= i < init.len() implies #[trigger] init[i] >= 1 by {
            assert(init[i] == s[i]);
        }
        lemma_product_positive(init);
        assert(product(init) * s.last() >= s.last()) by (nonlinear_arith)
            requires
                product(init) >= 1,
        ;
    }
}

/// Bézout's identity for coprime numbers: integers `x` and `y` with
/// `a·x + b·y == 1`.
pub proof fn lemma_bezout(a: nat, b: nat) -> (r: (int, int))
    requires
        coprime(a, b),
    ensures
        a * r.0 + b * r.1 == 1,
    decreases b,
{
    if b == 0 {
        lemma_coprime_zero(a);
        (1, 0)
    } else {
        let q = (a / b) as int;
        let rem = a % b;
        lemma_coprime_step(a, b);
        lemma_fundamental_div_mod(a as int, b as int);
        let (x, y) = lemma_bezout(b, rem);
        assert(a * y + b * (x - q * y) == 1) by (nonlinear_arith)
            requires
                b * x + rem * y == 1,
                a == b * q + rem,
        ;
        (y, x - q * y)
    }
}

/// A common divisor of two numbers of which a combination is 1 is 1.
pub proof fn lemma_combination_one(d: nat, a: nat, b: nat, x: int, y: int)
    requires
        divides(d, a),
        divides(d, b),
        a * x + b * y == 1,
    ensures
        d == 1,
{
    let k = (a / d) as int;
    let l = (b / d) as int;
    lemma_fundamental_div_mod(a as int, d as int);
    lemma_fundamental_div_mod(b as int, d as int);
    let m = k * x + l * y;
    assert(d * m == 1) by (nonlinear_arith)
        requires
            a == d * k,
            b == d * l,
            a * x + b * y == 1,
            m == k * x + l * y,
    ;
    assert(d == 1) by (nonlinear_arith)
        requires
            d * m == 1,
            d >= 1,
    {
        if d >= 2 {
            if m >= 1 {
                assert(d * m >= 2);
            } else {
                assert(d * m <= 0);
            }
        }
    }
}

/// Numbers of which a combination is 1 are coprime.
pub proof fn lemma_combination_coprime(a: nat, b: nat, x: int, y: int)
    requires
        a * x + b * y == 1,
    ensures
        coprime(a, b),
{
    assert forall|d: nat| #[trigger] divides(d, a) && divides(d, b) implies d == 1 by {
        lemma_combination_one(d, a, b, x, y);
    }
}

/// A product of two numbers coprime to `p` is coprime to `p`.
pub proof fn lemma_coprime_mul(a: nat, b: nat, p: nat)
    requires
        coprime(a, p),
        coprime(b, p),
    ensures
        coprime(a * b, p),
{
    let (x, y) = lemma_bezout(a, p);
    let (u, v) = lemma_bezout(b, p);
    let w = y + v - p * y * v;
    assert((a * b) * (x * u) + p * w == 1) by (nonlinear_arith)
        requires
            a * x + p * y == 1,
            b * u + p * v == 1,
            w == y + v - p * y * v,
    ;
    lemma_combination_coprime(a * b, p, x * u, w);
}

/// What two coprime numbers both divide, their product divides.
pub proof fn lemma_coprime_divide(a: nat, b: nat, n: nat)
    requires
        coprime(a, b),
        divides(a, n),
        divides(b, n),
    ensures
        divides(a * b, n),
{
    let (x, y) = lemma_bezout(a, b);
    let k = (n / a) as int;
    let l = (n / b) as int;
    lemma_fundamental_div_mod(n as int, a as int);
    lemma_fundamental_div_mod(n as int, b as int);
    let m = l * x + k * y;
    let ab = (a * b) as int;
    assert(n == m * ab) by (nonlinear_arith)
        requires
            a * x + b * y == 1,
            n == a * k,
            n == b * l,
            m == l * x + k * y,
            ab == a * b,
    ;
    assert(ab > 0) by (nonlinear_arith)
        requires
            a > 0,
            b > 0,
            ab == a * b,
    ;
    lemma_mod_multiples_basic(m, ab);
}

/// 1 is coprime to every number.
pub proof fn lemma_coprime_one(b: nat)
    ensures
        coprime(1, b),
{
    assert forall|d: nat| #[trigger] divides(d, 1) && divides(d, b) implies d == 1 by {
        if d >= 2 {
            lemma_small_mod(1, d);
        }
    }
}

/// Every two of the numbers are coprime.
pub open spec fn pairwise_coprime(ms: Seq<nat>) -> bool {
    forall|i: int, j: int| 0 <= i < j < ms.len() ==> coprime(#[trigger] ms[i], #[trigger] ms[j])
}

/// The product of a sequence with one more number at its end.
pub proof fn lemma_product_push(s: Seq<nat>, x: nat)
    ensures
        product(s.push(x)) == product(s) * x,
{
    assert(s.push(x).drop_last() =~= s);
}

/// The product of two sequences put together.
pub proof fn lemma_product_concat(s: Seq<nat>, t: Seq<nat>)
    ensures
        product(s + t) == product(s) * product(t),
    decreases t.len(),
{
    if t.len() == 0 {
        assert(s + t =~= s);
        assert(product(t) == 1);
        assert(product(s) * 1 == product(s)) by (nonlinear_arith);
    } else {
        let init = t.drop_last();
        assert((s + t).drop_last() =~= s + init);
        assert((s + t).last() == t.last());
        lemma_product_concat(s, init);
        assert(product(s + t) == product(s + init) * t.last());
        assert(product(t) == product(init) * t.last());
        assert((product(s) * product(init)) * t.last() == product(s) * (product(init) * t.last()))
            by (nonlinear_arith);
    }
}

/// A product is its `i`-th factor times the product of the others.
pub proof fn lemma_product_remove(s: Seq<nat>, i: int)
    requires
        0 <= i < s.len(),
    ensures
        product(s) == s[i] * product(s.remove(i)),
{
    let before = s.take(i);
    let after = s.skip(i + 1);
    assert(s =~= before.push(s[i]) + after);
    assert(s.remove(i) =~= before + after);
    lemma_product_concat(before.push(s[i]), after);
    lemma_product_concat(before, after);
    lemma_product_push(before, s[i]);
    assert((product(before) * s[i]) * product(after) == s[i] * (product(before) * product(after)))
        by (nonlinear_arith);
}

/// A product of numbers that are each coprime to `p` is coprime to `p`.
pub proof fn lemma_coprime_product(s: Seq<nat>, p: nat)
    requires
        forall|i: int| 0 <= i < s.len() ==> coprime(#[trigger] s[i], p),
    ensures
        coprime(product(s), p),
    decreases s.len(),
{
    if s.len() == 0 {
        lemma_coprime_one(p);
    } else {
        let init = s.drop_last();
        assert forall|i: int| 0 <= i < init.len() implies coprime(#[trigger] init[i], p) by {
            assert(init[i] == s[i]);
        }
        lemma_coprime_product(init, p);
        assert(coprime(s[s.len() - 1], p));
        lemma_coprime_mul(product(init), s.last(), p);
    }
}

/// A product does not shrink when its factors do not.
pub proof fn lemma_product_monotone(a: Seq<nat>, b: Seq<nat>)
    requires
        a.len() == b.len(),
        forall|i: int| 0 <= i < a.len() ==> #[trigger] a[i] <= b[i],
    ensures
        product(a) <= product(b),
    decreases a.len(),
{
    if a.len() > 0 {
        let x = a.drop_last();
        let y = b.drop_last();
        assert forall|i: int| 0 <= i < x.len() implies #[trigger] x[i] <= y[i] by {
            assert(a[i] <= b[i]);
        }
        lemma_product_monotone(x, y);
        assert(a[a.len() - 1] <= b[a.len() - 1]);
        assert(product(x) * a.last() <= product(y) * b.last()) by (nonlinear_arith)
            requires
                product(x) <= product(y),
                a.last() <= b.last(),
        ;
    }
}

/// With positive factors, the product of the first `t` is not above that
/// of the first `k`, for `t` up to `k`.
pub proof fn lemma_product_prefix(s: Seq<nat>, t: int, k: int)
    requires
        0 <= t <= k <= s.len(),
        forall|i: int| 0 <= i < s.len() ==> #[trigger] s[i] >= 1,
    ensures
        product(s.subrange(0, t)) <= product(s.subrange(0, k)),
    decreases k - t,
{
    if t < k {
        lemma_product_prefix(s, t, k - 1);
        let init = s.subrange(0, k - 1);
        assert(s.subrange(0, k) =~= init.push(s[k - 1]));
        lemma_product_push(init, s[k - 1]);
        assert(product(init) * s[k - 1] >= product(init)) by (nonlinear_arith)
            requires
                s[k - 1] >= 1,
        ;
    }
}

} // verus!
