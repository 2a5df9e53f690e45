//! Recovery of a secret from its shares by the Chinese Remainder Theorem.

use crate::bignum::{big_add, big_div, big_lt, big_mul, big_rem, from_u64, to_bytes_be, uval};
use crate::bytes::{
    be_bytes, be_value, lemma_be_bytes_of_value, lemma_be_value_bound, lemma_be_value_of_bytes,
    lemma_pow_256,
};
use crate::error::Error;
use crate::number_theory::{
    coprime, divides, lemma_bezout, lemma_coprime_divide, lemma_coprime_product, lemma_coprime_symmetric,
    lemma_product_positive, lemma_product_prefix, lemma_product_push,
    lemma_product_remove, pairwise_coprime, product,
};
use crate::ops::{are_coprime, mul_inv};
use crate::primality::lemma_pigeonhole;
use crate::share::{
    lemma_mask_range, share_at, share_values, shares_of, ABSharedSecret, SecretShares,
    ShareParameters,
};
use num::bigint::BigUint;
use vstd::arithmetic::div_mod::{
    lemma_add_mod_noop, lemma_div_multiples_vanish, lemma_fundamental_div_mod,
    lemma_mod_equivalence, lemma_mod_mod, lemma_mod_multiples_basic, lemma_mod_multiples_vanish,
    lemma_mod_twice, lemma_mul_mod_noop_general, lemma_small_mod,
};
use vstd::prelude::*;

verus! {

/// The moduli of the shares.
pub open spec fn moduli(shares: Seq<(nat, nat)>) -> Seq<nat> {
    shares.map_values(|s: (nat, nat)| s.1)
}

/// `x` leaves the residue of the share with its modulus.
pub open spec fn congruent(x: nat, share: (nat, nat)) -> bool {
    x % share.1 == share.0 % share.1
}

/// The moduli are positive and every two of them coprime, so that the
/// Chinese Remainder Theorem holds of them.
pub open spec fn crt_moduli(shares: Seq<(nat, nat)>) -> bool {
    &&& forall|i: int| 0 <= i < shares.len() ==> (#[trigger] shares[i]).1 >= 1
    &&& pairwise_coprime(moduli(shares))
}

/// `x` is below the product of the moduli and leaves the residue of every
/// share.
pub open spec fn is_crt_solution(shares: Seq<(nat, nat)>, x: nat) -> bool {
    &&& x < product(moduli(shares))
    &&& forall|i: int| 0 <= i < shares.len() ==> congruent(x, #[trigger] shares[i])
}

/// The number below the product of the moduli that leaves the residue of
/// every share. With moduli as `crt_moduli` asks there is exactly one.
pub open spec fn crt(shares: Seq<(nat, nat)>) -> nat {
    choose|x: nat| is_crt_solution(shares, x)
}

impl SecretShares {
    /// A secret can be recovered from these shares: the public modulus and
    /// the moduli are positive, and every two moduli are coprime.
    pub open spec fn recoverable(self) -> bool {
        self.n0 >= 1 && crt_moduli(self.shares)
    }
}

/// The product of the first `k` moduli divides the difference of two
/// numbers that leave the same residues.
proof fn lemma_prefix_divides(shares: Seq<(nat, nat)>, x: nat, y: nat, k: int)
    requires
        crt_moduli(shares),
        y <= x,
        forall|i: int| 0 <= i < shares.len() ==> congruent(x, #[trigger] shares[i]),
        forall|i: int| 0 <= i < shares.len() ==> congruent(y, #[trigger] shares[i]),
        0 <= k <= shares.len(),
    ensures
        divides(product(moduli(shares).take(k)), (x - y) as nat),
    decreases k,
{
    let ms = moduli(shares);
    let d = (x - y) as nat;
    if k == 0 {
        assert(ms.take(0) =~= Seq::<nat>::empty());
        assert(d % 1 == 0);
    } else {
        lemma_prefix_divides(shares, x, y, k - 1);
        let init = ms.take(k - 1);
        let p = ms[k - 1];
        assert(ms.take(k) =~= init.push(p));
        lemma_product_push(init, p);
        assert(p == shares[k - 1].1);
        assert(congruent(x, shares[k - 1]) && congruent(y, shares[k - 1]));
        lemma_mod_equivalence(x as int, y as int, p as int);
        assert(divides(p, d));
        assert forall|i: int| 0 <= i < init.len() implies coprime(#[trigger] init[i], p) by {
            assert(coprime(ms[i], ms[k - 1]));
        }
        lemma_coprime_product(init, p);
        lemma_coprime_divide(product(init), p, d);
    }
}

/// The Chinese Remainder Theorem, uniqueness: two solutions are the same
/// number.
pub proof fn lemma_crt_unique(shares: Seq<(nat, nat)>, x: nat, y: nat)
    requires
        crt_moduli(shares),
        is_crt_solution(shares, x),
        is_crt_solution(shares, y),
    ensures
        x == y,
{
    let ms = moduli(shares);
    let n = shares.len() as int;
    assert(ms.take(n) =~= ms);
    if y <= x {
        lemma_prefix_divides(shares, x, y, n);
        lemma_small_mod((x - y) as nat, product(ms));
    } else {
        lemma_prefix_divides(shares, y, x, n);
        lemma_small_mod((y - x) as nat, product(ms));
    }
}

/// A number that is congruent to `x` modulo `big` and to `r` modulo `p`,
/// for coprime `big` and `p`.
proof fn lemma_crt_pair(x: nat, big: nat, r: nat, p: nat) -> (y: nat)
    requires
        big >= 1,
        p >= 1,
        coprime(big, p),
    ensures
        y < big * p,
        exists|k: int| y - x == #[trigger] (k * big),
        y % p == r % p,
{
    let (u, v) = lemma_bezout(big, p);
    let whole = (big * p) as int;
    assert(whole >= 1) by (nonlinear_arith)
        requires
            big >= 1,
            p >= 1,
            whole == big * p,
    ;
    let y0 = x * (p * v) + r * (big * u);
    let y = y0 % whole;
    lemma_fundamental_div_mod(y0, whole);
    vstd::arithmetic::div_mod::lemma_mod_bound(y0, whole);
    let d = y0 / whole;
    // modulo big
    let k = u * (r - x) - d * p;
    assert(y - x == k * big) by (nonlinear_arith)
        requires
            big * u + p * v == 1,
            y0 == x * (p * v) + r * (big * u),
            y0 == whole * d + y,
            whole == big * p,
            k == u * (r - x) - d * p,
    ;
    // modulo p
    let l = v * (x - r) - d * big;
    assert(y == p * l + r) by (nonlinear_arith)
        requires
            big * u + p * v == 1,
            y0 == x * (p * v) + r * (big * u),
            y0 == whole * d + y,
            whole == big * p,
            l == v * (x - r) - d * big,
    ;
    lemma_mod_multiples_vanish(l, r as int, p as int);
    y as nat
}

/// The Chinese Remainder Theorem, existence: there is a solution, which
/// `crt` then names.
pub proof fn lemma_crt_exists(shares: Seq<(nat, nat)>)
    requires
        crt_moduli(shares),
    ensures
        is_crt_solution(shares, crt(shares)),
    decreases shares.len(),
{
    let ms = moduli(shares);
    if shares.len() == 0 {
        assert(is_crt_solution(shares, 0));
    } else {
        let n = shares.len() as int;
        let init = shares.drop_last();
        let first = moduli(init);
        let (r, p) = shares.last();
        assert(first =~= ms.drop_last());
        assert forall|i: int| 0 <= i < init.len() implies (#[trigger] init[i]).1 >= 1 by {
            assert(init[i] == shares[i]);
        }
        assert forall|i: int, j: int| 0 <= i < j < first.len() implies coprime(
            #[trigger] first[i],
            #[trigger] first[j],
        ) by {
            assert(coprime(ms[i], ms[j]));
        }
        lemma_crt_exists(init);
        let x = crt(init);
        let big = product(first);
        assert forall|i: int| 0 <= i < first.len() implies #[trigger] first[i] >= 1 by {
            assert(first[i] == init[i].1);
        }
        lemma_product_positive(first);
        assert forall|i: int| 0 <= i < first.len() implies coprime(#[trigger] first[i], p) by {
            assert(coprime(ms[i], ms[n - 1]));
        }
        lemma_coprime_product(first, p);
        assert(shares[n - 1].1 >= 1);
        let y = lemma_crt_pair(x, big, r, p);
        assert(product(ms) == big * p);
        assert forall|i: int| 0 <= i < shares.len() implies congruent(y, #[trigger] shares[i]) by {
            if i < n - 1 {
                let q = first[i];
                assert(shares[i] == init[i]);
                assert(congruent(x, init[i]));
                lemma_product_remove(first, i);
                let rest = product(first.remove(i));
                let k = choose|k: int| y - x == #[trigger] (k * big);
                assert(y == q * (k * rest) + x) by (nonlinear_arith)
                    requires
                        y - x == k * big,
                        big == q * rest,
                ;
                lemma_mod_multiples_vanish(k * rest, x as int, q as int);
            }
        }
        assert(is_crt_solution(shares, y));
    }
}

/// A solution is what `crt` names.
pub proof fn lemma_crt_is(shares: Seq<(nat, nat)>, x: nat)
    requires
        crt_moduli(shares),
        is_crt_solution(shares, x),
    ensures
        crt(shares) == x,
{
    lemma_crt_unique(shares, crt(shares), x);
}

/// Adding the term of the `k`-th share, `y·e·P` with `P` the product of the
/// other moduli and `e` the inverse of `P` modulo the `k`-th, changes the
/// residue for the `k`-th modulus by `y` and no other residue.
proof fn lemma_crt_term(ms: Seq<nat>, k: int, i: int, sum: nat, y: nat, e: nat)
    requires
        0 <= k < ms.len(),
        0 <= i < ms.len(),
        forall|j: int| 0 <= j < ms.len() ==> #[trigger] ms[j] >= 1,
        ms[k] >= 2 ==> (product(ms.remove(k)) * e) % ms[k] == 1,
    ensures
        i != k ==> (sum + y * e * product(ms.remove(k))) % ms[i] == sum % ms[i],
        i == k && sum % ms[k] == 0 ==> (sum + y * e * product(ms.remove(k))) % ms[k] == y % ms[k],
{
    let others = ms.remove(k);
    let big = product(others);
    let term = y * e * big;
    let p = ms[i] as int;
    if i != k {
        let at = if i < k { i } else { i - 1 };
        assert(others[at] == ms[i]);
        lemma_product_remove(others, at);
        let rest = product(others.remove(at));
        let c = (y * e * rest) as int;
        assert(term == c * p) by (nonlinear_arith)
            requires
                term == y * e * big,
                big == p * rest,
                c == y * e * rest,
        ;
        lemma_mod_multiples_basic(c, p);
        lemma_add_mod_noop(sum as int, term as int, p);
        lemma_small_mod((sum % ms[i]) as nat, ms[i]);
    } else if sum % ms[k] == 0 {
        if p == 1 {
        } else {
            assert(term == y * (big * e)) by (nonlinear_arith)
                requires
                    term == y * e * big,
            ;
            lemma_mul_mod_noop_general(y as int, (big * e) as int, p);
            let ym = y % ms[k];
            assert(ym * 1 == ym);
            lemma_small_mod((y % ms[k]) as nat, ms[k]);
            lemma_add_mod_noop(sum as int, term as int, p);
            lemma_small_mod((term % ms[k]) as nat, ms[k]);
        }
    }
}

/// The number below the product of the moduli that leaves every share's
/// residue, by the usual construction: for each share its residue times
/// the product of the other moduli and the inverse of that product, summed
/// and reduced.
pub fn chinese_remainder(c: &Vec<(BigUint, BigUint)>) -> (r: BigUint)
    requires
        crt_moduli(share_values(c@)),
    ensures
        uval(r) == crt(share_values(c@)),
{
    let len = c.len();
    let ghost shares = share_values(c@);
    let ghost ms = moduli(shares);
    let mut prod = from_u64(1);
    let mut k: usize = 0;
    while k < len
        invariant
            len == c.len(),
            k <= len,
            shares == share_values(c@),
            ms == moduli(shares),
            uval(prod) == product(ms.take(k as int)),
        decreases len - k,
    {
        proof {
            assert(ms.take(k + 1) =~= ms.take(k as int).push(ms[k as int]));
            lemma_product_push(ms.take(k as int), ms[k as int]);
        }
        prod = big_mul(&prod, &c[k].1);
        k += 1;
    }
    proof {
        assert(ms.take(len as int) =~= ms);
        lemma_product_positive(ms);
    }
    let mut sum = from_u64(0);
    let mut i: usize = 0;
    while i < len
        invariant
            len == c.len(),
            i <= len,
            shares == share_values(c@),
            ms == moduli(shares),
            crt_moduli(shares),
            uval(prod) == product(ms),
            forall|j: int| 0 <= j < len ==> #[trigger] ms[j] >= 1,
            forall|j: int|
                0 <= j < len ==> uval(sum) % #[trigger] ms[j] == if j < i {
                    shares[j].0 % ms[j]
                } else {
                    0
                },
        decreases len - i,
    {
        let ghost others = ms.remove(i as int);
        proof {
            lemma_product_remove(ms, i as int);
            lemma_div_multiples_vanish(product(others) as int, ms[i as int] as int);
            assert forall|j: int| 0 <= j < others.len() implies coprime(
                #[trigger] others[j],
                ms[i as int],
            ) by {
                if j < i {
                    assert(coprime(ms[j], ms[i as int]));
                } else {
                    assert(coprime(ms[i as int], ms[j + 1]));
                    lemma_coprime_symmetric(ms[i as int], ms[j + 1]);
                }
            }
            lemma_coprime_product(others, ms[i as int]);
        }
        let p = big_div(&prod, &c[i].1);
        let inv = mul_inv(&p, &c[i].1);
        let term = big_mul(&big_mul(&c[i].0, &inv), &p);
        let ghost before = uval(sum);
        sum = big_add(&sum, &term);
        proof {
            assert forall|j: int| 0 <= j < len implies uval(sum) % #[trigger] ms[j] == if j < i + 1 {
                shares[j].0 % ms[j]
            } else {
                0
            } by {
                lemma_crt_term(ms, i as int, j, before, shares[i as int].0, uval(inv));
            }
        }
        i += 1;
    }
    let r = big_rem(&sum, &prod);
    proof {
        assert forall|j: int| 0 <= j < shares.len() implies congruent(uval(r), #[trigger] shares[j]) by {
            lemma_product_remove(ms, j);
            let rest = product(ms.remove(j));
            assert forall|l: int| 0 <= l < ms.remove(j).len() implies #[trigger] ms.remove(j)[l] >= 1 by {
                if l < j {
                    assert(ms[l] >= 1);
                } else {
                    assert(ms[l + 1] >= 1);
                }
            }
            lemma_product_positive(ms.remove(j));
            lemma_mod_mod(uval(sum) as int, ms[j] as int, rest as int);
            assert(uval(sum) % ms[j] == shares[j].0 % ms[j]);
        }
        lemma_crt_is(shares, uval(r));
    }
    r
}

impl ABSharedSecret {
    /// Whether a secret can be recovered from these shares.
    pub fn is_recoverable(&self) -> (r: bool)
        ensures
            r == self@.recoverable(),
    {
        let zero = from_u64(0);
        if !big_lt(&zero, &self.n0) {
            return false;
        }
        let len = self.shares.len();
        let ghost shares = self@.shares;
        let ghost ms = moduli(shares);
        let mut i: usize = 0;
        while i < len
            invariant
                uval(zero) == 0,
                len == self.shares.len(),
                i <= len,
                shares == self@.shares,
                ms == moduli(shares),
                forall|k: int| 0 <= k < i ==> (#[trigger] shares[k]).1 >= 1,
                forall|k: int, l: int| 0 <= k < l < len && k < i ==> coprime(#[trigger] ms[k], #[trigger] ms[l]),
            decreases len - i,
        {
            if !big_lt(&zero, &self.shares[i].1) {
                assert(shares[i as int].1 == 0);
                return false;
            }
            let mut j: usize = i + 1;
            while j < len
                invariant
                    len == self.shares.len(),
                    i < j <= len,
                    shares == self@.shares,
                    ms == moduli(shares),
                    forall|l: int| i < l < j ==> coprime(ms[i as int], #[trigger] ms[l]),
                decreases len - j,
            {
                if !are_coprime(&self.shares[i].1, &self.shares[j].1) {
                    assert(!coprime(ms[i as int], ms[j as int]));
                    return false;
                }
                j += 1;
            }
            i += 1;
        }
        true
    }
}

/// Recoverer of a secret from its shares.
pub struct AsmuthBloomRecover {
    threshold: u16,
}

impl AsmuthBloomRecover {
    /// The least number of shares that the recoverer takes.
    pub closed spec fn threshold(&self) -> u16 {
        self.threshold
    }

    /// A recoverer that asks for at least `threshold` shares.
    pub fn new(threshold: u16) -> (r: Self)
        ensures
            r.threshold() == threshold,
    {
        AsmuthBloomRecover { threshold }
    }

    /// The secret of the shares: the solution of their congruences, reduced
    /// modulo the public modulus and written as big-endian bytes without a
    /// leading zero byte (one zero byte for the secret 0).
    pub fn recover_secret(&self, share: &ABSharedSecret) -> (res: Result<Vec<u8>, Error>)
        requires
            share@.recoverable(),
        ensures
            res is Err <==> share@.shares.len() < self.threshold(),
            res matches Err(e) ==> e == Error::NotEnoughShares,
            res matches Ok(bytes) ==> bytes@ == be_bytes(crt(share@.shares) % share@.n0),
    {
        if share.shares.len() < self.threshold as usize {
            return Err(Error::NotEnoughShares);
        }
        let s0 = chinese_remainder(&share.shares);
        let s = big_rem(&s0, &share.n0);
        Ok(to_bytes_be(&s))
    }
}

/// The shares at the places `picked`, in that order.
pub open spec fn pick(shares: Seq<(nat, nat)>, picked: Seq<int>) -> Seq<(nat, nat)> {
    picked.map_values(|i: int| shares[i])
}

/// Places in a sequence of `n` items, no place twice.
pub open spec fn distinct_places(picked: Seq<int>, n: nat) -> bool {
    &&& forall|i: int| 0 <= i < picked.len() ==> 0 <= #[trigger] picked[i] < n
    &&& forall|i: int, j: int| 0 <= i < j < picked.len() ==> #[trigger] picked[i] != #[trigger] picked[j]
}

/// The numbers at the places `picked`.
pub open spec fn pick_numbers(numbers: Seq<nat>, picked: Seq<int>) -> Seq<nat> {
    picked.map_values(|i: int| numbers[i])
}

/// Among distinct places one is the largest, and it is not below the
/// number of the other places.
proof fn lemma_largest_place(picked: Seq<int>, n: nat) -> (m: int)
    requires
        distinct_places(picked, n),
        picked.len() > 0,
    ensures
        0 <= m < picked.len(),
        forall|i: int| 0 <= i < picked.len() ==> #[trigger] picked[i] <= picked[m],
        picked[m] >= picked.len() - 1,
    decreases picked.len(),
{
    let k = picked.len() as int;
    let m = if k == 1 {
        0
    } else {
        let init = picked.drop_last();
        assert forall|i: int| 0 <= i < init.len() implies 0 <= #[trigger] init[i] < n by {
            assert(init[i] == picked[i]);
        }
        assert forall|i: int, j: int| 0 <= i < j < init.len() implies #[trigger] init[i]
            != #[trigger] init[j] by {
            assert(init[i] == picked[i] && init[j] == picked[j]);
        }
        let before = lemma_largest_place(init, n);
        let m = if picked[before] < picked[k - 1] {
            k - 1
        } else {
            before
        };
        assert forall|i: int| 0 <= i < picked.len() implies #[trigger] picked[i] <= picked[m] by {
            if i < k - 1 {
                assert(init[i] <= init[before]);
            }
        }
        m
    };
    if picked[m] < k - 1 {
        // k different places below k - 1
        let shifted = picked.map_values(|p: int| (p + 1) as nat);
        assert forall|i: int| 0 <= i < shifted.len() implies 1 <= #[trigger] shifted[i] <= k - 1 by {
            assert(0 <= picked[i] <= picked[m]);
        }
        assert forall|i: int, j: int| 0 <= i < j < shifted.len() implies #[trigger] shifted[i]
            != #[trigger] shifted[j] by {
            assert(picked[i] != picked[j]);
        }
        lemma_pigeonhole(shifted, (k - 1) as nat);
    }
    m
}

/// The product of increasing positive numbers at distinct places is not
/// below the product of as many of the first.
proof fn lemma_picked_product(numbers: Seq<nat>, picked: Seq<int>)
    requires
        distinct_places(picked, numbers.len()),
        forall|i: int| 0 <= i < numbers.len() ==> #[trigger] numbers[i] >= 1,
        forall|i: int, j: int| 0 <= i < j < numbers.len() ==> #[trigger] numbers[i] < #[trigger] numbers[j],
    ensures
        picked.len() <= numbers.len(),
        product(numbers.subrange(0, picked.len() as int)) <= product(pick_numbers(numbers, picked)),
    decreases picked.len(),
{
    let k = picked.len() as int;
    let some = pick_numbers(numbers, picked);
    if k == 0 {
        assert(numbers.subrange(0, 0) =~= Seq::<nat>::empty());
        assert(some =~= Seq::<nat>::empty());
    } else {
        let m = lemma_largest_place(picked, numbers.len());
        let rest = picked.remove(m);
        assert forall|i: int| 0 <= i < rest.len() implies 0 <= #[trigger] rest[i] < numbers.len() by {
            if i < m {
                assert(rest[i] == picked[i]);
            } else {
                assert(rest[i] == picked[i + 1]);
            }
        }
        assert forall|i: int, j: int| 0 <= i < j < rest.len() implies #[trigger] rest[i]
            != #[trigger] rest[j] by {
            let pi = if i < m { i } else { i + 1 };
            let pj = if j < m { j } else { j + 1 };
            assert(rest[i] == picked[pi] && rest[j] == picked[pj]);
            assert(picked[pi] != picked[pj]);
        }
        lemma_picked_product(numbers, rest);
        assert(some.remove(m) =~= pick_numbers(numbers, rest));
        lemma_product_remove(some, m);
        let first = numbers.subrange(0, k - 1);
        assert(numbers.subrange(0, k) =~= first.push(numbers[k - 1]));
        lemma_product_push(first, numbers[k - 1]);
        assert(numbers[k - 1] <= some[m]) by {
            if k - 1 < picked[m] {
                assert(numbers[k - 1] < numbers[picked[m]]);
            }
        }
        assert(product(first) * numbers[k - 1] <= some[m] * product(some.remove(m)))
            by (nonlinear_arith)
            requires
                product(first) <= product(some.remove(m)),
                numbers[k - 1] <= some[m],
        ;
    }
}

/// The product of numbers does not depend on their order.
proof fn lemma_product_any_order(numbers: Seq<nat>, places: Seq<int>)
    requires
        distinct_places(places, numbers.len()),
        places.len() == numbers.len(),
    ensures
        product(pick_numbers(numbers, places)) == product(numbers),
    decreases numbers.len(),
{
    let n = numbers.len() as int;
    let some = pick_numbers(numbers, places);
    if n == 0 {
        assert(some =~= numbers);
    } else {
        let m = lemma_largest_place(places, numbers.len());
        assert(places[m] == n - 1);
        let rest = places.remove(m);
        let init = numbers.drop_last();
        assert forall|i: int| 0 <= i < rest.len() implies 0 <= #[trigger] rest[i] < init.len() by {
            let pi = if i < m { i } else { i + 1 };
            assert(rest[i] == places[pi]);
            assert(places[pi] != places[m]);
        }
        assert forall|i: int, j: int| 0 <= i < j < rest.len() implies #[trigger] rest[i]
            != #[trigger] rest[j] by {
            let pi = if i < m { i } else { i + 1 };
            let pj = if j < m { j } else { j + 1 };
            assert(rest[i] == places[pi] && rest[j] == places[pj]);
            assert(places[pi] != places[pj]);
        }
        lemma_product_any_order(init, rest);
        assert(some.remove(m) =~= pick_numbers(init, rest));
        lemma_product_remove(some, m);
        assert(some[m] * product(init) == product(init) * numbers.last()) by (nonlinear_arith)
            requires
                some[m] == numbers.last(),
        ;
    }
}

/// Recovery does not depend on the order of the shares: the shares in
/// another order have the same solution.
pub proof fn lemma_crt_any_order(shares: Seq<(nat, nat)>, places: Seq<int>)
    requires
        crt_moduli(shares),
        distinct_places(places, shares.len()),
        places.len() == shares.len(),
    ensures
        crt_moduli(pick(shares, places)),
        crt(pick(shares, places)) == crt(shares),
{
    let some = pick(shares, places);
    let ms = moduli(shares);
    assert forall|i: int| 0 <= i < some.len() implies (#[trigger] some[i]).1 >= 1 by {
        assert(some[i] == shares[places[i]]);
    }
    assert forall|i: int, j: int| 0 <= i < j < some.len() implies coprime(
        #[trigger] moduli(some)[i],
        #[trigger] moduli(some)[j],
    ) by {
        assert(places[i] != places[j]);
        assert(moduli(some)[i] == ms[places[i]] && moduli(some)[j] == ms[places[j]]);
        if places[i] < places[j] {
            assert(coprime(ms[places[i]], ms[places[j]]));
        } else {
            assert(coprime(ms[places[j]], ms[places[i]]));
            lemma_coprime_symmetric(ms[places[j]], ms[places[i]]);
        }
    }
    lemma_crt_exists(shares);
    let x = crt(shares);
    lemma_product_any_order(ms, places);
    assert(moduli(some) =~= pick_numbers(ms, places));
    assert forall|i: int| 0 <= i < some.len() implies congruent(x, #[trigger] some[i]) by {
        assert(some[i] == shares[places[i]]);
        assert(congruent(x, shares[places[i]]));
    }
    lemma_crt_is(some, x);
}

/// Sharing, then recovering: any `threshold` or more different shares of
/// a secret number, in any order, are shares from which it can be
/// recovered, and the solution of their congruences reduced modulo the
/// public modulus is the secret.
///
/// The moduli are probable primes, so that every two of them are coprime is
/// asked for here and not known from how they were found.
pub proof fn lemma_recover_shares(params: ShareParameters, s: nat, alpha: nat, picked: Seq<int>)
    requires
        params.valid(),
        pairwise_coprime(params.primes),
        s < params.n0,
        1 <= alpha < params.mask_limit(s),
        picked.len() >= params.threshold,
        distinct_places(picked, params.primes.len()),
    ensures
        ({
            let all = shares_of(params.n0, params.primes, s + alpha * params.n0);
            let some = SecretShares { n0: params.n0, shares: pick(all.shares, picked) };
            some.recoverable() && crt(some.shares) % params.n0 == s
        }),
{
    let n0 = params.n0;
    let primes = params.primes;
    let t = params.threshold as int;
    let m = s + alpha * n0;
    let all = shares_of(n0, primes, m);
    let some = pick(all.shares, picked);
    let ms = moduli(some);
    let high = product(primes.subrange(0, t));
    lemma_mask_range(params, s);
    // the masked secret stays below the product of the smallest moduli
    let q = params.mask_limit(s);
    lemma_fundamental_div_mod(high - s, n0 as int);
    vstd::arithmetic::div_mod::lemma_mod_bound(high - s, n0 as int);
    assert(m < high) by (nonlinear_arith)
        requires
            m == s + alpha * n0,
            alpha + 1 <= q,
            high - s == n0 * q + (high - s) % (n0 as int),
            0 <= (high - s) % (n0 as int),
            n0 > 0,
    ;
    // which is not above the product of the moduli picked
    let k = picked.len() as int;
    assert forall|i: int| 0 <= i < primes.len() implies #[trigger] primes[i] >= 1 by {
        assert(n0 < primes[i]);
    }
    lemma_picked_product(primes, picked);
    assert(ms =~= pick_numbers(primes, picked));
    lemma_product_prefix(primes, t, k);
    // the moduli picked are positive and pairwise coprime
    assert forall|i: int| 0 <= i < some.len() implies (#[trigger] some[i]).1 >= 1 by {
        assert(some[i].1 == primes[picked[i]]);
        assert(n0 < primes[picked[i]]);
    }
    assert forall|i: int, j: int| 0 <= i < j < ms.len() implies coprime(
        #[trigger] ms[i],
        #[trigger] ms[j],
    ) by {
        assert(picked[i] != picked[j]);
        assert(ms[i] == primes[picked[i]] && ms[j] == primes[picked[j]]);
        if picked[j] < picked[i] {
            lemma_coprime_symmetric(primes[picked[j]], primes[picked[i]]);
        }
    }
    // and the masked secret leaves the residue of every share
    assert forall|i: int| 0 <= i < some.len() implies congruent(m, #[trigger] some[i]) by {
        let p = primes[picked[i]];
        assert(some[i] == share_at(m, p));
        assert(n0 < p);
        lemma_mod_twice(m as int, p as int);
    }
    lemma_crt_is(some, m);
    lemma_mod_multiples_vanish(alpha as int, s as int, n0 as int);
    lemma_small_mod(s, n0);
    assert(alpha * n0 + s == m) by (nonlinear_arith)
        requires
            m == s + alpha * n0,
    ;
    assert(n0 * alpha == alpha * n0) by (nonlinear_arith);
}

/// Sharing, then recovering, in bytes: from any `threshold` or more
/// different shares of a secret of at most `max_bits` bits, in any order,
/// the bytes recovered write the number that the secret writes. They are the secret
/// itself when it does not start with a zero byte, or is one zero byte;
/// leading zero bytes are not recovered.
pub proof fn lemma_recover_secret_bytes(
    params: ShareParameters,
    secret: Seq<u8>,
    alpha: nat,
    picked: Seq<int>,
)
    requires
        params.valid(),
        pairwise_coprime(params.primes),
        8 * secret.len() <= params.max_bits,
        1 <= alpha < params.mask_limit(be_value(secret)),
        picked.len() >= params.threshold,
        distinct_places(picked, params.primes.len()),
    ensures
        ({
            let all = shares_of(params.n0, params.primes, be_value(secret) + alpha * params.n0);
            let some = SecretShares { n0: params.n0, shares: pick(all.shares, picked) };
            let bytes = be_bytes(crt(some.shares) % params.n0);
            &&& some.recoverable()
            &&& bytes == be_bytes(be_value(secret))
            &&& be_value(bytes) == be_value(secret)
            &&& secret.len() > 0 && (secret[0] != 0 || secret.len() == 1) ==> bytes == secret
        }),
{
    lemma_be_value_of_bytes(be_value(secret));
    lemma_be_value_bound(secret);
    lemma_pow_256(secret.len());
    vstd::arithmetic::power::lemma_pow_increases(2, 8 * secret.len(), params.max_bits);
    lemma_recover_shares(params, be_value(secret), alpha, picked);
    if secret.len() > 0 && (secret[0] != 0 || secret.len() == 1) {
        lemma_be_bytes_of_value(secret);
    }
}

} // verus!
