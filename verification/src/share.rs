//! Parameters of the Asmuth–Bloom scheme and the making of shares.

use crate::bignum::{
    big_add, big_clone, big_div, big_lt, big_mul, big_rem, big_sub, from_bytes_be, from_u64,
    os_random_range, os_rng, uval, uvals,
};
use crate::bytes::{be_value, lemma_be_value_bound, lemma_pow_256};
use crate::error::Error;
use crate::number_theory::{
    lemma_product_monotone, lemma_product_positive, lemma_product_remove, product,
};
use crate::ops::pow;
use crate::primes::{
    found_after, found_in_turn, lemma_found_above, lemma_found_increasing, BigPrimesGenerator,
};
use num::bigint::BigUint;
use rand::rngs::OsRng;
use vstd::arithmetic::power::{lemma_pow_adds, lemma_pow1, lemma_pow_increases, lemma_pow_positive, pow as int_pow};
use vstd::prelude::*;

verus! {

/// The `t - 1` largest moduli times `n0` stay below the `t` smallest: the
/// Asmuth–Bloom inequality.
pub open spec fn ab_inequality(n0: nat, primes: Seq<nat>, t: nat) -> bool {
    n0 * product(primes.subrange(primes.len() - t + 1, primes.len() as int)) < product(
        primes.subrange(0, t as int),
    )
}

/// What a share generator is made of.
pub struct ShareParameters {
    /// The number of shares that recover a secret.
    pub threshold: nat,
    /// The most bits a secret can have.
    pub max_bits: nat,
    /// The public modulus.
    pub n0: nat,
    /// The share moduli.
    pub primes: Seq<nat>,
}

impl ShareParameters {
    /// The parameters fit the scheme: the public modulus is above every
    /// secret, the moduli are above it and increasing, and the
    /// Asmuth–Bloom inequality holds.
    pub open spec fn valid(self) -> bool {
        &&& 2 <= self.threshold <= self.primes.len()
        &&& self.max_bits >= 8
        &&& int_pow(2, self.max_bits) < self.n0
        &&& self.n0 < self.primes[0]
        &&& forall|i: int, j: int|
            0 <= i < j < self.primes.len() ==> #[trigger] self.primes[i] < #[trigger] self.primes[j]
        &&& ab_inequality(self.n0, self.primes, self.threshold)
    }

    /// The bound below which the mask of the secret `s` is drawn.
    pub open spec fn mask_limit(self, s: nat) -> nat {
        ((product(self.primes.subrange(0, self.threshold as int)) - s) / (self.n0 as int)) as nat
    }
}

/// A public modulus and shares, each a residue with its modulus.
pub struct SecretShares {
    /// The public modulus.
    pub n0: nat,
    /// The pairs of residue and modulus.
    pub shares: Seq<(nat, nat)>,
}

/// The share of the number `m` for the modulus `p`.
pub open spec fn share_at(m: nat, p: nat) -> (nat, nat) {
    (m % p, p)
}

/// The shares of the number `m`: its residue for each modulus in turn.
pub open spec fn shares_of(n0: nat, primes: Seq<nat>, m: nat) -> SecretShares {
    SecretShares { n0, shares: primes.map_values(|p: nat| share_at(m, p)) }
}

/// The pairs of numbers that a sequence of shares holds.
pub open spec fn share_values(v: Seq<(BigUint, BigUint)>) -> Seq<(nat, nat)> {
    v.map_values(|p: (BigUint, BigUint)| (uval(p.0), uval(p.1)))
}

/// A secret split into shares.
#[derive(Debug)]
pub struct ABSharedSecret {
    pub n0: BigUint,
    pub shares: Vec<(BigUint, BigUint)>,
}

impl View for ABSharedSecret {
    type V = SecretShares;

    open spec fn view(&self) -> SecretShares {
        SecretShares {
            n0: uval(self.n0),
            shares: share_values(self.shares@),
        }
    }
}

/// Generator of shared secrets.
pub struct AsmuthBloomShare {
    threshold: u16,
    max_bits: u16,
    primes: Vec<BigUint>,
    n0: BigUint,
    rng: OsRng,
}

impl View for AsmuthBloomShare {
    type V = ShareParameters;

    closed spec fn view(&self) -> ShareParameters {
        ShareParameters {
            threshold: self.threshold as nat,
            max_bits: self.max_bits as nat,
            n0: uval(self.n0),
            primes: uvals(self.primes@),
        }
    }
}

/// The product of `primes[lo..hi]`.
fn product_of(primes: &Vec<BigUint>, lo: usize, hi: usize) -> (r: BigUint)
    requires
        lo <= hi <= primes.len(),
    ensures
        uval(r) == product(uvals(primes@).subrange(lo as int, hi as int)),
{
    let mut acc = from_u64(1);
    let mut i: usize = lo;
    let ghost vals = uvals(primes@);
    while i < hi
        invariant
            lo <= i <= hi <= primes.len(),
            vals == uvals(primes@),
            uval(acc) == product(vals.subrange(lo as int, i as int)),
        decreases hi - i,
    {
        proof {
            let next = vals.subrange(lo as int, i + 1);
            assert(next.drop_last() =~= vals.subrange(lo as int, i as int));
            assert(next.last() == uval(primes@[i as int]));
        }
        acc = big_mul(&acc, &primes[i]);
        i += 1;
    }
    acc
}

/// Whether `n0` and `primes` satisfy the Asmuth–Bloom inequality for the
/// threshold `k`.
pub fn test_primes(n0: &BigUint, primes: &Vec<BigUint>, k: u16) -> (r: bool)
    requires
        1 <= k <= primes.len(),
    ensures
        r == ab_inequality(uval(*n0), uvals(primes@), k as nat),
{
    let bi = primes.len() - (k as usize) + 1;
    let low = big_mul(n0, &product_of(primes, bi, primes.len()));
    let high = product_of(primes, 0, k as usize);
    big_lt(&low, &high)
}

/// The first `n` probable primes above `2^min_n1_bits`.
fn gen_primes(min_n1_bits: u32, n: u16, tests: usize) -> (v: Vec<BigUint>)
    requires
        min_n1_bits >= 1,
    ensures
        v.len() == n,
        found_in_turn((int_pow(2, min_n1_bits as nat) - 1) as nat, uvals(v@), tests as nat),
{
    let min1_n1 = pow(&from_u64(2), &from_u64(min_n1_bits as u64));
    proof {
        lemma_pow2_even(min_n1_bits as nat);
    }
    BigPrimesGenerator::new(&min1_n1, tests).take(n as usize)
}

/// A power of two with a positive exponent is even and positive.
pub proof fn lemma_pow2_even(e: nat)
    requires
        e >= 1,
    ensures
        int_pow(2, e) > 0,
        int_pow(2, e) % 2 == 0,
{
    lemma_pow_adds(2, 1, (e - 1) as nat);
    lemma_pow1(2);
    lemma_pow_positive(2, (e - 1) as nat);
    let h = int_pow(2, (e - 1) as nat);
    assert((2 * h) % 2 == 0) by (nonlinear_arith);
}

/// With valid parameters every modulus is above the public modulus, and a
/// secret below the public modulus leaves room for a mask: the range from
/// which the mask is drawn is not empty.
pub proof fn lemma_mask_range(params: ShareParameters, s: nat)
    requires
        params.valid(),
        s < params.n0,
    ensures
        forall|i: int| 0 <= i < params.primes.len() ==> params.n0 < #[trigger] params.primes[i],
        s <= product(params.primes.subrange(0, params.threshold as int)),
        params.mask_limit(s) >= 2,
{
    let n0 = params.n0;
    let primes = params.primes;
    let n = primes.len() as int;
    let t = params.threshold as int;
    assert forall|i: int| 0 <= i < n implies n0 < #[trigger] primes[i] by {
        if i > 0 {
            assert(primes[0] < primes[i]);
        }
    }
    let top = primes.subrange(n - t + 1, n);
    assert forall|i: int| 0 <= i < top.len() implies #[trigger] top[i] >= 1 by {
        assert(top[i] == primes[n - t + 1 + i]);
    }
    lemma_product_positive(top);
    assert(top.last() == primes[n - 1]);
    let low = product(top);
    let high = product(primes.subrange(0, t));
    lemma_pow_positive(2, params.max_bits);
    assert(n0 >= 2);
    assert(n0 * n0 <= n0 * low) by (nonlinear_arith)
        requires
            n0 < low,
    ;
    assert(high - s >= 2 * n0) by (nonlinear_arith)
        requires
            n0 * n0 < high,
            s < n0,
            n0 >= 2,
    ;
    vstd::arithmetic::div_mod::lemma_div_is_ordered((2 * n0) as int, high - s, n0 as int);
    vstd::arithmetic::div_mod::lemma_div_multiples_vanish(2, n0 as int);
    assert(2 * n0 == n0 * 2) by (nonlinear_arith);
}

/// Where the Asmuth–Bloom inequality holds of increasing moduli, the
/// public modulus is below the first of them.
pub proof fn lemma_ab_first(n0: nat, primes: Seq<nat>, t: nat)
    requires
        2 <= t <= primes.len(),
        forall|i: int| 0 <= i < primes.len() ==> #[trigger] primes[i] >= 1,
        forall|i: int, j: int| 0 <= i < j < primes.len() ==> #[trigger] primes[i] < #[trigger] primes[j],
        ab_inequality(n0, primes, t),
    ensures
        n0 < primes[0],
{
    let n = primes.len() as int;
    let smallest = primes.subrange(0, t as int);
    let largest = primes.subrange(n - t + 1, n);
    let others = primes.subrange(1, t as int);
    assert forall|i: int| 0 <= i < others.len() implies #[trigger] others[i] <= largest[i] by {
        assert(others[i] == primes[1 + i] && largest[i] == primes[n - t + 1 + i]);
        if 1 + i < n - t + 1 + i {
            assert(primes[1 + i] < primes[n - t + 1 + i]);
        }
    }
    lemma_product_monotone(others, largest);
    lemma_product_remove(smallest, 0);
    assert(smallest.remove(0) =~= others);
    assert forall|i: int| 0 <= i < others.len() implies #[trigger] others[i] >= 1 by {
        assert(others[i] == primes[1 + i]);
    }
    lemma_product_positive(others);
    assert(n0 < primes[0]) by (nonlinear_arith)
        requires
            n0 * product(largest) < primes[0] * product(others),
            product(others) <= product(largest),
            product(others) >= 1,
    ;
}

/// An attempt with moduli above `2^bits` failed: the moduli that the search
/// found do not satisfy the Asmuth–Bloom inequality.
pub open spec fn attempt_failed(n0: nat, bits: nat, shares: nat, threshold: nat, tests: nat) -> bool {
    exists|ps: Seq<nat>|
        #[trigger] found_in_turn((int_pow(2, bits) - 1) as nat, ps, tests) && ps.len() == shares
            && !ab_inequality(n0, ps, threshold)
}

impl AsmuthBloomShare {
    /// A generator for secrets of at most `max_bits` bits, split into
    /// `shares` shares of which `threshold` recover the secret. Each modulus
    /// is a probable prime that passed `tests` rounds of the Miller–Rabin
    /// test.
    ///
    /// The public modulus is the first probable prime above `2^max_bits`.
    /// The moduli are the first probable primes above `2^bits`, for the
    /// first `bits` among `max_bits + 1`, `max_bits + 2` and `max_bits + 3`
    /// with which the Asmuth–Bloom inequality holds; with none of them the
    /// result is `CannotSatisfyABCondition`. Which numbers pass for primes
    /// is up to the bases that the test draws.
    pub fn new(max_bits: u16, shares: u16, threshold: u16, tests: usize) -> (res: Result<Self, Error>)
        requires
            max_bits >= 8,
            shares >= threshold,
            threshold >= 2,
        ensures
            match res {
                Ok(g) => {
                    &&& g@.valid()
                    &&& g@.threshold == threshold
                    &&& g@.max_bits == max_bits
                    &&& g@.primes.len() == shares
                    &&& found_after((int_pow(2, max_bits as nat) - 1) as nat, g@.n0, tests as nat)
                    &&& exists|bits: nat|
                        {
                            &&& max_bits < bits <= max_bits + 3
                            &&& found_in_turn(
                                (#[trigger] int_pow(2, bits) - 1) as nat,
                                g@.primes,
                                tests as nat,
                            )
                            &&& forall|b: nat|
                                max_bits < b < bits ==> #[trigger] attempt_failed(
                                    g@.n0,
                                    b,
                                    shares as nat,
                                    threshold as nat,
                                    tests as nat,
                                )
                        }
                },
                Err(e) => {
                    &&& e == Error::CannotSatisfyABCondition
                    &&& exists|n0: nat|
                        {
                            &&& #[trigger] found_after(
                                (int_pow(2, max_bits as nat) - 1) as nat,
                                n0,
                                tests as nat,
                            )
                            &&& forall|b: nat|
                                max_bits < b <= max_bits + 3 ==> #[trigger] attempt_failed(
                                    n0,
                                    b,
                                    shares as nat,
                                    threshold as nat,
                                    tests as nat,
                                )
                        }
                },
            },
    {
        let min_prime_limit = pow(&from_u64(2), &from_u64(max_bits as u64));
        let ghost floor = int_pow(2, max_bits as nat);
        proof {
            lemma_pow2_even(max_bits as nat);
        }
        let mut first = BigPrimesGenerator::new(&min_prime_limit, tests);
        let n0 = first.next().unwrap();
        let mut min_n1_bits: u32 = max_bits as u32 + 1;
        let mut tries: u8 = 3;
        while tries > 0
            invariant
                max_bits >= 8,
                shares >= threshold,
                threshold >= 2,
                tries <= 3,
                min_n1_bits + tries == max_bits + 4,
                floor == int_pow(2, max_bits as nat),
                floor > 0,
                floor % 2 == 0,
                found_after((floor - 1) as nat, uval(n0), tests as nat),
                forall|b: nat|
                    max_bits < b < min_n1_bits ==> #[trigger] attempt_failed(
                        uval(n0),
                        b,
                        shares as nat,
                        threshold as nat,
                        tests as nat,
                    ),
            decreases tries,
        {
            let primes = gen_primes(min_n1_bits, shares, tests);
            if test_primes(&n0, &primes, threshold) {
                proof {
                    let ps = uvals(primes@);
                    let start = (int_pow(2, min_n1_bits as nat) - 1) as nat;
                    assert forall|i: int, j: int| 0 <= i < j < ps.len() implies #[trigger] ps[i]
                        < #[trigger] ps[j] by {
                        lemma_found_increasing(start, ps, tests as nat, i, j);
                    }
                    assert forall|i: int| 0 <= i < ps.len() implies #[trigger] ps[i] >= 1 by {
                        lemma_found_above(start, ps, tests as nat, i);
                    }
                    lemma_ab_first(uval(n0), ps, threshold as nat);
                    assert(uval(n0) != floor);
                }
                return Ok(AsmuthBloomShare { threshold, max_bits, n0, primes, rng: os_rng() });
            }
            proof {
                assert(found_in_turn(
                    (int_pow(2, min_n1_bits as nat) - 1) as nat,
                    uvals(primes@),
                    tests as nat,
                ));
                assert(attempt_failed(
                    uval(n0),
                    min_n1_bits as nat,
                    shares as nat,
                    threshold as nat,
                    tests as nat,
                ));
            }
            min_n1_bits += 1;
            tries -= 1;
        }
        Err(Error::CannotSatisfyABCondition)
    }

    /// The public modulus.
    pub fn n0(&self) -> (r: &BigUint)
        ensures
            uval(*r) == self@.n0,
    {
        &self.n0
    }

    /// The share moduli, in increasing order.
    pub fn primes(&self) -> (r: &Vec<BigUint>)
        ensures
            uvals(r@) == self@.primes,
    {
        &self.primes
    }

    /// The shares of the secret number `s` under the mask `a`: the
    /// residues of `s + a·n0`.
    pub fn share_with(&self, s: &BigUint, a: &BigUint) -> (v: ABSharedSecret)
        requires
            self@.valid(),
        ensures
            v@ == shares_of(self@.n0, self@.primes, uval(*s) + uval(*a) * self@.n0),
    {
        let mod_s = big_add(s, &big_mul(a, &self.n0));
        let mut shares: Vec<(BigUint, BigUint)> = Vec::new();
        let mut i: usize = 0;
        proof {
            lemma_pow_positive(2, self@.max_bits);
            lemma_mask_range(self@, 0);
        }
        while i < self.primes.len()
            invariant
                i <= self.primes.len(),
                forall|j: int| 0 <= j < self@.primes.len() ==> self@.n0 < #[trigger] self@.primes[j],
                shares@.len() == i,
                forall|j: int|
                    0 <= j < i ==> uval(#[trigger] shares@[j].1) == self@.primes[j] && uval(
                        shares@[j].0,
                    ) == uval(mod_s) % self@.primes[j],
            decreases self.primes.len() - i,
        {
            let n = &self.primes[i];
            assert(uval(*n) == self@.primes[i as int]);
            shares.push((big_rem(&mod_s, n), big_clone(n)));
            i += 1;
        }
        let v = ABSharedSecret { n0: big_clone(&self.n0), shares };
        proof {
            let expected = shares_of(self@.n0, self@.primes, uval(mod_s)).shares;
            assert forall|j: int| 0 <= j < expected.len() implies v@.shares[j] == expected[j] by {
                assert(uval(shares@[j].1) == self@.primes[j]);
            }
            assert(v@.shares =~= expected);
        }
        v
    }

    /// Splits `secret`, read as a big-endian number, into shares.
    ///
    /// The mask is drawn at random from 1 up to, and without, the mask
    /// limit of the secret; the shares are those that `share_with` makes
    /// with it.
    pub fn create_share(&mut self, secret: &[u8]) -> (res: Result<ABSharedSecret, Error>)
        requires
            old(self)@.valid(),
        ensures
            final(self)@ == old(self)@,
            res is Err <==> 8 * secret@.len() > old(self)@.max_bits,
            res matches Err(e) ==> e == Error::SecretTooLong,
            res matches Ok(v) ==> exists|alpha: nat|
                1 <= alpha < old(self)@.mask_limit(be_value(secret@)) && v@ == #[trigger] shares_of(
                    old(self)@.n0,
                    old(self)@.primes,
                    be_value(secret@) + alpha * old(self)@.n0,
                ),
    {
        if secret.len() > (self.max_bits / 8) as usize {
            return Err(Error::SecretTooLong);
        }
        let s = from_bytes_be(secret);
        proof {
            lemma_be_value_bound(secret@);
            lemma_pow_256(secret@.len());
            lemma_pow_increases(2, 8 * secret@.len(), self@.max_bits);
            lemma_mask_range(self@, uval(s));
        }
        let high = product_of(&self.primes, 0, self.threshold as usize);
        let max_limit = big_div(&big_sub(&high, &s), &self.n0);
        let a = os_random_range(&mut self.rng, &from_u64(1), &max_limit);
        let v = self.share_with(&s, &a);
        assert(v@ == shares_of(self@.n0, self@.primes, be_value(secret@) + uval(a) * self@.n0));
        Ok(v)
    }
}

} // verus!
