//! The probable primes above a bound, in increasing order.

use crate::bignum::{big_add, big_clone, big_eq, big_rem, big_sub, from_u64, uval, uvals};
use crate::ops::{accepted, miller_rabin_test, rejected};
use crate::primality::{is_prime, lemma_odd_prime_above, lemma_rejected_is_composite};
use num::bigint::BigUint;
use vstd::prelude::*;

verus! {

/// `p` is what a search that starts after the odd number `prev` finds: the
/// first odd number above `prev` that the test accepted, every odd number
/// between them having been proved composite.
pub open spec fn found_after(prev: nat, p: nat, rounds: nat) -> bool {
    &&& prev < p
    &&& p % 2 == 1
    &&& accepted(p, rounds)
    &&& forall|x: nat| prev < x < p && x % 2 == 1 ==> #[trigger] rejected(x)
}

/// A search passes over no prime: what it finds is not above any odd prime
/// above its start.
pub proof fn lemma_found_before_prime(prev: nat, p: nat, rounds: nat, q: nat)
    requires
        found_after(prev, p, rounds),
        is_prime(q),
        prev < q,
        q % 2 == 1,
    ensures
        p <= q,
{
    if q < p {
        assert(rejected(q));
        lemma_rejected_is_composite(q);
    }
}

/// What a search for `ps[i]` started after: `start` for the first, the one
/// found before for the others.
pub open spec fn start_of(start: nat, ps: Seq<nat>, i: int) -> nat {
    if i == 0 {
        start
    } else {
        ps[i - 1]
    }
}

/// `ps[i]` is what the search that started after the number before it
/// found.
pub open spec fn found_at(start: nat, ps: Seq<nat>, rounds: nat, i: int) -> bool {
    found_after(start_of(start, ps, i), ps[i], rounds)
}

/// `ps` is a run of searches from `start` on, each taken up where the one
/// before ended.
pub open spec fn found_in_turn(start: nat, ps: Seq<nat>, rounds: nat) -> bool {
    forall|i: int| 0 <= i < ps.len() ==> #[trigger] found_at(start, ps, rounds, i)
}

/// Each number found in turn is above the one before it, and so above the
/// start.
pub proof fn lemma_found_above(start: nat, ps: Seq<nat>, rounds: nat, i: int)
    requires
        found_in_turn(start, ps, rounds),
        0 <= i < ps.len(),
    ensures
        start < ps[i],
        i > 0 ==> ps[i - 1] < ps[i],
    decreases i,
{
    assert(found_at(start, ps, rounds, i));
    if i > 0 {
        lemma_found_above(start, ps, rounds, i - 1);
    }
}

/// Numbers found in turn are strictly increasing.
pub proof fn lemma_found_increasing(start: nat, ps: Seq<nat>, rounds: nat, i: int, j: int)
    requires
        found_in_turn(start, ps, rounds),
        0 <= i < j < ps.len(),
    ensures
        ps[i] < ps[j],
    decreases j - i,
{
    lemma_found_above(start, ps, rounds, j);
    if i < j - 1 {
        lemma_found_increasing(start, ps, rounds, i, j - 1);
    }
}

/// The odd number after which the search for the numbers above `bound`
/// starts: `bound` itself, or the number before it when it is even.
pub open spec fn search_start(bound: nat) -> nat {
    if bound % 2 == 0 {
        (bound - 1) as nat
    } else {
        bound
    }
}

/// What a generator hands out is above its bound, odd, accepted by the
/// test, and increasing.
pub proof fn lemma_emitted(bound: nat, ps: Seq<nat>, rounds: nat, i: int, j: int)
    requires
        bound > 0,
        found_in_turn(search_start(bound), ps, rounds),
        0 <= i <= j < ps.len(),
    ensures
        bound < ps[i],
        ps[i] % 2 == 1,
        accepted(ps[i], rounds),
        i < j ==> ps[i] < ps[j],
{
    lemma_found_above(search_start(bound), ps, rounds, i);
    assert(found_at(search_start(bound), ps, rounds, i));
    if i < j {
        lemma_found_increasing(search_start(bound), ps, rounds, i, j);
    }
}

/// Walks the odd numbers above a bound and hands out those that pass the
/// Miller–Rabin test.
pub struct BigPrimesGenerator {
    last_odd: BigUint,
    tests: usize,
}

impl BigPrimesGenerator {
    /// The odd number after which the next search starts.
    pub closed spec fn last(&self) -> nat {
        uval(self.last_odd)
    }

    /// The number of bases drawn for each candidate.
    pub closed spec fn rounds(&self) -> nat {
        self.tests as nat
    }

    /// The search starts after an odd number.
    pub open spec fn valid(&self) -> bool {
        self.last() % 2 == 1
    }

    /// A generator of the probable primes above `bigger_then`, each tested
    /// with `tests` random bases.
    pub fn new(bigger_then: &BigUint, tests: usize) -> (g: Self)
        requires
            uval(*bigger_then) > 0,
        ensures
            g.valid(),
            g.rounds() == tests,
            g.last() == search_start(uval(*bigger_then)),
    {
        let start;
        if big_eq(&big_rem(bigger_then, &from_u64(2)), &from_u64(0)) {
            start = big_sub(bigger_then, &from_u64(1));
        } else {
            start = big_clone(bigger_then);
        }
        BigPrimesGenerator { last_odd: start, tests }
    }

    /// The next probable prime, from which the following search goes on.
    ///
    /// The search ends: there is a prime above every number, and the test
    /// refuses no prime.
    pub fn next(&mut self) -> (res: Option<BigUint>)
        requires
            old(self).valid(),
        ensures
            final(self).valid(),
            final(self).rounds() == old(self).rounds(),
            res is Some,
            found_after(old(self).last(), uval(res->0), old(self).rounds()),
            final(self).last() == uval(res->0),
    {
        let two = from_u64(2);
        let ghost start = uval(self.last_odd);
        let ghost q = lemma_odd_prime_above(start);
        loop
            invariant
                uval(two) == 2,
                start == old(self).last(),
                is_prime(q),
                q % 2 == 1,
                start <= uval(self.last_odd) < q,
                uval(self.last_odd) % 2 == 1,
                self.tests == old(self).tests,
                forall|x: nat| start < x <= uval(self.last_odd) && x % 2 == 1 ==> #[trigger] rejected(x),
            decreases q - uval(self.last_odd),
        {
            let ghost before = uval(self.last_odd);
            self.last_odd = big_add(&self.last_odd, &two);
            proof {
                let now = uval(self.last_odd);
                assert(now % 2 == 1 && now <= q);
                assert forall|x: nat| start < x <= now && x % 2 == 1 && x != now implies #[trigger] rejected(
                    x,
                ) by {
                    assert(x != before + 1);
                    assert(x <= before);
                }
            }
            if miller_rabin_test(&self.last_odd, self.tests) {
                return Some(big_clone(&self.last_odd));
            }
            assert(rejected(uval(self.last_odd)));
        }
    }

    /// The first `n` probable primes that the generator hands out.
    pub fn take(self, n: usize) -> (v: Vec<BigUint>)
        requires
            self.valid(),
        ensures
            v.len() == n,
            found_in_turn(self.last(), uvals(v@), self.rounds()),
    {
        let mut generator = self;
        let mut v: Vec<BigUint> = Vec::new();
        while v.len() < n
            invariant
                v.len() <= n,
                generator.valid(),
                generator.rounds() == self.rounds(),
                generator.last() == start_of(self.last(), uvals(v@), v.len() as int),
                found_in_turn(self.last(), uvals(v@), self.rounds()),
            decreases n - v.len(),
        {
            let ghost before = uvals(v@);
            if let Some(p) = generator.next() {
                v.push(p);
                proof {
                    let now = uvals(v@);
                    assert(now =~= before.push(uval(p)));
                    assert forall|i: int| 0 <= i < now.len() implies #[trigger] found_at(
                        self.last(),
                        now,
                        self.rounds(),
                        i,
                    ) by {
                        if i < before.len() {
                            assert(found_at(self.last(), before, self.rounds(), i));
                        }
                    }
                }
            }
        }
        v
    }
}

} // verus!
