use asmuth_bloom_secret_sharing::ops::{
    are_coprime, is_strong_probable_prime, miller_rabin_test, modular_pow, mul_inv, pow,
};
use num::bigint::{BigUint, ToBigUint};
use num::traits::{One, Zero};

fn big(x: u64) -> BigUint {
    BigUint::from(x)
}

#[test]
fn test_miller_rabin_problems() {
    assert!(miller_rabin_test(&113.to_biguint().unwrap(), 30));
}

#[test]
fn test_miller_rabin() {
    let rounds = 7;
    let prime = 982_451_653.to_biguint().unwrap();
    assert!(miller_rabin_test(&prime, rounds));
    assert!(!miller_rabin_test(&(&prime + 2.to_biguint().unwrap()), rounds));
    let big_prime = 32_416_190_071u64.to_biguint().unwrap();
    assert!(miller_rabin_test(&big_prime, rounds));
    let big_no_prime = big_prime + 2.to_biguint().unwrap();
    println!("Big No Prime : {}", &big_no_prime);
    assert!(!miller_rabin_test(&big_no_prime, rounds));

    let very_big_num = (BigUint::one() << 640) + BigUint::one();

    let is_prime = miller_rabin_test(&very_big_num, rounds);
    println!("very big num : {} is prime {}", &very_big_num, is_prime);
    let m521 = (BigUint::one() << 521) - BigUint::one();
    assert!(miller_rabin_test(&m521, rounds));
}

#[test]
fn test_pow() {
    let b = 2.to_biguint().unwrap();
    assert_eq!(pow(&b, &BigUint::zero()), BigUint::one());
    assert_eq!(pow(&b, &BigUint::one()), b.clone());
    assert_eq!(pow(&b, &2.to_biguint().unwrap()), 4.to_biguint().unwrap());
    assert_eq!(pow(&b, &3.to_biguint().unwrap()), 8.to_biguint().unwrap());
    assert_eq!(pow(&b, &4.to_biguint().unwrap()), 16.to_biguint().unwrap());
    assert_eq!(pow(&b, &5.to_biguint().unwrap()), 32.to_biguint().unwrap());
    assert_eq!(pow(&b, &6.to_biguint().unwrap()), 64.to_biguint().unwrap());
    assert_eq!(pow(&b, &7.to_biguint().unwrap()), 128.to_biguint().unwrap());
    assert_eq!(pow(&b, &8.to_biguint().unwrap()), 256.to_biguint().unwrap());
    assert_eq!(pow(&b, &9.to_biguint().unwrap()), 512.to_biguint().unwrap());
}

#[test]
fn test_modular_pow() {
    let b = 2.to_biguint().unwrap();
    let m = 7907.to_biguint().unwrap();
    assert_eq!(modular_pow(&b, &BigUint::zero(), &m), BigUint::one());
    assert_eq!(modular_pow(&b, &BigUint::one(), &m), b.clone());
    assert_eq!(modular_pow(&b, &2.to_biguint().unwrap(), &m), 4.to_biguint().unwrap());
    assert_eq!(modular_pow(&b, &3.to_biguint().unwrap(), &m), 8.to_biguint().unwrap());
    assert_eq!(modular_pow(&b, &4.to_biguint().unwrap(), &m), 16.to_biguint().unwrap());
    assert_eq!(modular_pow(&b, &5.to_biguint().unwrap(), &m), 32.to_biguint().unwrap());
    assert_eq!(modular_pow(&b, &6.to_biguint().unwrap(), &m), 64.to_biguint().unwrap());
    assert_eq!(modular_pow(&b, &7.to_biguint().unwrap(), &m), 128.to_biguint().unwrap());
    assert_eq!(modular_pow(&b, &8.to_biguint().unwrap(), &m), 256.to_biguint().unwrap());
    assert_eq!(modular_pow(&b, &9.to_biguint().unwrap(), &m), 512.to_biguint().unwrap());
}

#[test]
fn pow_of_other_bases() {
    assert_eq!(pow(&big(3), &big(5)), big(243));
    assert_eq!(pow(&big(10), &big(18)), big(1_000_000_000_000_000_000));
    assert_eq!(pow(&big(0), &big(0)), big(1));
    assert_eq!(pow(&big(0), &big(7)), big(0));
    assert_eq!(pow(&big(7), &big(1)), big(7));
    assert_eq!(pow(&big(2), &big(100)), BigUint::one() << 100);
}

#[test]
fn modular_pow_reduces() {
    assert_eq!(modular_pow(&big(2), &big(13), &big(7907)), big(8192 % 7907));
    assert_eq!(modular_pow(&big(4), &big(13), &big(497)), big(445));
    assert_eq!(modular_pow(&big(10), &big(3), &big(7)), big(6));
    assert_eq!(modular_pow(&big(12345), &big(0), &big(7)), big(1));
    assert_eq!(modular_pow(&big(12345), &big(6789), &big(1)), big(0));
    assert_eq!(modular_pow(&big(0), &big(5), &big(9)), big(0));
}

#[test]
fn mul_inv_is_the_inverse() {
    assert_eq!(mul_inv(&big(3), &big(11)), big(4));
    assert_eq!(mul_inv(&big(3), &big(2)), big(1));
    assert_eq!(mul_inv(&big(10), &big(17)), big(12));
    assert_eq!(mul_inv(&big(17), &big(3120)), big(2753));
    assert_eq!(mul_inv(&big(1), &big(5)), big(1));
    assert_eq!(mul_inv(&big(42), &big(1)), big(1));
    assert_eq!(mul_inv(&big(35), &big(3)), big(2));
    for m in [7u64, 9, 16, 101, 7907] {
        for a in 1..m {
            if are_coprime(&big(a), &big(m)) {
                let x = mul_inv(&big(a), &big(m));
                assert!(x < big(m));
                assert_eq!((big(a) * x) % big(m), big(1));
            }
        }
    }
}

#[test]
fn are_coprime_by_common_divisors() {
    assert!(are_coprime(&big(8), &big(15)));
    assert!(!are_coprime(&big(12), &big(18)));
    assert!(are_coprime(&big(1), &big(0)));
    assert!(are_coprime(&big(0), &big(1)));
    assert!(!are_coprime(&big(0), &big(0)));
    assert!(!are_coprime(&big(5), &big(0)));
    assert!(are_coprime(&big(1), &big(1)));
    assert!(!are_coprime(&big(7), &big(7)));
}

#[test]
fn strong_probable_prime_to_a_base() {
    // 2047 = 23 * 89 is the least strong pseudoprime to base 2
    assert!(is_strong_probable_prime(&big(2047), &big(2)));
    assert!(!is_strong_probable_prime(&big(2047), &big(3)));
    // 561 = 3 * 11 * 17 is a Carmichael number
    assert!(!is_strong_probable_prime(&big(561), &big(2)));
    assert!(is_strong_probable_prime(&big(113), &big(2)));
    assert!(is_strong_probable_prime(&big(113), &big(111)));
    assert!(!is_strong_probable_prime(&big(9), &big(2)));
    assert!(is_strong_probable_prime(&big(7), &big(3)));
}

#[test]
fn miller_rabin_small_numbers() {
    assert!(miller_rabin_test(&big(3), 10));
    assert!(miller_rabin_test(&big(5), 10));
    assert!(miller_rabin_test(&big(7), 10));
    assert!(!miller_rabin_test(&big(9), 20));
    assert!(!miller_rabin_test(&big(15), 20));
    assert!(miller_rabin_test(&big(15), 0));
}

#[test]
fn miller_rabin_draws_its_bases() {
    // strong pseudoprimes to base 2: a test that tried no other base would take them for primes
    for n in [2047u64, 3277, 4033, 4681, 8321, 15841, 29341] {
        assert!(is_strong_probable_prime(&big(n), &big(2)));
        assert!(!miller_rabin_test(&big(n), 40));
    }
}

#[test]
fn miller_rabin_refuses_no_prime() {
    for p in [5u64, 7, 11, 13, 101, 7907, 65537, 2_147_483_647] {
        for _ in 0..5 {
            assert!(miller_rabin_test(&big(p), 10));
        }
        for a in 1..5u64 {
            assert!(is_strong_probable_prime(&big(p), &big(a)));
        }
    }
}
