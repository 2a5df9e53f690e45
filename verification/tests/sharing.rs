use asmuth_bloom_secret_sharing::recover::chinese_remainder;
use asmuth_bloom_secret_sharing::share::test_primes;
use asmuth_bloom_secret_sharing::{
    ABSharedSecret, AsmuthBloomRecover, AsmuthBloomShare, BigPrimesGenerator, Error,
};
use num::bigint::BigUint;

fn rounds(error_level: f64) -> usize {
    error_level.log(0.25).ceil() as usize
}

fn big(x: u64) -> BigUint {
    BigUint::from(x)
}

#[test]
fn test_ab_creation() {
    let mut ab = AsmuthBloomShare::new(50, 5, 3, rounds(1e-9)).unwrap();
    assert_eq!(ab.primes().len(), 5);
    {
        let p = ab.primes();
        assert!(ab.n0() * &p[3] * &p[4] < &p[0] * &p[1] * &p[2]);
    }
    let mut share = ab.create_share(b"ABCD").unwrap();
    assert_eq!((&share).shares.len(), 5);

    let abr = AsmuthBloomRecover::new(3);
    share.shares.remove(1);
    share.shares.remove(2);
    let s = abr.recover_secret(&share).unwrap();

    assert_eq!(&s, b"ABCD");
}

#[test]
fn ab_creation_with_a_longer_secret() {
    let mut ab = AsmuthBloomShare::new(256, 7, 4, rounds(1e-12)).unwrap();
    assert_eq!(ab.primes().len(), 7);
    let my_secret = b"This is very secret, top secret.";
    let mut share = ab.create_share(my_secret).unwrap();
    assert_eq!((&share).shares.len(), 7);

    let abr = AsmuthBloomRecover::new(4);
    share.shares.remove(1);
    share.shares.remove(2);
    share.shares.remove(4);
    let s = abr.recover_secret(&share).unwrap();

    assert_eq!(&s[..], &my_secret[..]);
}

#[test]
fn generator_parameters_fit_the_scheme() {
    for (bits, n, t) in [(8u16, 2u16, 2u16), (16, 4, 2), (50, 5, 3), (64, 5, 5), (128, 6, 4)] {
        let ab = AsmuthBloomShare::new(bits, n, t, rounds(1e-9)).unwrap();
        let p = ab.primes();
        assert_eq!(p.len(), n as usize);
        assert!(*ab.n0() > (BigUint::from(1u32) << (bits as usize)));
        assert!(ab.n0() < &p[0]);
        for pair in p.windows(2) {
            assert!(pair[0] < pair[1]);
        }
        let low: BigUint = p[(n - t + 1) as usize..].iter().product::<BigUint>() * ab.n0();
        let high: BigUint = p[..t as usize].iter().product();
        assert!(low < high);
        assert!(test_primes(ab.n0(), p, t));
    }
}

#[test]
fn test_primes_is_the_inequality() {
    let primes: Vec<BigUint> = vec![big(11), big(13), big(17), big(19)];
    // 5 * 19 < 11 * 13
    assert!(test_primes(&big(5), &primes, 2));
    // 7 * 19 < 11 * 13, 8 * 19 >= 11 * 13
    assert!(test_primes(&big(7), &primes, 2));
    assert!(!test_primes(&big(8), &primes, 2));
    // 5 * 17 * 19 < 11 * 13 * 17, 11 * 17 * 19 >= 11 * 13 * 17
    assert!(test_primes(&big(5), &primes, 3));
    assert!(!test_primes(&big(11), &primes, 3));
    // 11 * 13 * 17 * 19 against 3 * 13 * 17 * 19
    assert!(test_primes(&big(3), &primes, 4));
    // with threshold 1 the public modulus stands alone
    assert!(test_primes(&big(10), &primes, 1));
    assert!(!test_primes(&big(11), &primes, 1));
}

#[test]
fn share_with_gives_the_residues() {
    let ab = AsmuthBloomShare::new(8, 3, 2, rounds(1e-9)).unwrap();
    // the first probable prime above 2^8, then those above 2^9
    assert_eq!(*ab.n0(), big(257));
    assert_eq!(*ab.primes(), vec![big(521), big(523), big(541)]);
    let share = ab.share_with(&big(65), &big(100));
    // 65 + 100 * 257 = 25765
    assert_eq!(share.n0, big(257));
    assert_eq!(
        share.shares,
        vec![
            (big(25765 % 521), big(521)),
            (big(25765 % 523), big(523)),
            (big(25765 % 541), big(541)),
        ]
    );
    let abr = AsmuthBloomRecover::new(2);
    assert_eq!(abr.recover_secret(&share).unwrap(), vec![65u8]);
}

#[test]
fn every_threshold_subset_recovers() {
    let mut ab = AsmuthBloomShare::new(32, 5, 3, rounds(1e-9)).unwrap();
    let secret = b"\x01\x02\x03\xff";
    let share = ab.create_share(secret).unwrap();
    let abr = AsmuthBloomRecover::new(3);
    for a in 0..5 {
        for b in (a + 1)..5 {
            for c in (b + 1)..5 {
                let subset = ABSharedSecret {
                    n0: share.n0.clone(),
                    shares: vec![
                        share.shares[a].clone(),
                        share.shares[b].clone(),
                        share.shares[c].clone(),
                    ],
                };
                assert!(subset.is_recoverable());
                assert_eq!(abr.recover_secret(&subset).unwrap(), secret.to_vec());
            }
        }
    }
}

#[test]
fn recovery_drops_leading_zero_bytes() {
    let mut ab = AsmuthBloomShare::new(32, 3, 2, rounds(1e-9)).unwrap();
    let abr = AsmuthBloomRecover::new(2);
    let share = ab.create_share(b"\x00\x00\x07").unwrap();
    assert_eq!(abr.recover_secret(&share).unwrap(), vec![7u8]);
    let share = ab.create_share(b"").unwrap();
    assert_eq!(abr.recover_secret(&share).unwrap(), vec![0u8]);
    let share = ab.create_share(b"\x00").unwrap();
    assert_eq!(abr.recover_secret(&share).unwrap(), vec![0u8]);
}

#[test]
fn recover_needs_threshold_shares() {
    let mut ab = AsmuthBloomShare::new(50, 5, 3, rounds(1e-9)).unwrap();
    let mut share = ab.create_share(b"ABCD").unwrap();
    share.shares.truncate(2);
    let abr = AsmuthBloomRecover::new(3);
    assert_eq!(abr.recover_secret(&share), Err(Error::NotEnoughShares));
    let abr = AsmuthBloomRecover::new(2);
    assert!(abr.recover_secret(&share).is_ok());
}

#[test]
fn create_share_refuses_long_secrets() {
    let mut ab = AsmuthBloomShare::new(50, 5, 3, rounds(1e-9)).unwrap();
    assert!(matches!(ab.create_share(b"ABCDEFG"), Err(Error::SecretTooLong)));
    assert!(ab.create_share(b"ABCDEF").is_ok());
    let mut ab = AsmuthBloomShare::new(64, 5, 3, rounds(1e-9)).unwrap();
    assert!(matches!(ab.create_share(b"123456789"), Err(Error::SecretTooLong)));
    assert!(ab.create_share(b"12345678").is_ok());
}

#[test]
fn chinese_remainder_solves_the_congruences() {
    // x = 2 mod 3, x = 3 mod 5, x = 2 mod 7
    let c = vec![(big(2), big(3)), (big(3), big(5)), (big(2), big(7))];
    assert_eq!(chinese_remainder(&c), big(23));
    let c = vec![(big(2), big(7)), (big(2), big(3)), (big(3), big(5))];
    assert_eq!(chinese_remainder(&c), big(23));
    // residues need not be reduced
    let c = vec![(big(5), big(3)), (big(8), big(5))];
    assert_eq!(chinese_remainder(&c), big(8));
    let c = vec![(big(4), big(9))];
    assert_eq!(chinese_remainder(&c), big(4));
    let c: Vec<(BigUint, BigUint)> = vec![];
    assert_eq!(chinese_remainder(&c), big(0));
    let c = vec![(big(4), big(1)), (big(3), big(5))];
    assert_eq!(chinese_remainder(&c), big(3));
}

#[test]
fn is_recoverable_tells_valid_share_sets() {
    let ok = ABSharedSecret { n0: big(5), shares: vec![(big(1), big(7)), (big(2), big(9)), (big(3), big(10))] };
    assert!(ok.is_recoverable());
    let common = ABSharedSecret { n0: big(5), shares: vec![(big(1), big(6)), (big(2), big(9))] };
    assert!(!common.is_recoverable());
    let zero_modulus = ABSharedSecret { n0: big(5), shares: vec![(big(1), big(7)), (big(0), big(0))] };
    assert!(!zero_modulus.is_recoverable());
    let zero_n0 = ABSharedSecret { n0: big(0), shares: vec![(big(1), big(7))] };
    assert!(!zero_n0.is_recoverable());
    let twice = ABSharedSecret { n0: big(5), shares: vec![(big(1), big(7)), (big(1), big(7))] };
    assert!(!twice.is_recoverable());
}

#[test]
fn create_share_draws_its_mask() {
    let mut ab = AsmuthBloomShare::new(64, 3, 2, rounds(1e-9)).unwrap();
    let first = ab.create_share(b"password").unwrap();
    let second = ab.create_share(b"password").unwrap();
    assert_eq!(first.n0, second.n0);
    assert_ne!(first.shares, second.shares);
    // the mask is at least 1: the shares are not those of the bare secret
    let bare = ab.share_with(&BigUint::from_bytes_be(b"password"), &big(0));
    assert_ne!(first.shares, bare.shares);
    let abr = AsmuthBloomRecover::new(2);
    assert_eq!(abr.recover_secret(&first).unwrap(), b"password".to_vec());
    assert_eq!(abr.recover_secret(&second).unwrap(), b"password".to_vec());
}

#[test]
fn shares_keep_the_order_of_the_moduli() {
    let mut ab = AsmuthBloomShare::new(64, 5, 3, rounds(1e-9)).unwrap();
    let share = ab.create_share(b"password").unwrap();
    assert_eq!(share.n0, *ab.n0());
    for (i, (residue, modulus)) in share.shares.iter().enumerate() {
        assert_eq!(modulus, &ab.primes()[i]);
        assert!(residue < modulus);
    }
}

#[test]
fn new_gives_up_after_three_attempts() {
    // with many shares the largest moduli are too far above the smallest
    assert!(matches!(
        AsmuthBloomShare::new(8, 60, 30, rounds(1e-9)),
        Err(Error::CannotSatisfyABCondition)
    ));
    assert!(AsmuthBloomShare::new(8, 3, 2, rounds(1e-9)).is_ok());
}

#[test]
fn new_widens_the_moduli_until_the_inequality_holds() {
    // with the first 18 probable primes above 2^9 the inequality fails for
    // the threshold 8, with those above 2^10 it holds
    let ab = AsmuthBloomShare::new(8, 18, 8, rounds(1e-9)).unwrap();
    assert_eq!(*ab.n0(), big(257));
    assert_eq!(ab.primes().len(), 18);
    assert_eq!(ab.primes()[0], big(1031));
    assert!(test_primes(ab.n0(), ab.primes(), 8));
    let narrow = BigPrimesGenerator::new(&big(512), rounds(1e-9)).take(18);
    assert_eq!(narrow[0], big(521));
    assert!(!test_primes(&big(257), &narrow, 8));
}
