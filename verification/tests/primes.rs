use asmuth_bloom_secret_sharing::BigPrimesGenerator;
use num::bigint::{BigUint, ToBigUint};

fn rounds(error_level: f64) -> usize {
    error_level.log(0.25).ceil() as usize
}

fn conv<T: ToBigUint>(input: Vec<T>) -> Vec<BigUint> {
    input.into_iter().map(|x| x.to_biguint().unwrap()).collect()
}

#[test]
fn test_primes_iterator() {
    let gen = BigPrimesGenerator::new(&100.to_biguint().unwrap(), rounds(1e-9));
    let res: Vec<BigUint> = gen.take(10);
    assert_eq!(
        res,
        conv(vec![101, 103, 107, 109, 113, 127, 131, 137, 139, 149])
    );

    let gen = BigPrimesGenerator::new(&961748940.to_biguint().unwrap(), rounds(1e-9));
    let res: Vec<BigUint> = gen.take(16);

    let v = vec![
        961748941, 961748947, 961748951, 961748969, 961748987, 961748993, 961749023, 961749037,
        961749043, 961749067, 961749079, 961749091, 961749097, 961749101, 961749121, 961749157,
    ];
    assert_eq!(res, conv(v))
}

#[test]
fn primes_from_the_smallest_bounds() {
    let gen = BigPrimesGenerator::new(&BigUint::from(1u32), rounds(1e-9));
    assert_eq!(gen.take(5), conv(vec![3, 5, 7, 11, 13]));
    let gen = BigPrimesGenerator::new(&BigUint::from(2u32), rounds(1e-9));
    assert_eq!(gen.take(3), conv(vec![3, 5, 7]));
    let gen = BigPrimesGenerator::new(&BigUint::from(3u32), rounds(1e-9));
    assert_eq!(gen.take(3), conv(vec![5, 7, 11]));
}

#[test]
fn next_goes_on_from_the_last_prime() {
    let mut gen = BigPrimesGenerator::new(&BigUint::from(89u32), rounds(1e-9));
    assert_eq!(gen.next(), Some(BigUint::from(97u32)));
    assert_eq!(gen.next(), Some(BigUint::from(101u32)));
    let mut gen = BigPrimesGenerator::new(&BigUint::from(90u32), rounds(1e-9));
    assert_eq!(gen.next(), Some(BigUint::from(97u32)));
}

#[test]
fn primes_are_above_the_bound_and_increasing() {
    for bound in [1u64, 2, 10, 255, 256, 1 << 20, (1 << 40) + 1] {
        let bound = BigUint::from(bound);
        let found = BigPrimesGenerator::new(&bound, rounds(1e-9)).take(8);
        assert_eq!(found.len(), 8);
        assert!(found[0] > bound);
        for pair in found.windows(2) {
            assert!(pair[0] < pair[1]);
        }
    }
}

#[test]
fn rounds_for_error_levels() {
    assert_eq!(rounds(1e-9), 15);
    assert_eq!(rounds(1e-12), 20);
}
