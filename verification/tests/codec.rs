use asmuth_bloom_secret_sharing::args::{parse_threshold, plan_generate};
use asmuth_bloom_secret_sharing::zero_rle;
use asmuth_bloom_secret_sharing::{ABSharedSecret, AsmuthBloomRecover, AsmuthBloomShare, Error};
use num::bigint::BigUint;

fn big(x: u64) -> BigUint {
    BigUint::from(x)
}

fn rounds(error_level: f64) -> usize {
    error_level.log(0.25).ceil() as usize
}

#[test]
fn test_str_conversion() {
    let mut ab = AsmuthBloomShare::new(64, 5, 3, rounds(1e-9)).unwrap();
    let share = ab.create_share(b"password").unwrap();
    let s = share.to_string();
    assert!(s.len() > 100);
    println!("{}", &s);
    let mut share2 = ABSharedSecret::from_str(&s).unwrap();
    let s2 = share2.to_string();
    println!("{}", &s2);

    assert_eq!(&s, &s2);

    let abr = AsmuthBloomRecover::new(3);
    share2.shares.remove(0);
    share2.shares.remove(3);
    let s = abr.recover_secret(&share2).unwrap();

    assert_eq!(&s, b"password");
}

#[test]
fn serialised_text_has_one_line_for_each_share() {
    let mut ab = AsmuthBloomShare::new(64, 5, 3, rounds(1e-9)).unwrap();
    let share = ab.create_share(b"password").unwrap();
    let s = share.to_string();
    assert!(s.ends_with('\n'));
    assert_eq!(s.matches('\n').count(), 5);
    assert_eq!(s.lines().count(), 5);
    for line in s.lines() {
        assert_eq!(line.split(':').count(), 3);
    }
    let back = ABSharedSecret::from_str(&s).unwrap();
    assert_eq!(back.n0, share.n0);
    assert_eq!(back.shares, share.shares);
}

#[test]
fn to_string_writes_base_32_with_encoded_zeros() {
    // 32^5 = "100000", 33 = "11", 1024 = "100", 0 = "0"
    let v = ABSharedSecret {
        n0: big(32 * 32 * 32 * 32 * 32),
        shares: vec![(big(33), big(1024)), (big(0), big(31)), (big(1024), big(0))],
    };
    assert_eq!(v.to_string(), "1005:1002:11\n1005:v:0\n1005:001:100\n");
    let none = ABSharedSecret { n0: big(7), shares: vec![] };
    assert_eq!(none.to_string(), "");
}

#[test]
fn from_str_reads_lines() {
    let v = ABSharedSecret::from_str("1005:1002:11\n1005:v:0\n").unwrap();
    assert_eq!(v.n0, big(32 * 32 * 32 * 32 * 32));
    assert_eq!(v.shares, vec![(big(33), big(1024)), (big(0), big(31))]);
    // the last line break is optional, blanks around a part are dropped,
    // and what follows a third colon is not read
    let v = ABSharedSecret::from_str(" 1005 :\t1002: 11 :rest:of:line\r\n1005:v:0").unwrap();
    assert_eq!(v.n0, big(32 * 32 * 32 * 32 * 32));
    assert_eq!(v.shares, vec![(big(33), big(1024)), (big(0), big(31))]);
    // digits in upper case are read too
    let v = ABSharedSecret::from_str("V:A:B").unwrap();
    assert_eq!(v.n0, big(31));
    assert_eq!(v.shares, vec![(big(11), big(10))]);
}

#[test]
fn from_str_two_parts() {
    assert_eq!(ABSharedSecret::from_str("abc:def").err(), Some(Error::StringFormatError));
    assert_eq!(ABSharedSecret::from_str("abc").err(), Some(Error::StringFormatError));
    assert_eq!(ABSharedSecret::from_str("a:b:c\n\nd:e:f").err(), Some(Error::StringFormatError));
    assert_eq!(ABSharedSecret::from_str("\n").err(), Some(Error::StringFormatError));
}

#[test]
fn from_str_different_n0() {
    assert_eq!(
        ABSharedSecret::from_str("a:b:c\nb:d:e\n").err(),
        Some(Error::N0NotSameInAllShares)
    );
    assert!(ABSharedSecret::from_str("a:b:c\na:d:e\n").is_ok());
    // the same number written with and without a run marker
    assert!(ABSharedSecret::from_str("1002:b:c\n1001001:d:e\n").is_ok());
}

#[test]
fn from_str_no_shares() {
    assert_eq!(ABSharedSecret::from_str("").err(), Some(Error::NoSharesInString));
}

#[test]
fn from_str_bad_numbers() {
    assert_eq!(ABSharedSecret::from_str("a:b:x").err(), Some(Error::NumberFormatError));
    assert_eq!(ABSharedSecret::from_str("w:b:c").err(), Some(Error::NumberFormatError));
    assert_eq!(ABSharedSecret::from_str("a:z:c").err(), Some(Error::NumberFormatError));
    assert_eq!(ABSharedSecret::from_str("a::c").err(), Some(Error::NumberFormatError));
    assert_eq!(ABSharedSecret::from_str("a:b:").err(), Some(Error::NumberFormatError));
    assert_eq!(ABSharedSecret::from_str("a:b:_1").err(), Some(Error::NumberFormatError));
    assert_eq!(ABSharedSecret::from_str("a:b:c d").err(), Some(Error::NumberFormatError));
}

#[test]
fn from_str_bad_run_markers() {
    assert_eq!(
        ABSharedSecret::from_str("10:b:c").err(),
        Some(Error::ZeroRleDecodingError(zero_rle::Error::DecodingError))
    );
    assert_eq!(
        ABSharedSecret::from_str("a:100:c").err(),
        Some(Error::ZeroRleDecodingError(zero_rle::Error::DecodingError))
    );
    assert_eq!(
        ABSharedSecret::from_str("a:0zz:c").err(),
        Some(Error::ZeroRleDecodingError(zero_rle::Error::DecodingErrorInvalidZerosCount))
    );
    // the residue is not run-length encoded
    let v = ABSharedSecret::from_str("a:b:100").unwrap();
    assert_eq!(v.shares, vec![(big(1024), big(11))]);
}

#[test]
fn from_str_first_error_wins() {
    // the public modulus is read before the residue, the residue before the modulus
    assert_eq!(
        ABSharedSecret::from_str("10:z:x").err(),
        Some(Error::ZeroRleDecodingError(zero_rle::Error::DecodingError))
    );
    assert_eq!(ABSharedSecret::from_str("a:10:x").err(), Some(Error::NumberFormatError));
    // an earlier line's fault comes before a later line's
    assert_eq!(ABSharedSecret::from_str("a:b:c\nb:c:d\nx\n").err(), Some(Error::N0NotSameInAllShares));
    assert_eq!(ABSharedSecret::from_str("a:b:c\nx\nb:c:d\n").err(), Some(Error::StringFormatError));
}

#[test]
fn parse_undoes_serialise() {
    let v = ABSharedSecret {
        n0: big(1 << 40),
        shares: vec![(big(0), big(1)), (big(12345678901234), big(1 << 50)), (big(31), big(32))],
    };
    let back = ABSharedSecret::from_str(&v.to_string()).unwrap();
    assert_eq!(back.n0, v.n0);
    assert_eq!(back.shares, v.shares);
}

#[test]
fn generate_then_recover_three_of_five() {
    let plan = plan_generate("password".len(), "3", Some("5"), Some("64")).unwrap();
    let mut gen =
        AsmuthBloomShare::new(plan.bits, plan.number, plan.threshold, rounds(1e-9)).unwrap();
    let text = gen.create_share(b"password").unwrap().to_string();
    let piped: String = text.lines().take(3).map(|line| format!("{}\n", line)).collect();
    let threshold = parse_threshold("3").unwrap();
    let shares = ABSharedSecret::from_str(&piped).unwrap();
    assert!(shares.is_recoverable());
    let secret = AsmuthBloomRecover::new(threshold).recover_secret(&shares).unwrap();
    assert_eq!(String::from_utf8(secret).unwrap(), "password");
}

#[test]
fn from_str_takes_both_line_endings() {
    for text in ["a:b:c\r\na:d:e\r\n", "a:b:c\na:d:e", "a:b:c\r\na:d:e\r", "a:b:c\n a : d : e \n"] {
        let v = ABSharedSecret::from_str(text).unwrap();
        assert_eq!(v.n0, big(10));
        assert_eq!(v.shares, vec![(big(12), big(11)), (big(14), big(13))]);
    }
    assert_eq!(ABSharedSecret::from_str("a:b:c\n\r\n").err(), Some(Error::StringFormatError));
    assert_eq!(ABSharedSecret::from_str("a:b:c\n\n").err(), Some(Error::StringFormatError));
}
