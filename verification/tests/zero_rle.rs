use asmuth_bloom_secret_sharing::zero_rle::{decode, encode, Error};

#[test]
fn encode_decode() {
    fn t(s: &str) {
        let e = encode(s);
        println!("Encoded; {}", &e);
        let d = decode(&e).unwrap();
        assert_eq!(s, &d);
    }
    t("10000000000043");
    t("g00000000000d");
    t("1020030004000500006000000");
}

#[test]
fn encode_writes_runs_as_markers() {
    assert_eq!(encode("10000000000043"), "100b43");
    assert_eq!(encode("g00000000000d"), "g00bd");
    assert_eq!(encode("1020030004000500006000000"), "100120023003400350046006");
    assert_eq!(encode(""), "");
    assert_eq!(encode("0"), "001");
    assert_eq!(encode("abc"), "abc");
}

#[test]
fn encode_splits_long_runs() {
    let run: String = std::iter::repeat('0').take(1023).collect();
    assert_eq!(encode(&run), "0vv");
    let run: String = std::iter::repeat('0').take(1024).collect();
    assert_eq!(encode(&run), "0vv001");
    let run: String = std::iter::repeat('0').take(2047).collect();
    assert_eq!(encode(&run), "0vv0vv001");
    assert_eq!(decode(&encode(&run)).unwrap(), run);
}

#[test]
fn decode_expands_markers() {
    assert_eq!(decode("100b43").unwrap(), "10000000000043");
    assert_eq!(decode("001").unwrap(), "0");
    assert_eq!(decode("000").unwrap(), "");
    assert_eq!(decode("a010b").unwrap(), format!("a{}b", "0".repeat(32)));
    assert_eq!(decode("00V").unwrap(), "0".repeat(31));
    assert_eq!(decode("0+5x").unwrap(), "00000x");
}

#[test]
fn decode_truncated_marker() {
    assert_eq!(decode("100"), Err(Error::DecodingError));
    assert_eq!(decode("0"), Err(Error::DecodingError));
    assert_eq!(decode("ab0"), Err(Error::DecodingError));
}

#[test]
fn decode_invalid_count() {
    assert_eq!(decode("0zz"), Err(Error::DecodingErrorInvalidZerosCount));
    assert_eq!(decode("0-1"), Err(Error::DecodingErrorInvalidZerosCount));
    assert_eq!(decode("01w"), Err(Error::DecodingErrorInvalidZerosCount));
    assert_eq!(decode("0zz0"), Err(Error::DecodingErrorInvalidZerosCount));
    assert_eq!(decode("0++"), Err(Error::DecodingErrorInvalidZerosCount));
}
