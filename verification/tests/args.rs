use asmuth_bloom_secret_sharing::args::{
    parse_threshold, parse_u16, plan_generate, Error, GenerateError, GenerateParameters,
};

#[test]
fn parse_u16_reads_decimal() {
    assert_eq!(parse_u16("0"), Some(0));
    assert_eq!(parse_u16("3"), Some(3));
    assert_eq!(parse_u16("+17"), Some(17));
    assert_eq!(parse_u16("007"), Some(7));
    assert_eq!(parse_u16("65535"), Some(65535));
    assert_eq!(parse_u16("0000065535"), Some(65535));
    assert_eq!(parse_u16("65536"), None);
    assert_eq!(parse_u16("99999999999999999999"), None);
    assert_eq!(parse_u16(""), None);
    assert_eq!(parse_u16("+"), None);
    assert_eq!(parse_u16("++1"), None);
    assert_eq!(parse_u16("-1"), None);
    assert_eq!(parse_u16("1 "), None);
    assert_eq!(parse_u16("1a"), None);
    assert_eq!(parse_u16("12+"), None);
}

#[test]
fn parse_u16_agrees_with_std() {
    for word in ["0", "1", "+1", "65535", "65536", "", "+", "a", "1_0", " 1", "0x10", "٣"] {
        assert_eq!(parse_u16(word), word.parse::<u16>().ok());
    }
}

#[test]
fn threshold_must_be_a_number_of_two_or_more() {
    assert_eq!(parse_threshold("2"), Ok(2));
    assert_eq!(parse_threshold("3"), Ok(3));
    assert_eq!(parse_threshold("65535"), Ok(65535));
    assert_eq!(parse_threshold("1"), Err(Error::ThresholdTooSmall));
    assert_eq!(parse_threshold("0"), Err(Error::ThresholdTooSmall));
    assert_eq!(parse_threshold("three"), Err(Error::ThresholdParsingError));
    assert_eq!(parse_threshold(""), Err(Error::ThresholdParsingError));
    assert_eq!(parse_threshold("70000"), Err(Error::ThresholdParsingError));
}

#[test]
fn generate_defaults() {
    assert_eq!(
        plan_generate(8, "3", None, None),
        Ok(GenerateParameters { bits: 64, number: 3, threshold: 3 })
    );
    assert_eq!(
        plan_generate(8, "3", Some("5"), Some("64")),
        Ok(GenerateParameters { bits: 64, number: 5, threshold: 3 })
    );
    assert_eq!(
        plan_generate(1000, "2", None, None),
        Ok(GenerateParameters { bits: 8000, number: 2, threshold: 2 })
    );
    assert_eq!(
        plan_generate(5000, "2", None, Some("8000")),
        Ok(GenerateParameters { bits: 8000, number: 2, threshold: 2 })
    );
}

#[test]
fn generate_refusals() {
    assert_eq!(plan_generate(0, "x", None, None), Err(GenerateError::EmptySecret));
    assert_eq!(
        plan_generate(8, "x", Some("y"), None),
        Err(GenerateError::Threshold(Error::ThresholdParsingError))
    );
    assert_eq!(
        plan_generate(8, "1", None, None),
        Err(GenerateError::Threshold(Error::ThresholdTooSmall))
    );
    assert_eq!(plan_generate(8, "3", Some("y"), Some("z")), Err(GenerateError::NumberParsingError));
    assert_eq!(plan_generate(8, "3", Some("2"), Some("z")), Err(GenerateError::BitsParsingError));
    assert_eq!(plan_generate(8, "3", Some("2"), Some("8001")), Err(GenerateError::SecretTooLarge));
    assert_eq!(plan_generate(1001, "3", Some("2"), None), Err(GenerateError::SecretTooLarge));
    assert_eq!(plan_generate(8, "3", Some("2"), None), Err(GenerateError::NumberBelowThreshold));
}
