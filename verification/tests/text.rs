use asmuth_bloom_secret_sharing::base32::digit_of;
use asmuth_bloom_secret_sharing::text::{char_is_space, find_char, trim};

#[test]
fn char_is_space_is_unicode_white_space() {
    for code in 0..=0x10ffffu32 {
        if let Some(c) = char::from_u32(code) {
            assert_eq!(char_is_space(c), c.is_whitespace(), "U+{:04X}", code);
        }
    }
}

#[test]
fn trim_drops_white_space_at_both_ends() {
    for s in ["", " ", "a", " a", "a ", "  a b  ", "\t\r\na\u{a0}\u{2003}", "\u{3000}x\u{3000}y\u{3000}", "é ", " \n "] {
        assert_eq!(trim(s), s.trim(), "{:?}", s);
    }
}

#[test]
fn find_char_finds_the_first() {
    assert_eq!(find_char("a:b:c", 0, ':'), 1);
    assert_eq!(find_char("a:b:c", 1, ':'), 1);
    assert_eq!(find_char("a:b:c", 2, ':'), 3);
    assert_eq!(find_char("a:b:c", 4, ':'), 5);
    assert_eq!(find_char("a:b:c", 5, ':'), 5);
    assert_eq!(find_char("", 0, ':'), 0);
    // places count characters, not bytes
    assert_eq!(find_char("é:é", 0, ':'), 1);
}

#[test]
fn digit_of_is_the_base_32_digit() {
    for code in 0..=0x10ffffu32 {
        if let Some(c) = char::from_u32(code) {
            assert_eq!(digit_of(c).map(u32::from), c.to_digit(32), "U+{:04X}", code);
        }
    }
    assert_eq!(digit_of('0'), Some(0));
    assert_eq!(digit_of('9'), Some(9));
    assert_eq!(digit_of('a'), Some(10));
    assert_eq!(digit_of('v'), Some(31));
    assert_eq!(digit_of('V'), Some(31));
    assert_eq!(digit_of('w'), None);
}
