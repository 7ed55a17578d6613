use osm_core::{hex_decode, HexError};

#[test]
fn decodes_pairs() {
    assert_eq!(hex_decode("00ff10Ab"), Ok(vec![0x00, 0xff, 0x10, 0xab]));
    assert_eq!(hex_decode(""), Ok(vec![]));
}

#[test]
fn odd_length_is_reported_with_its_length() {
    assert_eq!(hex_decode("abc"), Err(HexError::OddLength(3)));
}

#[test]
fn bad_pair_is_reported_by_offset() {
    assert_eq!(hex_decode("00zz11"), Err(HexError::InvalidDigit(2)));
    assert_eq!(hex_decode("0g"), Err(HexError::InvalidDigit(0)));
}

#[test]
fn plus_sign_reads_like_from_str_radix() {
    assert_eq!(hex_decode("+f"), Ok(vec![0x0f]));
    assert_eq!(u8::from_str_radix("+f", 16), Ok(0x0f));
    assert_eq!(hex_decode("-1"), Err(HexError::InvalidDigit(0)));
    assert!(u8::from_str_radix("-1", 16).is_err());
}

#[test]
fn pairs_cutting_a_character_are_invalid_digits() {
    // "é" is two bytes: the pair at offset 0 holds "a" and its first byte.
    assert_eq!(hex_decode("aé0"), Err(HexError::InvalidDigit(0)));
    assert_eq!(hex_decode("0aé"), Err(HexError::InvalidDigit(2)));
    // "あ" is three bytes: the pair at offset 2 holds its first two.
    assert_eq!(hex_decode("00あ1"), Err(HexError::InvalidDigit(2)));
}
