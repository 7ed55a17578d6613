use osm_core::{
    decode_standard, encode_standard, standard_prefix, Argon2Params, FormatError, Payload,
};

fn sample() -> Payload {
    Payload {
        version: Payload::CURRENT_VERSION,
        params: Argon2Params::default(),
        salt: [5u8; 16],
        nonce: [6u8; 12],
        ciphertext: vec![1, 2, 3, 4, 5, 6, 7, 8, 9, 10, 11, 12, 13, 14, 15, 16, 17],
    }
}

#[test]
fn standard_roundtrip() {
    let p = sample();
    let s = encode_standard(&p);
    assert!(s.starts_with("OSM1."));
    assert_eq!(decode_standard(&s).unwrap(), p);
}

#[test]
fn tolerates_surrounding_whitespace() {
    let s = format!("  {}\n", encode_standard(&sample()));
    assert_eq!(decode_standard(&s).unwrap(), sample());
}

#[test]
fn rejects_missing_prefix() {
    assert_eq!(decode_standard("hello world"), Err(FormatError::Malformed));
}

#[test]
fn rejects_bad_base64() {
    assert_eq!(decode_standard("OSM1.!!!notbase64!!!"), Err(FormatError::Malformed));
}

#[test]
fn prefix_spells_the_version() {
    assert_eq!(standard_prefix(1), "OSM1.");
    assert_eq!(standard_prefix(0), "OSM0.");
    assert_eq!(standard_prefix(42), "OSM42.");
    assert_eq!(standard_prefix(255), "OSM255.");
}

#[test]
fn body_is_unpadded_base64url_of_the_bytes() {
    let p = sample();
    let s = encode_standard(&p);
    let body = &s["OSM1.".len()..];
    // 58 bytes -> 19 full groups of 3 plus 1 byte -> 76 + 2 characters, no padding.
    assert_eq!(body.len(), 78);
    assert!(body.bytes().all(|b| b.is_ascii_alphanumeric() || b == b'-' || b == b'_'));
    // "OSM" followed by version 1 encodes as "T1NNA".
    assert!(body.starts_with("T1NNA"));
}

#[test]
fn version_must_be_one_digit() {
    let s = encode_standard(&sample());
    let two_digits = s.replacen("OSM1.", "OSM11.", 1);
    assert_eq!(decode_standard(&two_digits), Err(FormatError::Malformed));
    let no_digit = s.replacen("OSM1.", "OSM.", 1);
    assert_eq!(decode_standard(&no_digit), Err(FormatError::Malformed));
    let letter = s.replacen("OSM1.", "OSMx.", 1);
    assert_eq!(decode_standard(&letter), Err(FormatError::Malformed));
}

#[test]
fn missing_dot_is_malformed() {
    assert_eq!(decode_standard("OSM1"), Err(FormatError::Malformed));
}

#[test]
fn padded_base64_is_refused() {
    let s = encode_standard(&sample());
    assert_eq!(decode_standard(&format!("{s}==")), Err(FormatError::Malformed));
}

#[test]
fn payload_version_is_checked_after_decoding() {
    let mut p = sample();
    p.version = 2;
    let s = encode_standard(&p);
    assert!(s.starts_with("OSM2."));
    assert_eq!(decode_standard(&s), Err(FormatError::UnsupportedVersion(2)));
}

#[test]
fn nonzero_trailing_bits_are_refused() {
    // 58 bytes end in a one-byte group: its second digit carries four zero bits.
    let s = encode_standard(&sample());
    let alphabet: Vec<char> =
        "ABCDEFGHIJKLMNOPQRSTUVWXYZabcdefghijklmnopqrstuvwxyz0123456789-_".chars().collect();
    let last = s.chars().last().unwrap();
    let i = alphabet.iter().position(|&c| c == last).unwrap();
    assert_eq!(i % 16, 0);
    let mut t: String = s.chars().take(s.chars().count() - 1).collect();
    t.push(alphabet[i ^ 1]);
    assert_eq!(decode_standard(&t), Err(FormatError::Malformed));
    let mut u: String = s.chars().take(s.chars().count() - 1).collect();
    u.push(alphabet[i]);
    assert_eq!(decode_standard(&u), Ok(sample()));
}
