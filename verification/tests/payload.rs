use osm_core::{Argon2Params, FormatError, Payload, HEADER_LEN, MAGIC};

fn sample() -> Payload {
    Payload {
        version: Payload::CURRENT_VERSION,
        params: Argon2Params::default(),
        salt: [1u8; 16],
        nonce: [2u8; 12],
        ciphertext: vec![9u8; 32],
    }
}

#[test]
fn roundtrip_bytes() {
    let p = sample();
    let bytes = p.to_bytes();
    assert_eq!(bytes.len(), HEADER_LEN + 32);
    assert_eq!(Payload::from_bytes(&bytes).unwrap(), p);
}

#[test]
fn header_is_41_bytes_and_starts_with_magic() {
    let h = sample().header();
    assert_eq!(h.len(), 41);
    assert_eq!(&h[0..3], b"OSM");
    assert_eq!(h[3], 1);
}

#[test]
fn rejects_short_input() {
    assert_eq!(Payload::from_bytes(&[0u8; 10]), Err(FormatError::Malformed));
}

#[test]
fn rejects_bad_magic() {
    let mut bytes = sample().to_bytes();
    bytes[0] = b'X';
    assert_eq!(Payload::from_bytes(&bytes), Err(FormatError::Malformed));
}

#[test]
fn rejects_unknown_version() {
    let mut bytes = sample().to_bytes();
    bytes[3] = 9;
    assert_eq!(Payload::from_bytes(&bytes), Err(FormatError::UnsupportedVersion(9)));
}

#[test]
fn header_layout_is_big_endian() {
    let p = Payload {
        version: 1,
        params: Argon2Params { m_cost: 0x01020304, t_cost: 0x0A0B0C0D, p_cost: 7 },
        salt: [0x11; 16],
        nonce: [0x22; 12],
        ciphertext: vec![0x33; 16],
    };
    let h = p.header();
    assert_eq!(&h[0..3], &MAGIC);
    assert_eq!(&h[3..13], &[1, 1, 2, 3, 4, 0x0A, 0x0B, 0x0C, 0x0D, 7]);
    assert_eq!(&h[13..29], &[0x11; 16]);
    assert_eq!(&h[29..41], &[0x22; 12]);
    let bytes = p.to_bytes();
    assert_eq!(&bytes[..41], &h[..]);
    assert_eq!(&bytes[41..], &[0x33; 16]);
    assert_eq!(Payload::from_bytes(&bytes).unwrap(), p);
}

#[test]
fn minimum_length_is_header_plus_tag() {
    let mut bytes = sample().to_bytes();
    bytes.truncate(56);
    assert_eq!(Payload::from_bytes(&bytes), Err(FormatError::Malformed));
    let mut bytes = sample().to_bytes();
    bytes.truncate(57);
    let p = Payload::from_bytes(&bytes).unwrap();
    assert_eq!(p.ciphertext, vec![9u8; 16]);
}

#[test]
fn short_input_is_malformed_before_version_check() {
    let mut bytes = sample().to_bytes();
    bytes[3] = 2;
    bytes.truncate(20);
    assert_eq!(Payload::from_bytes(&bytes), Err(FormatError::Malformed));
}

#[test]
fn reading_then_writing_gives_the_same_bytes() {
    let mut bytes: Vec<u8> = b"OSM\x01".to_vec();
    bytes.extend((0u8..70).map(|i| i.wrapping_mul(37)));
    let p = Payload::from_bytes(&bytes).unwrap();
    assert_eq!(p.to_bytes(), bytes);
    assert_eq!(p.params.m_cost, u32::from_be_bytes([bytes[4], bytes[5], bytes[6], bytes[7]]));
    assert_eq!(p.params.t_cost, u32::from_be_bytes([bytes[8], bytes[9], bytes[10], bytes[11]]));
    assert_eq!(p.params.p_cost, bytes[12]);
}
