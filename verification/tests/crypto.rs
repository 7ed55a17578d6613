use osm_core::{
    decrypt, encrypt, encrypt_checked, normalize_passphrase, Argon2Params,
    DecryptError, FixedRng, Rng,
};

fn fast_params() -> Argon2Params {
    Argon2Params { m_cost: 8 * 1024, t_cost: 1, p_cost: 1 }
}

#[test]
fn crypto_roundtrip() {
    let mut rng = FixedRng::new(vec![7u8]);
    let p = encrypt(b"secret note", "\u{7d19}\u{888b}", fast_params(), &mut rng);
    assert_eq!(decrypt(&p, "\u{7d19}\u{888b}").unwrap(), b"secret note");
}

#[test]
fn wrong_passphrase_fails() {
    let mut rng = FixedRng::new(vec![7u8]);
    let p = encrypt(b"secret note", "correct", fast_params(), &mut rng);
    assert_eq!(decrypt(&p, "wrong"), Err(DecryptError::AuthenticationFailed));
}

#[test]
fn tampered_header_fails() {
    let mut rng = FixedRng::new(vec![7u8]);
    let mut p = encrypt(b"secret note", "pw", fast_params(), &mut rng);
    p.params.t_cost = 2;
    assert_eq!(decrypt(&p, "pw"), Err(DecryptError::AuthenticationFailed));
}

#[test]
fn nfkc_halfwidth_fullwidth_equivalent() {
    assert_eq!(normalize_passphrase("\u{ff76}\u{ff85}"), normalize_passphrase("\u{30ab}\u{30ca}"));
}

#[test]
fn trims_surrounding_whitespace() {
    assert_eq!(normalize_passphrase("  hello  "), b"hello".to_vec());
}

#[test]
fn empty_plaintext_roundtrips() {
    let mut rng = FixedRng::new(vec![3u8]);
    let p = encrypt(b"", "pw", fast_params(), &mut rng);
    assert_eq!(decrypt(&p, "pw").unwrap(), b"");
}

#[test]
fn salt_then_nonce_come_from_the_rng() {
    let seed: Vec<u8> = (0u8..28).collect();
    let mut rng = FixedRng::new(seed.clone());
    let p = encrypt(b"abc", "pw", fast_params(), &mut rng);
    assert_eq!(p.version, 1);
    assert_eq!(p.params, fast_params());
    assert_eq!(&p.salt[..], &seed[0..16]);
    assert_eq!(&p.nonce[..], &seed[16..28]);
    assert_eq!(p.ciphertext.len(), 3 + 16);
}

#[test]
fn encrypt_leaves_the_rng_after_28_bytes() {
    let seed: Vec<u8> = (0u8..29).collect();
    let mut rng = FixedRng::new(seed);
    let p = encrypt(b"secret note", "pw", fast_params(), &mut rng);
    assert_eq!(p.salt.to_vec(), (0u8..16).collect::<Vec<u8>>());
    assert_eq!(p.nonce.to_vec(), (16u8..28).collect::<Vec<u8>>());
    assert_eq!(p.ciphertext.len(), 11 + 16);
    let mut next = [0u8; 2];
    rng.fill(&mut next);
    assert_eq!(next, [28, 0]);
}

#[test]
fn ciphertext_is_deterministic_for_fixed_rng() {
    let a = encrypt(b"memo", "pw", fast_params(), &mut FixedRng::new(vec![1, 2, 3]));
    let b = encrypt(b"memo", "pw", fast_params(), &mut FixedRng::new(vec![1, 2, 3]));
    assert_eq!(a, b);
    assert_ne!(a.ciphertext[..4], b"memo"[..]);
}

#[test]
fn passphrase_is_normalized_before_derivation() {
    let mut rng = FixedRng::new(vec![5u8]);
    let p = encrypt(b"note", "  \u{ff76}\u{ff85}  ", fast_params(), &mut rng);
    assert_eq!(decrypt(&p, "\u{30ab}\u{30ca}").unwrap(), b"note");
}

#[test]
fn tampered_ciphertext_fails() {
    let mut rng = FixedRng::new(vec![7u8]);
    let mut p = encrypt(b"secret note", "pw", fast_params(), &mut rng);
    p.ciphertext[0] ^= 1;
    assert_eq!(decrypt(&p, "pw"), Err(DecryptError::AuthenticationFailed));
}

#[test]
fn normalize_gives_utf8_bytes() {
    assert_eq!(normalize_passphrase("\u{3000}あ\n"), "あ".as_bytes().to_vec());
    assert_eq!(normalize_passphrase("\u{2460}"), b"1".to_vec());
    assert_eq!(normalize_passphrase("   "), Vec::<u8>::new());
}

#[test]
fn checked_forms_refuse_what_argon2_refuses() {
    let bad = Argon2Params { m_cost: 4, t_cost: 1, p_cost: 1 };
    assert!(encrypt_checked(b"x", "pw", bad, &mut FixedRng::new(vec![1])).is_none());
    let p = encrypt_checked(b"x", "pw", fast_params(), &mut FixedRng::new(vec![1])).unwrap();
    assert_eq!(decrypt(&p, "pw"), Ok(b"x".to_vec()));
    let mut q = p.clone();
    q.params.p_cost = 0;
    assert_eq!(decrypt(&q, "pw"), Err(DecryptError::AuthenticationFailed));
    let mut r = p.clone();
    r.params.t_cost = 0;
    assert_eq!(decrypt(&r, "pw"), Err(DecryptError::AuthenticationFailed));
}

#[test]
fn key_depends_on_salt() {
    let a = encrypt(b"memo", "pw", fast_params(), &mut FixedRng::new(vec![1]));
    let b = encrypt(b"memo", "pw", fast_params(), &mut FixedRng::new(vec![2]));
    assert_ne!(a.ciphertext, b.ciphertext);
    let mut swapped = b.clone();
    swapped.ciphertext = a.ciphertext.clone();
    assert_eq!(decrypt(&swapped, "pw"), Err(DecryptError::AuthenticationFailed));
}
