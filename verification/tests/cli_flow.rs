use osm_core::{
    decrypt, detect_and_decode, encode_standard, encode_words_kanji, encrypt, hex_decode,
    Argon2Params, FixedRng, OsRng, Wordlist, Wordlists,
};

fn hiragana_words() -> Vec<String> {
    let kana: Vec<char> = ('\u{3042}'..='\u{3093}').collect();
    kana.iter()
        .flat_map(|a| kana.iter().map(move |b| format!("{a}{b}")))
        .take(2048)
        .collect()
}

fn kanji_words() -> Vec<String> {
    hiragana_words()
        .into_iter()
        .enumerate()
        .map(|(i, w)| {
            if i % 3 == 0 {
                let c = char::from_u32(0x4E00 + i as u32).unwrap();
                format!("{c}{c}")
            } else {
                w
            }
        })
        .collect()
}

fn lists() -> Wordlists {
    Wordlists::new(
        Wordlist::new(hiragana_words()).unwrap(),
        Wordlist::new(kanji_words()).unwrap(),
    )
    .unwrap()
}

fn cli_params(m_cost: u32) -> Argon2Params {
    Argon2Params { m_cost, t_cost: 1, p_cost: 1 }
}

#[test]
fn encrypt_then_decrypt_roundtrip() {
    let params = cli_params(8192);
    assert!(params.validate().is_ok());
    let payload = encrypt(b"my secret", "test-pass", params, &mut OsRng);
    let ciphertext = encode_standard(&payload);
    assert!(ciphertext.starts_with("OSM1."));
    let read = detect_and_decode(&ciphertext, &lists()).unwrap();
    assert_eq!(decrypt(&read, "test-pass").unwrap(), b"my secret");
}

#[test]
fn encrypt_kanji_then_decrypt_roundtrip() {
    let l = lists();
    let params = cli_params(8192);
    let payload = encrypt("漢字メモ".as_bytes(), "k", params, &mut OsRng);
    let ct = encode_words_kanji(&payload, &l);
    let read = detect_and_decode(ct.trim(), &l).unwrap();
    assert_eq!(decrypt(&read, "k").unwrap(), "漢字メモ".as_bytes());
}

#[test]
fn decrypt_wrong_passphrase_fails() {
    let payload = encrypt(b"data", "right", cli_params(8192), &mut OsRng);
    let ciphertext = encode_standard(&payload);
    let read = detect_and_decode(&ciphertext, &lists()).unwrap();
    assert!(decrypt(&read, "wrong").is_err());
}

fn to_hex(b: &[u8]) -> String {
    b.iter().map(|x| format!("{x:02x}")).collect()
}

#[test]
fn verify_passes_on_bundled_vectors() {
    // The cases the vector file is generated from: (passphrase, plaintext, salt, nonce, params).
    let cases: [(&str, &str, [u8; 16], [u8; 12], Argon2Params); 3] = [
        ("紙袋、みかん、夜道、ラジオ", "secret note", [0x11; 16], [0x22; 12], Argon2Params {
            m_cost: 8 * 1024,
            t_cost: 1,
            p_cost: 1,
        }),
        ("あいことば", "東京駅 18:30 集合 予約番号 AB-1234", [0xAB; 16], [0xCD; 12], Argon2Params {
            m_cost: 8 * 1024,
            t_cost: 2,
            p_cost: 1,
        }),
        ("x", "", [0x01; 16], [0x02; 12], Argon2Params { m_cost: 8 * 1024, t_cost: 1, p_cost: 1 }),
    ];
    for (pass, plain, salt, nonce, params) in cases {
        let mut seed = salt.to_vec();
        seed.extend_from_slice(&nonce);
        let standard = encode_standard(&encrypt(plain.as_bytes(), pass, params, &mut FixedRng::new(seed)));
        // What `osm verify` does with a vector entry.
        let mut seed = hex_decode(&to_hex(&salt)).unwrap();
        seed.extend_from_slice(&hex_decode(&to_hex(&nonce)).unwrap());
        let payload = encrypt(plain.as_bytes(), pass, params, &mut FixedRng::new(seed));
        assert_eq!(encode_standard(&payload), standard);
        let read = detect_and_decode(&standard, &lists()).unwrap();
        assert_eq!(decrypt(&read, pass).unwrap(), plain.as_bytes());
    }
}
