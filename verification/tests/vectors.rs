use osm_core::vectors::{TestVector, VectorArgon2};
use osm_core::{
    decrypt, detect_and_decode, encode_standard, encode_words, encrypt, hex_decode, Argon2Params,
    FixedRng, Wordlist, Wordlists,
};

fn hiragana_words() -> Vec<String> {
    let kana: Vec<char> = ('\u{3042}'..='\u{3093}').collect();
    kana.iter()
        .flat_map(|a| kana.iter().map(move |b| format!("{a}{b}")))
        .take(2048)
        .collect()
}

fn kanji_words() -> Vec<String> {
    hiragana_words()
        .into_iter()
        .enumerate()
        .map(|(i, w)| {
            if i % 3 == 0 {
                let c = char::from_u32(0x4E00 + i as u32).unwrap();
                format!("{c}{c}")
            } else {
                w
            }
        })
        .collect()
}

fn lists() -> Wordlists {
    Wordlists::new(
        Wordlist::new(hiragana_words()).unwrap(),
        Wordlist::new(kanji_words()).unwrap(),
    )
    .unwrap()
}

fn to_hex(b: &[u8]) -> String {
    b.iter().map(|x| format!("{x:02x}")).collect()
}

/// The vectors as the generator builds them from its fixed cases.
fn generated(l: &Wordlists) -> Vec<TestVector> {
    let cases: [(&str, &str, &str, [u8; 16], [u8; 12], Argon2Params); 3] = [
        ("ascii-basic", "紙袋、みかん、夜道、ラジオ", "secret note", [0x11; 16], [0x22; 12], Argon2Params {
            m_cost: 8 * 1024,
            t_cost: 1,
            p_cost: 1,
        }),
        (
            "japanese-memo",
            "あいことば",
            "東京駅 18:30 集合 予約番号 AB-1234",
            [0xAB; 16],
            [0xCD; 12],
            Argon2Params { m_cost: 8 * 1024, t_cost: 2, p_cost: 1 },
        ),
        ("empty-plaintext", "x", "", [0x01; 16], [0x02; 12], Argon2Params {
            m_cost: 8 * 1024,
            t_cost: 1,
            p_cost: 1,
        }),
    ];
    cases
        .iter()
        .map(|(name, pass, plain, salt, nonce, params)| {
            let mut seed = salt.to_vec();
            seed.extend_from_slice(nonce);
            let payload = encrypt(plain.as_bytes(), pass, *params, &mut FixedRng::new(seed));
            TestVector {
                name: name.to_string(),
                passphrase: pass.to_string(),
                plaintext_utf8: plain.to_string(),
                argon2: VectorArgon2 { m_cost: params.m_cost, t_cost: params.t_cost, p_cost: params.p_cost },
                salt_hex: to_hex(salt),
                nonce_hex: to_hex(nonce),
                payload_hex: to_hex(&payload.to_bytes()),
                standard: encode_standard(&payload),
                words: encode_words(&payload, l),
            }
        })
        .collect()
}

#[test]
fn every_vector_reproduces_exactly() {
    let l = lists();
    for v in generated(&l) {
        let salt = hex_decode(&v.salt_hex).unwrap();
        let nonce = hex_decode(&v.nonce_hex).unwrap();
        let mut seed = salt.clone();
        seed.extend_from_slice(&nonce);
        let mut rng = FixedRng::new(seed);

        let payload = encrypt(v.plaintext_utf8.as_bytes(), &v.passphrase, v.argon2.to_params(), &mut rng);

        assert_eq!(to_hex(&payload.to_bytes()), v.payload_hex, "payload {}", v.name);
        assert_eq!(encode_standard(&payload), v.standard, "standard {}", v.name);
        assert_eq!(encode_words(&payload, &l), v.words, "words {}", v.name);

        assert_eq!(
            decrypt(&detect_and_decode(&v.standard, &l).unwrap(), &v.passphrase).unwrap(),
            v.plaintext_utf8.as_bytes(),
            "decrypt standard {}",
            v.name
        );
        assert_eq!(
            decrypt(&detect_and_decode(&v.words, &l).unwrap(), &v.passphrase).unwrap(),
            v.plaintext_utf8.as_bytes(),
            "decrypt words {}",
            v.name
        );
    }
}

#[test]
fn to_params_copies_the_fields() {
    let v = VectorArgon2 { m_cost: 8192, t_cost: 2, p_cost: 3 };
    assert_eq!(v.to_params(), Argon2Params { m_cost: 8192, t_cost: 2, p_cost: 3 });
}
