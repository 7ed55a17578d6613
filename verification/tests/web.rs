use osm_core::{
    decrypt_outcome, encode_as, encode_standard, encrypt, from_format_error, outcome_of,
    Argon2Params,
    FixedRng, FormatError, Payload, Wordlist, Wordlists,
};

fn hiragana_words() -> Vec<String> {
    let kana: Vec<char> = ('\u{3042}'..='\u{3093}').collect();
    kana.iter()
        .flat_map(|a| kana.iter().map(move |b| format!("{a}{b}")))
        .take(2048)
        .collect()
}

fn kanji_words() -> Vec<String> {
    hiragana_words()
        .into_iter()
        .enumerate()
        .map(|(i, w)| {
            if i % 3 == 0 {
                let c = char::from_u32(0x4E00 + i as u32).unwrap();
                format!("{c}{c}")
            } else {
                w
            }
        })
        .collect()
}

fn lists() -> Wordlists {
    Wordlists::new(
        Wordlist::new(hiragana_words()).unwrap(),
        Wordlist::new(kanji_words()).unwrap(),
    )
    .unwrap()
}

fn params() -> Argon2Params {
    Argon2Params { m_cost: 8192, t_cost: 1, p_cost: 1 }
}

fn sealed(text: &[u8], passphrase: &str) -> Payload {
    encrypt(text, passphrase, params(), &mut FixedRng::new(vec![7u8]))
}

#[test]
fn outcome_roundtrip_standard() {
    let l = lists();
    let ct = encode_as(&sealed(b"hello", "pw"), "standard", &l).unwrap();
    assert!(ct.starts_with("OSM1."));
    let o = decrypt_outcome(&ct, "pw", &l);
    assert!(o.ok);
    assert_eq!(o.text, "hello");
    assert_eq!(o.error_kind, "");
    assert_eq!(o.error_word, "");
}

#[test]
fn outcome_roundtrip_words_and_kanji() {
    let l = lists();
    let p = sealed("漢字メモ".as_bytes(), "k");
    for format in ["words", "kanji"] {
        let ct = encode_as(&p, format, &l).unwrap();
        assert!(!ct.starts_with("OSM"));
        let o = decrypt_outcome(&ct, "k", &l);
        assert!(o.ok, "{format}");
        assert_eq!(o.text, "漢字メモ");
    }
    assert_ne!(encode_as(&p, "words", &l), encode_as(&p, "kanji", &l));
}

#[test]
fn outcome_wrong_passphrase_reports_auth_failed() {
    let l = lists();
    let ct = encode_as(&sealed(b"hello", "right"), "standard", &l).unwrap();
    let o = decrypt_outcome(&ct, "wrong", &l);
    assert!(!o.ok);
    assert_eq!(o.error_kind, "auth_failed");
    assert_eq!(o.text, "");
}

#[test]
fn malformed_input_reports_malformed() {
    let outcome = decrypt_outcome("not a ciphertext", "pw", &lists());
    assert!(!outcome.ok);
    assert_eq!(outcome.error_kind, "malformed");
}

#[test]
fn outcome_unknown_word_among_words_reports_invalid_word() {
    let w = hiragana_words()[1].clone();
    let text = format!("{w}\u{3001}zzz\u{3001}{w}");
    let o = decrypt_outcome(&text, "pw", &lists());
    assert!(!o.ok);
    assert_eq!(o.error_kind, "invalid_word");
    assert_eq!(o.error_word, "zzz");
}

#[test]
fn outcome_of_a_read_text() {
    let o = outcome_of(Ok(sealed(b"memo", "pw")), "pw");
    assert!(o.ok);
    assert_eq!(o.text, "memo");
    let o = outcome_of(Ok(sealed(b"memo", "pw")), "other");
    assert_eq!(o.error_kind, "auth_failed");
    let o = outcome_of(Err(FormatError::UnsupportedVersion(3)), "pw");
    assert_eq!((o.error_kind.as_str(), o.error_word.as_str()), ("unsupported_version", "3"));
}

#[test]
fn outcome_empty_input_reports_malformed() {
    let o = decrypt_outcome("  ", "pw", &lists());
    assert!(!o.ok);
    assert_eq!(o.error_kind, "malformed");
    assert_eq!(o.error_word, "");
    let o = decrypt_outcome("OSM1.!!", "pw", &lists());
    assert_eq!(o.error_kind, "malformed");
}

#[test]
fn outcome_unsupported_version_carries_the_version() {
    let mut p = sealed(b"hello", "pw");
    p.version = 2;
    let ct = encode_standard(&p);
    let o = decrypt_outcome(&ct, "pw", &lists());
    assert!(!o.ok);
    assert_eq!(o.error_kind, "unsupported_version");
    assert_eq!(o.error_word, "2");
}

#[test]
fn outcome_non_utf8_plaintext_reports_not_utf8() {
    let l = lists();
    let ct = encode_standard(&sealed(&[0xff, 0xfe, 0xfd], "pw"));
    let o = decrypt_outcome(&ct, "pw", &l);
    assert!(!o.ok);
    assert_eq!(o.error_kind, "not_utf8");
}

#[test]
fn outcome_refused_parameters_report_auth_failed() {
    let mut p = sealed(b"hello", "pw");
    p.params.t_cost = 0;
    let ct = encode_standard(&p);
    let o = decrypt_outcome(&ct, "pw", &lists());
    assert!(!o.ok);
    assert_eq!(o.error_kind, "auth_failed");
}

#[test]
fn format_errors_map_to_stable_kinds() {
    let o = from_format_error(FormatError::Malformed);
    assert_eq!((o.ok, o.error_kind.as_str(), o.error_word.as_str()), (false, "malformed", ""));
    let o = from_format_error(FormatError::UnsupportedVersion(217));
    assert_eq!((o.error_kind.as_str(), o.error_word.as_str()), ("unsupported_version", "217"));
    let o = from_format_error(FormatError::UnsupportedVersion(0));
    assert_eq!(o.error_word, "0");
    let o = from_format_error(FormatError::InvalidWord("ぬぬ".to_string()));
    assert_eq!((o.error_kind.as_str(), o.error_word.as_str()), ("invalid_word", "ぬぬ"));
    assert_eq!(o.text, "");
}

#[test]
fn unknown_format_is_rejected() {
    let l = lists();
    let p = sealed(b"hi", "pw");
    assert_eq!(encode_as(&p, "STANDARD", &l), None);
    assert_eq!(encode_as(&p, "bogus", &l), None);
    assert_eq!(encode_as(&p, "", &l), None);
    assert_eq!(encode_as(&p, "standard", &l), Some(encode_standard(&p)));
}
