use osm_core::{
    detect_and_decode, detect_standard, encode_standard, encode_words, encode_words_kanji, Argon2Params,
    FormatError, Payload, Wordlist, Wordlists,
};

fn hiragana_words() -> Vec<String> {
    let kana: Vec<char> = ('\u{3042}'..='\u{3093}').collect();
    kana.iter()
        .flat_map(|a| kana.iter().map(move |b| format!("{a}{b}")))
        .take(2048)
        .collect()
}

fn kanji_words() -> Vec<String> {
    hiragana_words()
        .into_iter()
        .enumerate()
        .map(|(i, w)| {
            if i % 3 == 0 {
                let c = char::from_u32(0x4E00 + i as u32).unwrap();
                format!("{c}{c}")
            } else {
                w
            }
        })
        .collect()
}

fn lists() -> Wordlists {
    Wordlists::new(
        Wordlist::new(hiragana_words()).unwrap(),
        Wordlist::new(kanji_words()).unwrap(),
    )
    .unwrap()
}

fn sample() -> Payload {
    Payload {
        version: Payload::CURRENT_VERSION,
        params: Argon2Params::default(),
        salt: [5u8; 16],
        nonce: [6u8; 12],
        ciphertext: vec![1u8; 20],
    }
}

#[test]
fn routes_standard() {
    let s = encode_standard(&sample());
    assert_eq!(detect_and_decode(&s, &lists()).unwrap(), sample());
}

#[test]
fn routes_words() {
    let l = lists();
    let s = encode_words(&sample(), &l);
    assert_eq!(detect_and_decode(&s, &l).unwrap(), sample());
}

#[test]
fn routes_kanji() {
    let l = lists();
    let s = encode_words_kanji(&sample(), &l);
    assert_eq!(detect_and_decode(&s, &l).unwrap(), sample());
}

#[test]
fn garbage_is_an_error() {
    assert!(detect_and_decode("this is not a ciphertext at all", &lists()).is_err());
}

#[test]
fn standard_form_is_trimmed_before_routing() {
    let s = format!("\n\u{3000} {}  ", encode_standard(&sample()));
    assert_eq!(detect_and_decode(&s, &lists()).unwrap(), sample());
}

#[test]
fn text_naming_no_word_is_malformed() {
    assert_eq!(detect_and_decode("zzz", &lists()), Err(FormatError::Malformed));
    assert_eq!(detect_and_decode("zzz\u{3001} yy ", &lists()), Err(FormatError::Malformed));
}

#[test]
fn words_failing_both_lists_report_the_kanji_reading() {
    // Index 1 is the same word in both lists; "zzz" is in neither.
    let w = hiragana_words()[1].clone();
    let text = format!("{w}\u{3001}zzz");
    assert_eq!(
        detect_and_decode(&text, &lists()),
        Err(FormatError::InvalidWord("zzz".to_string()))
    );
    // A kanji word that the hiragana list lacks is read under the kanji list.
    let k = kanji_words()[0].clone();
    let text = format!("{k}\u{3001}zzz");
    assert_eq!(
        detect_and_decode(&text, &lists()),
        Err(FormatError::InvalidWord("zzz".to_string()))
    );
}

#[test]
fn standard_looking_text_is_not_read_as_words() {
    assert_eq!(detect_and_decode("OSM1.", &lists()), Err(FormatError::Malformed));
}

#[test]
fn word_form_is_trimmed_before_routing() {
    let l = lists();
    let s = format!("\t {} \u{3000}\n", encode_words(&sample(), &l));
    assert_eq!(detect_and_decode(&s, &l).unwrap(), sample());
}

#[test]
fn malformed_kana_text_keeps_the_hiragana_error() {
    // Every token is a hiragana word (index 2046, which the kanji skin replaces):
    // the length prefix is far beyond the data, and no kanji reading is tried.
    let w = hiragana_words()[2046].clone();
    let text = format!("{w}\u{3001}{w}\u{3001}{w}");
    let l = lists();
    assert_eq!(detect_and_decode(&text, &l), Err(FormatError::Malformed));
}

#[test]
fn reading_a_text_equals_reading_it_trimmed() {
    let l = lists();
    for s in [
        format!("  {}\n", encode_standard(&sample())),
        format!("\u{3000}{}\t", encode_words(&sample(), &l)),
        " zzz ".to_string(),
        "\n OSM1.???? ".to_string(),
    ] {
        assert_eq!(detect_and_decode(&s, &l), detect_and_decode(s.trim(), &l));
    }
}

#[test]
fn standard_form_needs_no_wordlist() {
    let s = format!(" {} ", encode_standard(&sample()));
    assert_eq!(detect_standard(&s), Some(Ok(sample())));
    assert_eq!(detect_standard("OSM1.$$$"), Some(Err(FormatError::Malformed)));
    assert_eq!(detect_standard("OSM1.AA=="), Some(Err(FormatError::Malformed)));
    let l = lists();
    assert_eq!(detect_standard(&encode_words(&sample(), &l)), None);
    assert_eq!(detect_standard("OSM.x"), None);
}
