use std::collections::HashSet;

use osm_core::{
    decode_words, decode_words_kanji, encode_words, encode_words_kanji, Argon2Params,
    FormatError, Payload, Wordlist, Wordlists,
};

fn hiragana_words() -> Vec<String> {
    let kana: Vec<char> = ('\u{3042}'..='\u{3093}').collect();
    kana.iter()
        .flat_map(|a| kana.iter().map(move |b| format!("{a}{b}")))
        .take(2048)
        .collect()
}

fn kanji_words() -> Vec<String> {
    hiragana_words()
        .into_iter()
        .enumerate()
        .map(|(i, w)| {
            if i % 3 == 0 {
                let c = char::from_u32(0x4E00 + i as u32).unwrap();
                format!("{c}{c}")
            } else {
                w
            }
        })
        .collect()
}

fn lists() -> Wordlists {
    Wordlists::new(
        Wordlist::new(hiragana_words()).unwrap(),
        Wordlist::new(kanji_words()).unwrap(),
    )
    .unwrap()
}

fn payload(ct_len: usize) -> Payload {
    Payload {
        version: Payload::CURRENT_VERSION,
        params: Argon2Params::default(),
        salt: [5u8; 16],
        nonce: [6u8; 12],
        ciphertext: (0..ct_len).map(|i| i as u8).collect(),
    }
}

#[test]
fn wordlist_has_2048_unique_words() {
    let l = lists();
    let wl = l.hiragana();
    assert_eq!(wl.len(), 2048);
    let set: HashSet<String> = (0..wl.len()).map(|i| wl.word(i)).collect();
    assert_eq!(set.len(), 2048);
}

#[test]
fn roundtrip_various_lengths() {
    let l = lists();
    for ct_len in [16usize, 17, 18, 19, 32, 100] {
        let p = payload(ct_len);
        let words = encode_words(&p, &l);
        assert_eq!(decode_words(&words, &l).unwrap(), p, "ct_len={ct_len}");
    }
}

#[test]
fn output_is_separated_by_ideographic_comma() {
    let words = encode_words(&payload(16), &lists());
    assert!(words.contains('\u{3001}'));
}

#[test]
fn unknown_word_is_reported() {
    let err = decode_words("notarealword", &lists()).unwrap_err();
    assert_eq!(err, FormatError::InvalidWord("notarealword".to_string()));
}

#[test]
fn empty_input_is_malformed() {
    let l = lists();
    assert_eq!(decode_words("", &l), Err(FormatError::Malformed));
    assert_eq!(decode_words("   ", &l), Err(FormatError::Malformed));
}

#[test]
fn kanji_wordlist_is_2048_unique_and_index_aligned() {
    let l = lists();
    assert_eq!(l.kanji().len(), l.hiragana().len());
    let set: HashSet<String> = (0..l.kanji().len()).map(|i| l.kanji().word(i)).collect();
    assert_eq!(set.len(), 2048);
    assert!((0..2048).any(|i| l.kanji().word(i) != l.hiragana().word(i)));
}

#[test]
fn roundtrip_kanji_various_lengths() {
    let l = lists();
    for ct_len in [16usize, 17, 18, 19, 32, 100] {
        let p = payload(ct_len);
        let words = encode_words_kanji(&p, &l);
        assert_eq!(decode_words_kanji(&words, &l).unwrap(), p, "ct_len={ct_len}");
    }
}

#[test]
fn word_count_matches_bit_length() {
    // 4 length bytes + 41 header bytes + 16 ciphertext bytes = 61 bytes = 488 bits -> 45 words.
    let words = encode_words(&payload(16), &lists());
    assert_eq!(words.split('\u{3001}').count(), 45);
    // The first 11 bits are the top of the length prefix 0x0000003D: all zero.
    assert!(words.starts_with(&format!("{}\u{3001}", hiragana_words()[0])));
}

#[test]
fn first_unknown_word_is_the_error() {
    let l = lists();
    let w0 = l.hiragana().word(0);
    let text = format!("{w0}\u{3001} bad \u{3001}worse");
    assert_eq!(decode_words(&text, &l), Err(FormatError::InvalidWord("bad".to_string())));
}

#[test]
fn empty_tokens_and_spaces_are_ignored() {
    let l = lists();
    let p = payload(20);
    let words = encode_words(&p, &l);
    let spaced = words.replace('\u{3001}', " \u{3001}\u{3001} ");
    assert_eq!(decode_words(&spaced, &l).unwrap(), p);
}

#[test]
fn length_prefix_beyond_data_is_malformed() {
    let l = lists();
    // Three words carry 33 bits: 4 bytes of length, far larger than the data.
    let w = l.hiragana().word(2047);
    let text = format!("{w}\u{3001}{w}\u{3001}{w}");
    assert_eq!(decode_words(&text, &l), Err(FormatError::Malformed));
}

#[test]
fn kanji_words_are_not_hiragana_words() {
    let l = lists();
    let words = encode_words_kanji(&payload(16), &l);
    assert!(matches!(decode_words(&words, &l), Err(FormatError::InvalidWord(_))));
}

#[test]
fn wordlist_rejects_bad_lists() {
    let mut dup = hiragana_words();
    dup[5] = dup[4].clone();
    assert!(Wordlist::new(dup).is_none());
    let mut short = hiragana_words();
    short.pop();
    assert!(Wordlist::new(short).is_none());
    let mut sep = hiragana_words();
    sep[7] = "\u{3042}\u{3001}\u{3044}".to_string();
    assert!(Wordlist::new(sep).is_none());
    let mut padded = hiragana_words();
    padded[9] = " \u{3042}".to_string();
    assert!(Wordlist::new(padded).is_none());
    let mut empty = hiragana_words();
    empty[0] = String::new();
    assert!(Wordlist::new(empty).is_none());
}

#[test]
fn wordlists_refuse_a_skin_that_moves_a_word() {
    let h = hiragana_words();
    let mut k = h.clone();
    k.swap(0, 1);
    k[5] = "\u{4e00}".to_string();
    let hl = Wordlist::new(h).unwrap();
    let kl = Wordlist::new(k).unwrap();
    assert!(Wordlists::new(hl, kl).is_none());
}

#[test]
fn wordlists_refuse_a_skin_equal_to_the_list() {
    let hl = Wordlist::new(hiragana_words()).unwrap();
    let kl = Wordlist::new(hiragana_words()).unwrap();
    assert!(Wordlists::new(hl, kl).is_none());
}

#[test]
fn kanji_form_shares_the_word_indices() {
    let l = lists();
    let p = payload(23);
    let h = encode_words(&p, &l);
    let k = encode_words_kanji(&p, &l);
    let hs: Vec<&str> = h.split('\u{3001}').collect();
    let ks: Vec<&str> = k.split('\u{3001}').collect();
    assert_eq!(hs.len(), ks.len());
    let hw = hiragana_words();
    let kw = kanji_words();
    for (a, b) in hs.iter().zip(ks.iter()) {
        let i = hw.iter().position(|w| w == a).unwrap();
        assert_eq!(kw[i], *b);
    }
    assert_ne!(h, k);
}

#[test]
fn wordlists_refuse_a_word_starting_with_o() {
    let mut h = hiragana_words();
    h[7] = "OSM".to_string();
    let hl = Wordlist::new(h).unwrap();
    let kl = Wordlist::new(kanji_words()).unwrap();
    assert!(Wordlists::new(hl, kl).is_none());
}
