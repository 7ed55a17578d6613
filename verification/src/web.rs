//! The browser interface's decisions: which text form an encryption is written
//! in, and what a decryption attempt reports, as one of five stable error kinds.
use vstd::prelude::*;

use crate::crypto::{decrypt, decrypt_spec};
use crate::encoding::detect::{
    detect_and_decode, detect_spec, law_detect_kanji, law_detect_words, lemma_words_text_trimmed,
};
use crate::encoding::standard::{
    base64_url_encode, decimal, decimal_chars, encode_standard, encode_standard_spec, lemma_standard_roundtrip,
    standard_encodable,
};
use crate::encoding::words::{
    encode_words, encode_words_kanji, encode_words_spec, valid_wordlists, word_encodable,
    Wordlists,
};
use crate::error::{DecryptError, FormatError, FormatErrorView};
use crate::payload::{bytes_of, readable, result_view, Payload, PayloadView};
use crate::text::{chars_eq, chars_of, string_from_chars, string_from_utf8};

verus! {

/// Result of a decrypt attempt. `ok` distinguishes success from a recoverable
/// error; on failure `error_kind` is one of the stable kind strings and `text` is
/// empty, on success both `error_kind` and `error_word` are empty.
pub struct DecryptOutcome {
    pub ok: bool,
    pub text: String,
    pub error_kind: String,
    pub error_word: String,
}

impl View for DecryptOutcome {
    type V = (bool, Seq<char>, Seq<char>, Seq<char>);

    /// `ok`, `text`, `error_kind`, `error_word`.
    open spec fn view(&self) -> (bool, Seq<char>, Seq<char>, Seq<char>) {
        (self.ok, self.text@, self.error_kind@, self.error_word@)
    }
}

/// A failed attempt of the given kind, with the word that goes with it.
pub open spec fn failure_spec(kind: Seq<char>, word: Seq<char>) -> (
    bool,
    Seq<char>,
    Seq<char>,
    Seq<char>,
) {
    (false, seq![], kind, word)
}

/// How a format error is reported: `malformed`; `unsupported_version` with the
/// version in decimal; `invalid_word` with the word.
pub open spec fn format_outcome(e: FormatErrorView) -> (bool, Seq<char>, Seq<char>, Seq<char>) {
    match e {
        FormatErrorView::Malformed => failure_spec("malformed"@, seq![]),
        FormatErrorView::UnsupportedVersion(v) => failure_spec(
            "unsupported_version"@,
            decimal(v as nat),
        ),
        FormatErrorView::InvalidWord(w) => failure_spec("invalid_word"@, w),
    }
}

/// What a decrypt attempt reports once the text has been read: the format
/// error, else `auth_failed` when the memo does not open, else the memo as
/// text, or `not_utf8` when its bytes are not UTF-8.
pub open spec fn payload_outcome(
    read: Result<PayloadView, FormatErrorView>,
    passphrase: Seq<char>,
) -> (bool, Seq<char>, Seq<char>, Seq<char>) {
    match read {
        Err(e) => format_outcome(e),
        Ok(p) => match decrypt_spec(p, passphrase) {
            Ok(m) => if vstd::utf8::valid_utf8(m) {
                (true, vstd::utf8::decode_utf8(m), seq![], seq![])
            } else {
                failure_spec("not_utf8"@, seq![])
            },
            Err(DecryptError::AuthenticationFailed) => failure_spec("auth_failed"@, seq![]),
            Err(DecryptError::Format(e)) => format_outcome(e@),
        },
    }
}

/// What a decrypt attempt on a text reports.
pub open spec fn outcome_spec(
    ciphertext: Seq<char>,
    passphrase: Seq<char>,
    hiragana: Seq<Seq<char>>,
    kanji: Seq<Seq<char>>,
) -> (bool, Seq<char>, Seq<char>, Seq<char>) {
    payload_outcome(detect_spec(ciphertext, hiragana, kanji), passphrase)
}

fn failure(kind: &str, word: String) -> (o: DecryptOutcome)
    ensures
        o@ == failure_spec(kind@, word@),
{
    DecryptOutcome { ok: false, text: String::new(), error_kind: kind.to_owned(), error_word: word }
}

/// The outcome that reports a format error.
pub fn from_format_error(e: FormatError) -> (o: DecryptOutcome)
    ensures
        o@ == format_outcome(e@),
{
    match e {
        FormatError::Malformed => failure("malformed", String::new()),
        FormatError::UnsupportedVersion(v) => {
            let d = decimal_chars(v);
            failure("unsupported_version", string_from_chars(d.as_slice()))
        },
        FormatError::InvalidWord(w) => failure("invalid_word", w),
    }
}

/// Decrypts what reading a text gave and reads the memo as UTF-8 text.
pub fn outcome_of(read: Result<Payload, FormatError>, passphrase: &str) -> (o: DecryptOutcome)
    ensures
        o@ == payload_outcome(result_view(read), passphrase@),
{
    let payload = match read {
        Ok(p) => p,
        Err(e) => return from_format_error(e),
    };
    match decrypt(&payload, passphrase) {
        Ok(bytes) => match string_from_utf8(bytes) {
            Some(text) => DecryptOutcome {
                ok: true,
                text,
                error_kind: String::new(),
                error_word: String::new(),
            },
            None => failure("not_utf8", String::new()),
        },
        Err(DecryptError::AuthenticationFailed) => failure("auth_failed", String::new()),
        Err(DecryptError::Format(e)) => from_format_error(e),
    }
}

/// Reads any supported text form, decrypts it and reads the memo as UTF-8 text.
pub fn decrypt_outcome(ciphertext: &str, passphrase: &str, lists: &Wordlists) -> (o:
    DecryptOutcome)
    ensures
        o@ == outcome_spec(ciphertext@, passphrase@, lists@.0, lists@.1),
{
    outcome_of(detect_and_decode(ciphertext, lists), passphrase)
}

/// The text form named `standard`, `words` or `kanji`; `None` for any other name.
pub open spec fn encode_as_spec(
    p: PayloadView,
    format: Seq<char>,
    hiragana: Seq<Seq<char>>,
    kanji: Seq<Seq<char>>,
) -> Option<Seq<char>> {
    if format == "standard"@ {
        Some(encode_standard_spec(p))
    } else if format == "words"@ {
        Some(encode_words_spec(p, hiragana))
    } else if format == "kanji"@ {
        Some(encode_words_spec(p, kanji))
    } else {
        None
    }
}

/// Writes a payload in the text form named by `format`: `standard`, `words`
/// (hiragana) or `kanji`; `None` for an unknown name.
pub fn encode_as(payload: &Payload, format: &str, lists: &Wordlists) -> (r: Option<String>)
    requires
        format@ == "standard"@ ==> standard_encodable(payload@),
        format@ == "words"@ || format@ == "kanji"@ ==> word_encodable(payload@),
    ensures
        match r {
            Some(s) => encode_as_spec(payload@, format@, lists@.0, lists@.1) == Some(s@),
            None => encode_as_spec(payload@, format@, lists@.0, lists@.1) is None,
        },
        format@ == "standard"@ ==> r is Some && r->0@ == encode_standard_spec(payload@),
        format@ == "words"@ ==> r is Some && r->0@ == encode_words_spec(payload@, lists@.0),
        format@ == "kanji"@ ==> r is Some && r->0@ == encode_words_spec(payload@, lists@.1),
        format@ != "standard"@ && format@ != "words"@ && format@ != "kanji"@ ==> r is None,
{
    proof {
        lemma_format_names_differ();
    }
    let f = chars_of(format);
    let standard = chars_of("standard");
    let words = chars_of("words");
    let kanji = chars_of("kanji");
    if chars_eq(f.as_slice(), standard.as_slice()) {
        Some(encode_standard(payload))
    } else if chars_eq(f.as_slice(), words.as_slice()) {
        Some(encode_words(payload, lists))
    } else if chars_eq(f.as_slice(), kanji.as_slice()) {
        Some(encode_words_kanji(payload, lists))
    } else {
        None
    }
}

/// A memo that decrypts to UTF-8 text, written in any of the three forms, is
/// reported back as that text: the word forms under lists that `Wordlists`
/// accepts, when the length prefix holds the payload's size.
pub proof fn law_outcome_roundtrip(
    p: PayloadView,
    format: Seq<char>,
    passphrase: Seq<char>,
    hiragana: Seq<Seq<char>>,
    kanji: Seq<Seq<char>>,
)
    requires
        valid_wordlists(hiragana, kanji),
        readable(p),
        decrypt_spec(p, passphrase) is Ok,
        vstd::utf8::valid_utf8(decrypt_spec(p, passphrase)->Ok_0),
        encode_as_spec(p, format, hiragana, kanji) is Some,
        format != "standard"@ ==> word_encodable(p),
    ensures
        outcome_spec(encode_as_spec(p, format, hiragana, kanji)->0, passphrase, hiragana, kanji)
            == (true, vstd::utf8::decode_utf8(decrypt_spec(p, passphrase)->Ok_0), Seq::<
            char,
        >::empty(), Seq::<char>::empty()),
{
    let text = encode_as_spec(p, format, hiragana, kanji)->0;
    if format == "standard"@ {
        lemma_standard_roundtrip(p, base64_url_encode(bytes_of(p)));
    } else if format == "words"@ {
        lemma_words_text_trimmed(p, hiragana);
        law_detect_words(p, hiragana, kanji);
    } else {
        lemma_words_text_trimmed(p, kanji);
        law_detect_kanji(p, hiragana, kanji);
    }
    assert(detect_spec(text, hiragana, kanji) == Ok::<PayloadView, FormatErrorView>(p));
}

/// The three names choose the standard form, the word form under the hiragana
/// list and the word form under the kanji list; every other name chooses none.
pub proof fn law_encode_as_names(
    p: PayloadView,
    format: Seq<char>,
    hiragana: Seq<Seq<char>>,
    kanji: Seq<Seq<char>>,
)
    ensures
        encode_as_spec(p, "standard"@, hiragana, kanji) == Some(encode_standard_spec(p)),
        encode_as_spec(p, "words"@, hiragana, kanji) == Some(encode_words_spec(p, hiragana)),
        encode_as_spec(p, "kanji"@, hiragana, kanji) == Some(encode_words_spec(p, kanji)),
        format != "standard"@ && format != "words"@ && format != "kanji"@ ==> encode_as_spec(
            p,
            format,
            hiragana,
            kanji,
        ) is None,
{
    lemma_format_names_differ();
}

proof fn lemma_format_names_differ()
    ensures
        "words"@ != "standard"@,
        "kanji"@ != "standard"@,
        "kanji"@ != "words"@,
{
    reveal_strlit("standard");
    reveal_strlit("words");
    reveal_strlit("kanji");
    assert("words"@.len() != "standard"@.len());
    assert("kanji"@.len() != "standard"@.len());
    assert("kanji"@[0] != "words"@[0]);
}

} // verus!
