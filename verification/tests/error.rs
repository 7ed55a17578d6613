use osm_core::{DecryptError, FormatError};

#[test]
fn format_error_converts_into_decrypt_error() {
    let d: DecryptError = FormatError::Malformed.into();
    assert_eq!(d, DecryptError::Format(FormatError::Malformed));
}

#[test]
fn word_error_keeps_the_word_when_converted() {
    let d: DecryptError = FormatError::InvalidWord("x".to_string()).into();
    assert_eq!(d, DecryptError::Format(FormatError::InvalidWord("x".to_string())));
}
