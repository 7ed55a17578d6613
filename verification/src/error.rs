use vstd::prelude::*;

verus! {

/// Errors returned when decoding a text representation into a [`crate::Payload`].
#[derive(Debug, Clone, PartialEq, Eq)]
pub enum FormatError {
    /// The input is not a recognized ciphertext.
    Malformed,
    /// The binary payload carries a version this library does not read.
    UnsupportedVersion(u8),
    /// A token of a word-form text is in no entry of the wordlist.
    InvalidWord(String),
}

/// Errors returned by [`crate::decrypt`].
#[derive(Debug, Clone, PartialEq, Eq)]
pub enum DecryptError {
    /// The text or binary form could not be read.
    Format(FormatError),
    /// Wrong passphrase or corrupted ciphertext.
    AuthenticationFailed,
}

/// The mathematical content of a [`FormatError`].
pub enum FormatErrorView {
    Malformed,
    UnsupportedVersion(u8),
    InvalidWord(Seq<char>),
}

impl View for FormatError {
    type V = FormatErrorView;

    open spec fn view(&self) -> FormatErrorView {
        match self {
            FormatError::Malformed => FormatErrorView::Malformed,
            FormatError::UnsupportedVersion(v) => FormatErrorView::UnsupportedVersion(*v),
            FormatError::InvalidWord(w) => FormatErrorView::InvalidWord(w@),
        }
    }
}

impl From<FormatError> for DecryptError {
    fn from(e: FormatError) -> (r: DecryptError) {
        DecryptError::Format(e)
    }
}

impl vstd::std_specs::convert::FromSpecImpl<FormatError> for DecryptError {
    open spec fn obeys_from_spec() -> bool {
        true
    }

    open spec fn from_spec(e: FormatError) -> DecryptError {
        DecryptError::Format(e)
    }
}

} // verus!
