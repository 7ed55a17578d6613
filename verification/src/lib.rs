//! Open Secret Memo core: a passphrase-encrypted memo format with a binary
//! payload, a base64url text form and a base-2048 Japanese word form.

pub mod crypto;
pub mod encoding;
pub mod error;
pub mod hex;
pub mod params;
pub mod payload;
pub mod rng;
pub mod text;
pub mod vectors;
pub mod web;

pub use crypto::{decrypt, encrypt, encrypt_checked, normalize_passphrase};
pub use encoding::detect::{detect_and_decode, detect_standard};
pub use encoding::standard::{decode_standard, encode_standard, standard_prefix};
pub use encoding::words::{
    decode_words, decode_words_kanji, encode_words, encode_words_kanji, Wordlist, Wordlists,
};
pub use error::{DecryptError, FormatError};
pub use hex::{hex_decode, HexError};
pub use params::{Argon2Params, ParamError, M_COST_MAX, M_COST_MIN, P_COST_MIN, T_COST_MIN};
pub use payload::{Payload, HEADER_LEN, MAGIC};
pub use rng::{FixedRng, OsRng, Rng};
pub use web::{decrypt_outcome, encode_as, from_format_error, outcome_of, DecryptOutcome};
