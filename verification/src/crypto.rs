//! Passphrase normalization, Argon2id key derivation and AES-256-GCM sealing.
use aes_gcm::aead::{Aead, KeyInit, Payload as AeadPayload};
use aes_gcm::{Aes256Gcm, Key, Nonce};
use argon2::{Algorithm, Argon2, Params as A2Params, Version};
use unicode_normalization::UnicodeNormalization;
use vstd::prelude::*;
use vstd::utf8::encode_utf8;

use crate::error::DecryptError;
use crate::params::{argon2_accepts, Argon2Params};
use crate::payload::{current_version, header_of, readable, Payload, PayloadView};
use crate::rng::Rng;
use crate::text::{
    all_ws, chars_of, is_ws, lemma_trim_fixed, lemma_trim_is_middle, string_from_chars, trim,
    trim_chars,
};

verus! {

/// What `unicode_normalization`'s `nfkc()` makes of a string.
pub uninterp spec fn nfkc(s: Seq<char>) -> Seq<char>;

/// The 32-byte key that `argon2` derives with Argon2id, version 0x13.
pub uninterp spec fn argon2id_key(
    password: Seq<u8>,
    salt: Seq<u8>,
    m_cost: u32,
    t_cost: u32,
    p_cost: u32,
) -> Seq<u8>;

/// What `aes_gcm::Aes256Gcm::encrypt` returns: ciphertext with the tag appended.
pub uninterp spec fn aes256gcm_seal(key: Seq<u8>, nonce: Seq<u8>, aad: Seq<u8>, msg: Seq<u8>) -> Seq<
    u8,
>;

/// What `aes_gcm::Aes256Gcm::decrypt` returns, `None` where it reports an error.
pub uninterp spec fn aes256gcm_open(key: Seq<u8>, nonce: Seq<u8>, aad: Seq<u8>, ct: Seq<u8>) -> Option<
    Seq<u8>,
>;

/// Largest plaintext that AES-GCM accepts (`aes_gcm::P_MAX`, 2^36 bytes).
pub open spec fn aes_plaintext_max() -> int {
    0x1000000000
}

/// The Argon2 password for a passphrase: NFKC, trimmed, UTF-8.
pub open spec fn normalized(passphrase: Seq<char>) -> Seq<u8> {
    encode_utf8(trim(nfkc(passphrase)))
}

/// A normalized passphrase that Argon2 accepts (at most 2^32 - 1 bytes).
pub open spec fn passphrase_fits(passphrase: Seq<char>) -> bool {
    normalized(passphrase).len() <= u32::MAX
}

/// The key for a passphrase, salt and cost parameters.
pub open spec fn derived_key(passphrase: Seq<char>, salt: Seq<u8>, params: Argon2Params) -> Seq<
    u8,
> {
    argon2id_key(normalized(passphrase), salt, params.m_cost, params.t_cost, params.p_cost as u32)
}

/// The payload that sealing a plaintext with this salt and nonce gives.
pub open spec fn sealed_payload(
    plaintext: Seq<u8>,
    passphrase: Seq<char>,
    params: Argon2Params,
    salt: Seq<u8>,
    nonce: Seq<u8>,
) -> PayloadView {
    let bare = PayloadView { version: current_version(), params, salt, nonce, ciphertext: seq![] };
    PayloadView {
        ciphertext: aes256gcm_seal(
            derived_key(passphrase, salt, params),
            nonce,
            header_of(bare),
            plaintext,
        ),
        ..bare
    }
}

/// What opening a payload with a passphrase gives; the header is the associated data.
pub open spec fn opened(p: PayloadView, passphrase: Seq<char>) -> Option<Seq<u8>> {
    aes256gcm_open(derived_key(passphrase, p.salt, p.params), p.nonce, header_of(p), p.ciphertext)
}

/// The result of decrypting a payload with a passphrase: the opened plaintext,
/// and `AuthenticationFailed` when opening fails or when no key can be derived
/// (header parameters Argon2 refuses, or a passphrase too long for it).
pub open spec fn decrypt_spec(p: PayloadView, passphrase: Seq<char>) -> Result<Seq<u8>, DecryptError> {
    if argon2_accepts(p.params) && passphrase_fits(passphrase) {
        match opened(p, passphrase) {
            Some(m) => Ok(m),
            None => Err(DecryptError::AuthenticationFailed),
        }
    } else {
        Err(DecryptError::AuthenticationFailed)
    }
}

/// NFKC normalization (`UnicodeNormalization::nfkc` collected into a `String`).
/// Claimed: the result is named by `nfkc`, nothing more.
#[verifier::external_body]
fn nfkc_string(s: &str) -> (r: String)
    ensures
        r@ == nfkc(s@),
{
    s.nfkc().collect()
}

/// Argon2id, version 0x13, 32-byte output (`Argon2::hash_password_into`). The
/// `requires` holds what `Params::new` and `verify_inputs` check for a 16-byte
/// salt, so neither fails; the key is named by `argon2id_key`.
#[verifier::external_body]
fn argon2id_hash(pwd: &[u8], salt: &[u8; 16], m_cost: u32, t_cost: u32, p_cost: u32) -> (key: [u8; 32])
    requires
        m_cost >= 8 * p_cost,
        t_cost >= 1,
        1 <= p_cost <= 0xFFFFFF,
        pwd@.len() <= u32::MAX,
    ensures
        key@ == argon2id_key(pwd@, salt@, m_cost, t_cost, p_cost),
{
    let params = A2Params::new(m_cost, t_cost, p_cost, Some(32)).expect("checked parameters");
    let a2 = Argon2::new(Algorithm::Argon2id, Version::V0x13, params);
    let mut key = [0u8; 32];
    a2.hash_password_into(pwd, salt, &mut key).expect("checked inputs");
    key
}

/// AES-256-GCM encryption (`Aead::encrypt`), which fails only above `P_MAX`.
/// Claimed: the result is named by `aes256gcm_seal`, it is 16 bytes (the tag)
/// longer than the message, and `decrypt` with the same key, nonce and
/// associated data gives the message back.
#[verifier::external_body]
fn aes_seal(key: &[u8; 32], nonce: &[u8; 12], aad: &[u8; 41], msg: &[u8]) -> (ct: Vec<u8>)
    requires
        msg@.len() <= aes_plaintext_max(),
    ensures
        ct@ == aes256gcm_seal(key@, nonce@, aad@, msg@),
        ct@.len() == msg@.len() + 16,
        aes256gcm_open(key@, nonce@, aad@, ct@) == Some(msg@),
{
    let cipher = Aes256Gcm::new(Key::<Aes256Gcm>::from_slice(key));
    cipher.encrypt(Nonce::from_slice(nonce), AeadPayload { msg, aad }).expect("bounded message")
}

/// AES-256-GCM decryption (`Aead::decrypt`), `None` on its error (tag mismatch or
/// bad length). Claimed: the result is named by `aes256gcm_open`.
#[verifier::external_body]
fn aes_open(key: &[u8; 32], nonce: &[u8; 12], aad: &[u8; 41], ct: &[u8]) -> (r: Option<Vec<u8>>)
    ensures
        r is Some <==> aes256gcm_open(key@, nonce@, aad@, ct@) is Some,
        r matches Some(m) ==> m@ == aes256gcm_open(key@, nonce@, aad@, ct@)->0,
{
    let cipher = Aes256Gcm::new(Key::<Aes256Gcm>::from_slice(key));
    cipher.decrypt(Nonce::from_slice(nonce), AeadPayload { msg: ct, aad }).ok()
}

/// NFKC-normalizes and trims a passphrase and returns its UTF-8 bytes. This
/// applies to the passphrase only, never to the memo body.
pub fn normalize_passphrase(passphrase: &str) -> (r: Vec<u8>)
    ensures
        r@ == normalized(passphrase@),
{
    let n = nfkc_string(passphrase);
    let cs = chars_of(n.as_str());
    let t = trim_chars(cs.as_slice());
    let ts = string_from_chars(t.as_slice());
    vstd::slice::slice_to_vec(ts.as_str().as_bytes())
}

fn derive_key(pwd: &[u8], salt: &[u8; 16], params: &Argon2Params) -> (key: [u8; 32])
    requires
        argon2_accepts(*params),
        pwd@.len() <= u32::MAX,
    ensures
        key@ == argon2id_key(pwd@, salt@, params.m_cost, params.t_cost, params.p_cost as u32),
{
    argon2id_hash(pwd, salt, params.m_cost, params.t_cost, params.p_cost as u32)
}

/// Seals a plaintext under a normalized passphrase with the given salt and nonce.
fn seal_with(
    plaintext: &[u8],
    pwd: &[u8],
    passphrase: Ghost<Seq<char>>,
    params: Argon2Params,
    salt: [u8; 16],
    nonce: [u8; 12],
) -> (r: Payload)
    requires
        argon2_accepts(params),
        plaintext@.len() <= aes_plaintext_max(),
        pwd@ == normalized(passphrase@),
        pwd@.len() <= u32::MAX,
    ensures
        r@ == sealed_payload(plaintext@, passphrase@, params, salt@, nonce@),
        opened(r@, passphrase@) == Some(plaintext@),
        r.ciphertext@.len() == plaintext@.len() + 16,
        readable(r@),
{
    let mut payload = Payload {
        version: Payload::CURRENT_VERSION,
        params,
        salt,
        nonce,
        ciphertext: Vec::new(),
    };
    let aad = payload.header();
    let key = derive_key(pwd, &salt, &params);
    let ct = aes_seal(&key, &nonce, &aad, plaintext);
    payload.ciphertext = ct;
    proof {
        let bare = PayloadView {
            version: current_version(),
            params,
            salt: salt@,
            nonce: nonce@,
            ciphertext: seq![],
        };
        assert(header_of(bare) == header_of(payload@));
    }
    payload
}

/// Encrypts a memo: draws a 16-byte salt and then a 12-byte nonce from `rng`,
/// derives the key with Argon2id and seals with AES-256-GCM, the header being
/// the associated data. Decrypting the result with the same passphrase gives
/// the plaintext back.
pub fn encrypt<R: Rng>(plaintext: &[u8], passphrase: &str, params: Argon2Params, rng: &mut R) -> (r:
    Payload)
    requires
        argon2_accepts(params),
        plaintext@.len() <= aes_plaintext_max(),
        passphrase_fits(passphrase@),
    ensures
        r@ == sealed_payload(plaintext@, passphrase@, params, r.salt@, r.nonce@),
        exists|mid: R| old(rng).draws(r.salt@, mid) && mid.draws(r.nonce@, *final(rng)),
        r.ciphertext@.len() == plaintext@.len() + 16,
        decrypt_spec(r@, passphrase@) == Ok::<Seq<u8>, DecryptError>(plaintext@),
        readable(r@),
{
    let mut salt = [0u8; 16];
    rng.fill(&mut salt);
    let ghost mid = *rng;
    let mut nonce = [0u8; 12];
    rng.fill(&mut nonce);
    let pwd = normalize_passphrase(passphrase);
    seal_with(plaintext, pwd.as_slice(), Ghost(passphrase@), params, salt, nonce)
}

/// Like [`encrypt`], for any input: `None` exactly where [`encrypt`] may not be
/// called (parameters Argon2 refuses, a plaintext above `P_MAX`, or a normalized
/// passphrase longer than Argon2 accepts).
pub fn encrypt_checked<R: Rng>(
    plaintext: &[u8],
    passphrase: &str,
    params: Argon2Params,
    rng: &mut R,
) -> (r: Option<Payload>)
    ensures
        r is None <==> !(argon2_accepts(params) && plaintext@.len() <= aes_plaintext_max()
            && passphrase_fits(passphrase@)),
        r matches Some(p) ==> p@ == sealed_payload(
            plaintext@,
            passphrase@,
            params,
            p.salt@,
            p.nonce@,
        ) && (exists|mid: R| old(rng).draws(p.salt@, mid) && mid.draws(p.nonce@, *final(rng)))
            && p.ciphertext@.len() == plaintext@.len() + 16 && decrypt_spec(p@, passphrase@)
            == Ok::<Seq<u8>, DecryptError>(plaintext@) && readable(p@),
        r is None ==> *final(rng) == *old(rng),
{
    if !params.argon2_accepts() || plaintext.len() as u64 > 0x1000000000u64 {
        return None;
    }
    let pwd = normalize_passphrase(passphrase);
    if pwd.len() > u32::MAX as usize {
        return None;
    }
    Some(encrypt(plaintext, passphrase, params, rng))
}

fn open_with(payload: &Payload, pwd: &[u8], passphrase: Ghost<Seq<char>>) -> (r: Result<
    Vec<u8>,
    DecryptError,
>)
    requires
        argon2_accepts(payload.params),
        pwd@ == normalized(passphrase@),
        pwd@.len() <= u32::MAX,
    ensures
        match (r, decrypt_spec(payload@, passphrase@)) {
            (Ok(m), Ok(n)) => m@ == n,
            (Err(e), Err(f)) => e == f,
            _ => false,
        },
{
    let aad = payload.header();
    let key = derive_key(pwd, &payload.salt, &payload.params);
    match aes_open(&key, &payload.nonce, &aad, payload.ciphertext.as_slice()) {
        Some(m) => Ok(m),
        None => Err(DecryptError::AuthenticationFailed),
    }
}

/// Decrypts a payload. Any failure is `AuthenticationFailed`: a tag that does
/// not check out (wrong passphrase, or a changed header or ciphertext), or no
/// key at all (header parameters Argon2 refuses, or a passphrase too long for it).
pub fn decrypt(payload: &Payload, passphrase: &str) -> (r: Result<Vec<u8>, DecryptError>)
    ensures
        match (r, decrypt_spec(payload@, passphrase@)) {
            (Ok(m), Ok(n)) => m@ == n,
            (Err(e), Err(f)) => e == f,
            _ => false,
        },
        r matches Err(e) ==> e == DecryptError::AuthenticationFailed,
{
    if !payload.params.argon2_accepts() {
        return Err(DecryptError::AuthenticationFailed);
    }
    let pwd = normalize_passphrase(passphrase);
    if pwd.len() > u32::MAX as usize {
        return Err(DecryptError::AuthenticationFailed);
    }
    open_with(payload, pwd.as_slice(), Ghost(passphrase@))
}

/// Passphrases with the same normalized form derive the same keys and decrypt
/// every payload alike.
pub proof fn law_same_normalized_passphrase(
    p: PayloadView,
    pw1: Seq<char>,
    pw2: Seq<char>,
    salt: Seq<u8>,
    params: Argon2Params,
)
    requires
        normalized(pw1) == normalized(pw2),
    ensures
        derived_key(pw1, salt, params) == derived_key(pw2, salt, params),
        decrypt_spec(p, pw1) == decrypt_spec(p, pw2),
{
}

/// The key that seals a memo, and the key that opens a payload, is Argon2id of
/// the normalized passphrase and the salt under the memory, time and parallelism
/// costs that the header itself carries; the sealed payload carries the given
/// header fields, and its header is the associated data.
pub proof fn law_key_uses_header_costs(
    plaintext: Seq<u8>,
    passphrase: Seq<char>,
    params: Argon2Params,
    salt: Seq<u8>,
    nonce: Seq<u8>,
    p: PayloadView,
)
    ensures
        sealed_payload(plaintext, passphrase, params, salt, nonce).version == current_version(),
        sealed_payload(plaintext, passphrase, params, salt, nonce).params == params,
        sealed_payload(plaintext, passphrase, params, salt, nonce).salt == salt,
        sealed_payload(plaintext, passphrase, params, salt, nonce).nonce == nonce,
        sealed_payload(plaintext, passphrase, params, salt, nonce).ciphertext == aes256gcm_seal(
            argon2id_key(
                normalized(passphrase),
                salt,
                params.m_cost,
                params.t_cost,
                params.p_cost as u32,
            ),
            nonce,
            header_of(sealed_payload(plaintext, passphrase, params, salt, nonce)),
            plaintext,
        ),
        argon2_accepts(p.params) && normalized(passphrase).len() <= u32::MAX ==> decrypt_spec(
            p,
            passphrase,
        ) == match aes256gcm_open(
            argon2id_key(
                normalized(passphrase),
                p.salt,
                p.params.m_cost,
                p.params.t_cost,
                p.params.p_cost as u32,
            ),
            p.nonce,
            header_of(p),
            p.ciphertext,
        ) {
            Some(m) => Ok::<Seq<u8>, DecryptError>(m),
            None => Err(DecryptError::AuthenticationFailed),
        },
{
    let s = sealed_payload(plaintext, passphrase, params, salt, nonce);
    let bare = PayloadView { version: current_version(), params, salt, nonce, ciphertext: seq![] };
    assert(header_of(bare) == header_of(s));
}

/// Normalizing keeps the NFKC form of the passphrase between its leading and
/// trailing whitespace, whitespace inside it included, as UTF-8.
pub proof fn law_normalized_keeps_inner_text(passphrase: Seq<char>)
    ensures
        exists|a: int, b: int|
            0 <= a <= b <= nfkc(passphrase).len() && all_ws(nfkc(passphrase).subrange(0, a))
                && all_ws(nfkc(passphrase).subrange(b, nfkc(passphrase).len() as int)) && (a < b
                ==> !is_ws(nfkc(passphrase)[a]) && !is_ws(nfkc(passphrase)[b - 1])) && normalized(
                passphrase,
            ) == encode_utf8(nfkc(passphrase).subrange(a, b)),
{
    let n = nfkc(passphrase);
    lemma_trim_is_middle(n);
    let (a, b) = choose|a: int, b: int|
        0 <= a <= b <= n.len() && all_ws(n.subrange(0, a)) && all_ws(n.subrange(b, n.len() as int))
            && (a < b ==> !is_ws(n[a]) && !is_ws(n[b - 1])) && trim(n) == n.subrange(a, b);
    assert(normalized(passphrase) == encode_utf8(n.subrange(a, b)));
}

/// A passphrase whose NFKC form has no whitespace at either end normalizes to
/// the UTF-8 of that form, unchanged.
pub proof fn law_normalized_without_outer_whitespace(passphrase: Seq<char>)
    requires
        nfkc(passphrase).len() > 0 ==> !is_ws(nfkc(passphrase)[0]) && !is_ws(
            nfkc(passphrase).last(),
        ),
    ensures
        normalized(passphrase) == encode_utf8(nfkc(passphrase)),
{
    lemma_trim_fixed(nfkc(passphrase));
}

} // verus!
