//! Trusted wrappers around the cryptographic primitives and codecs that the
//! containers compose: Argon2id key derivation, AES-256-GCM, the system
//! clock, random bytes, base64 and UTF-8 decoding.
//!
//! Each wrapper's contract states only what the wrapped crate's source or
//! documentation shows; everything built on top of them is verified.

use vstd::prelude::*;
use vstd::utf8::*;

use crate::errors::CryptorError;
use crate::streaming::NONCE_LEN;

use base64::Engine;

verus! {

/// The 32-byte key that Argon2id derives from a password and a salt under
/// the given cost parameters. Deterministic in its arguments; nothing else
/// is assumed of its value.
pub uninterp spec fn kdf_key(
    password: Seq<u8>,
    salt: Seq<u8>,
    mem_cost_kib: u32,
    time_cost: u32,
    lanes: u32,
) -> Seq<u8>;

/// What AES-256-GCM emits for a key, nonce and plaintext: the ciphertext
/// with its 16-byte authentication tag appended.
pub uninterp spec fn aead_seal(key: Seq<u8>, nonce: Seq<u8>, plaintext: Seq<u8>) -> Seq<u8>;

/// What AES-256-GCM decryption yields for a key, nonce and ciphertext:
/// the plaintext when the authentication tag verifies, nothing otherwise.
pub uninterp spec fn aead_open(key: Seq<u8>, nonce: Seq<u8>, ciphertext: Seq<u8>) -> Option<
    Seq<u8>,
>;

/// The standard-alphabet, padded base64 rendering of a byte sequence.
pub uninterp spec fn b64_chars(bytes: Seq<u8>) -> Seq<char>;

/// What base64 decoding yields for a character sequence: the bytes it
/// renders, or nothing when the text is not padded standard base64.
pub uninterp spec fn b64_bytes(text: Seq<char>) -> Option<Seq<u8>>;

/// Relies on `Argon2::hash_password_into` of the `argon2` crate with
/// algorithm Argon2id, version 0x13 and a 32-byte output: the key is a
/// function of the password, the salt and the cost parameters alone.
#[verifier::external_body]
pub(crate) fn derive_key(
    password: &[u8],
    salt: &[u8],
    mem_cost_kib: u32,
    time_cost: u32,
    lanes: u32,
) -> (r: Result<Vec<u8>, CryptorError>)
    ensures
        r matches Ok(k) ==> k@ == kdf_key(password@, salt@, mem_cost_kib, time_cost, lanes)
            && k@.len() == 32,
        r matches Err(e) ==> e == CryptorError::Cryptography,
{
    let params = argon2::Params::new(mem_cost_kib, time_cost, lanes, Some(32)).map_err(
        |_| CryptorError::Cryptography,
    )?;
    let argon = argon2::Argon2::new(argon2::Algorithm::Argon2id, argon2::Version::V0x13, params);
    let mut key = vec![0u8; 32];
    argon.hash_password_into(password, salt, &mut key).map_err(|_| CryptorError::Cryptography)?;
    Ok(key)
}

/// Relies on `Aead::encrypt` of the `aes_gcm` crate (AES-256-GCM):
/// deterministic in key, nonce and plaintext; the result is the ciphertext
/// with a 16-byte tag appended; it succeeds whenever the plaintext is within
/// the GCM length limit of `2^36 - 32` bytes; and `Aead::decrypt` opens the
/// result back to the plaintext under the same key and nonce.
#[verifier::external_body]
pub(crate) fn aead_encrypt(key: &[u8], nonce: &[u8; NONCE_LEN], plaintext: &[u8]) -> (r: Result<
    Vec<u8>,
    CryptorError,
>)
    requires
        key@.len() == 32,
    ensures
        r matches Ok(c) ==> c@ == aead_seal(key@, nonce@, plaintext@)
            && c@.len() == plaintext@.len() + 16
            && aead_open(key@, nonce@, c@) == Some(plaintext@),
        plaintext@.len() <= 0xF_FFFF_FFE0 ==> r is Ok,
        r matches Err(e) ==> e == CryptorError::Cryptography,
{
    let cipher = match <aes_gcm::Aes256Gcm as aes_gcm::KeyInit>::new_from_slice(key) {
        Ok(c) => c,
        Err(_) => return Err(CryptorError::Cryptography),
    };
    aes_gcm::aead::Aead::encrypt(&cipher, nonce.into(), plaintext).map_err(
        |_| CryptorError::Cryptography,
    )
}

/// Relies on `Aead::decrypt` of the `aes_gcm` crate (AES-256-GCM):
/// deterministic in key, nonce and ciphertext; yields the plaintext exactly
/// when the authentication tag verifies.
#[verifier::external_body]
pub(crate) fn aead_decrypt(key: &[u8], nonce: &[u8; NONCE_LEN], ciphertext: &[u8]) -> (r: Result<
    Vec<u8>,
    CryptorError,
>)
    requires
        key@.len() == 32,
    ensures
        r matches Ok(p) ==> aead_open(key@, nonce@, ciphertext@) == Some(p@),
        r is Err ==> aead_open(key@, nonce@, ciphertext@) is None,
        r matches Err(e) ==> e == CryptorError::Cryptography,
{
    let cipher = match <aes_gcm::Aes256Gcm as aes_gcm::KeyInit>::new_from_slice(key) {
        Ok(c) => c,
        Err(_) => return Err(CryptorError::Cryptography),
    };
    aes_gcm::aead::Aead::decrypt(&cipher, nonce.into(), ciphertext).map_err(
        |_| CryptorError::Cryptography,
    )
}

/// Relies on `getrandom::fill`: fills a buffer of the requested length from
/// the operating system's entropy source. Nothing is assumed of the values.
#[verifier::external_body]
pub(crate) fn random_bytes(n: usize) -> (r: Result<Vec<u8>, CryptorError>)
    ensures
        r matches Ok(v) ==> v@.len() == n,
        r matches Err(e) ==> e == CryptorError::Cryptography,
{
    let mut buf = vec![0u8; n];
    match getrandom::fill(&mut buf) {
        Ok(()) => Ok(buf),
        Err(_) => Err(CryptorError::Cryptography),
    }
}

/// Relies on the standard, padded base64 engine's `encode` of the `base64`
/// crate: four ASCII characters for every three input bytes, inverted by
/// `decode`.
#[verifier::external_body]
pub(crate) fn base64_encode(bytes: &[u8]) -> (r: String)
    ensures
        r@ == b64_chars(bytes@),
        is_ascii_chars(r@),
        r@.len() == 4 * ((bytes@.len() + 2) / 3),
        b64_bytes(r@) == Some(bytes@),
{
    base64::engine::general_purpose::STANDARD.encode(bytes)
}

/// Relies on the standard, padded base64 engine's `decode` of the `base64`
/// crate: recovers the bytes that `encode` rendered, and rejects text that
/// is not padded standard base64.
#[verifier::external_body]
pub(crate) fn base64_decode(text: &str) -> (r: Option<Vec<u8>>)
    ensures
        r matches Some(v) ==> b64_bytes(text@) == Some(v@),
        r is None ==> b64_bytes(text@) is None,
{
    base64::engine::general_purpose::STANDARD.decode(text).ok()
}

/// Relies on `String::from_utf8`: succeeds exactly on valid UTF-8 input and
/// decodes it to the characters the bytes encode.
#[verifier::external_body]
pub(crate) fn string_from_utf8(bytes: Vec<u8>) -> (r: Option<String>)
    ensures
        r is Some <==> valid_utf8(bytes@),
        r matches Some(s) ==> s@ == decode_utf8(bytes@),
{
    String::from_utf8(bytes).ok()
}

/// Relies on `std::time::SystemTime::now`: the wall clock, in whole seconds
/// since the Unix epoch. Nothing is assumed of the value. A clock before
/// the epoch is a fatal environmental error and aborts.
#[verifier::external_body]
pub(crate) fn unix_now() -> (r: u64)
{
    std::time::SystemTime::now()
        .duration_since(std::time::UNIX_EPOCH)
        .expect("system time before Unix epoch")
        .as_secs()
}

} // verus!
