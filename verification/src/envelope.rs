//! Single-shot payload encryption: cost-parameter presets and the
//! `salt[32] || nonce[12] || ciphertext` envelope for string and byte
//! payloads.

use vstd::prelude::*;
use vstd::utf8::*;
use vstd::slice::*;

use crate::errors::CryptorError;
use crate::primitives::{
    aead_decrypt, aead_encrypt, aead_open, aead_seal, b64_bytes, base64_decode, base64_encode,
    derive_key, kdf_key, random_bytes, string_from_utf8,
};
use crate::streaming::NONCE_LEN;

verus! {

/// Argon2 cost parameters for one encrypt or decrypt operation.
///
/// The parameters are not embedded in any container; a decode must be given
/// the parameters the encode used.
#[derive(Debug, Clone, Copy, PartialEq, Eq, Structural)]
pub struct EncryptConfig {
    /// Whether Argon2 is used for key derivation.
    pub use_argon2: bool,
    /// Argon2 memory cost in KiB.
    pub memory_cost: u32,
    /// Argon2 time cost (passes).
    pub time_cost: u32,
}

impl EncryptConfig {
    /// The default, balanced configuration: 64 MiB, 3 passes.
    pub fn new() -> (r: Self)
        ensures
            r == (EncryptConfig { use_argon2: true, memory_cost: 65536u32, time_cost: 3u32 }),
    {
        EncryptConfig { use_argon2: true, memory_cost: 65536, time_cost: 3 }
    }

    /// A fast configuration: 8 MiB, 1 pass. Lower security, faster.
    pub fn fast() -> (r: Self)
        ensures
            r == (EncryptConfig { use_argon2: true, memory_cost: 8192u32, time_cost: 1u32 }),
    {
        EncryptConfig { use_argon2: true, memory_cost: 8192, time_cost: 1 }
    }

    /// The balanced, recommended configuration: 64 MiB, 3 passes.
    pub fn balanced() -> (r: Self)
        ensures
            r == (EncryptConfig { use_argon2: true, memory_cost: 65536u32, time_cost: 3u32 }),
    {
        EncryptConfig { use_argon2: true, memory_cost: 65536, time_cost: 3 }
    }

    /// A secure configuration: 128 MiB, 5 passes. Higher security, slower.
    pub fn secure() -> (r: Self)
        ensures
            r == (EncryptConfig { use_argon2: true, memory_cost: 131072u32, time_cost: 5u32 }),
    {
        EncryptConfig { use_argon2: true, memory_cost: 131072, time_cost: 5 }
    }
}

impl Default for EncryptConfig {
    /// The balanced configuration.
    fn default() -> (r: Self)
        ensures
            r == (EncryptConfig { use_argon2: true, memory_cost: 65536u32, time_cost: 3u32 }),
    {
        EncryptConfig { use_argon2: true, memory_cost: 65536, time_cost: 3 }
    }
}

/// A sealed envelope: the 32-byte salt, the 12-byte nonce, then the sealed
/// payload.
pub open spec fn spec_envelope(key: Seq<u8>, salt: Seq<u8>, nonce: Seq<u8>, data: Seq<u8>) -> Seq<
    u8,
> {
    salt + nonce + aead_seal(key, nonce, data)
}

/// What opening an envelope under a password and cost parameters yields:
/// the payload when the envelope is long enough to carry its salt and
/// nonce and the tag authenticates under the derived key.
pub open spec fn spec_open_envelope(
    data: Seq<u8>,
    password: Seq<u8>,
    mem_cost_kib: u32,
    time_cost: u32,
) -> Result<Seq<u8>, CryptorError> {
    if data.len() < 44 {
        Err(CryptorError::InvalidFormat)
    } else {
        let salt = data.subrange(0, 32);
        let nonce = data.subrange(32, 44);
        let ciphertext = data.subrange(44, data.len() as int);
        match aead_open(kdf_key(password, salt, mem_cost_kib, time_cost, 1), nonce, ciphertext) {
            Some(p) => Ok(p),
            None => Err(CryptorError::Cryptography),
        }
    }
}

/// Encrypts bytes under a password: a fresh salt and nonce, an Argon2id
/// key, and the `salt || nonce || ciphertext` envelope, 60 bytes longer
/// than the data (32 salt, 12 nonce, 16 tag). Every envelope it returns
/// opens back to the data under the same password and parameters.
pub fn encrypt_bytes_with_config(password: &str, data: &[u8], config: &EncryptConfig) -> (r:
    Result<Vec<u8>, CryptorError>)
    ensures
        r matches Ok(v) ==> spec_open_envelope(
            v@,
            encode_utf8(password@),
            config.memory_cost,
            config.time_cost,
        ) == Ok::<Seq<u8>, CryptorError>(data@),
        r matches Ok(v) ==> v@.len() == data@.len() + 60,
        r matches Ok(v) ==> exists|salt: Seq<u8>, nonce: Seq<u8>|
            salt.len() == 32 && nonce.len() == 12 && v@ == #[trigger] spec_envelope(
                kdf_key(encode_utf8(password@), salt, config.memory_cost, config.time_cost, 1),
                salt,
                nonce,
                data@,
            ),
        r matches Err(e) ==> e == CryptorError::Cryptography,
{
    let salt = match random_bytes(32) {
        Ok(v) => v,
        Err(e) => {
            return Err(e);
        },
    };
    let nonce_vec = match random_bytes(NONCE_LEN) {
        Ok(v) => v,
        Err(e) => {
            return Err(e);
        },
    };
    let mut nonce = [0u8; NONCE_LEN];
    for k in 0..NONCE_LEN
        invariant
            nonce_vec@.len() == 12,
            nonce@.len() == 12,
            forall|t: int| 0 <= t < k ==> nonce@[t] == nonce_vec@[t],
    {
        nonce[k] = nonce_vec[k];
    }
    let key = match derive_key(
        password.as_bytes(),
        salt.as_slice(),
        config.memory_cost,
        config.time_cost,
        1,
    ) {
        Ok(k) => k,
        Err(e) => {
            return Err(e);
        },
    };
    let ciphertext = match aead_encrypt(key.as_slice(), &nonce, data) {
        Ok(c) => c,
        Err(e) => {
            return Err(e);
        },
    };
    let mut out: Vec<u8> = Vec::new();
    out.extend_from_slice(salt.as_slice());
    out.extend_from_slice(nonce.as_slice());
    out.extend_from_slice(ciphertext.as_slice());
    proof {
        assert(nonce@ =~= nonce_vec@);
        assert(out@.subrange(0, 32) =~= salt@);
        assert(out@.subrange(32, 44) =~= nonce@);
        assert(out@.subrange(44, out@.len() as int) =~= ciphertext@);
        assert(out@ =~= spec_envelope(key@, salt@, nonce@, data@));
    }
    Ok(out)
}

/// Encrypts bytes under a password with the default cost parameters.
pub fn encrypt_bytes(password: &str, data: &[u8]) -> (r: Result<Vec<u8>, CryptorError>)
    ensures
        r matches Ok(v) ==> spec_open_envelope(v@, encode_utf8(password@), 65536u32, 3u32) == Ok::<
            Seq<u8>,
            CryptorError,
        >(data@),
        r matches Ok(v) ==> v@.len() == data@.len() + 60,
        r matches Err(e) ==> e == CryptorError::Cryptography,
{
    let config = EncryptConfig::balanced();
    encrypt_bytes_with_config(password, data, &config)
}

/// Decrypts a `salt || nonce || ciphertext` envelope under a password:
/// exactly what [`spec_open_envelope`] yields, except that on an envelope
/// long enough to carry its salt and nonce, a key-derivation failure may
/// surface as a `Cryptography` error of its own. An envelope too short for
/// them is always the format error: it is never masked as a cryptographic
/// one.
pub fn decrypt_bytes_with_config(
    password: &str,
    encrypted_data: &[u8],
    config: &EncryptConfig,
) -> (r: Result<Vec<u8>, CryptorError>)
    ensures
        ({
            let opened = spec_open_envelope(
                encrypted_data@,
                encode_utf8(password@),
                config.memory_cost,
                config.time_cost,
            );
            &&& (r matches Ok(p) ==> opened == Ok::<Seq<u8>, CryptorError>(p@))
            &&& (r matches Err(e) ==> opened == Err::<Seq<u8>, CryptorError>(e) || (e
                == CryptorError::Cryptography && encrypted_data@.len() >= 44))
            &&& (encrypted_data@.len() < 44 ==> (r matches Err(e) && e
                == CryptorError::InvalidFormat))
        }),
{
    if encrypted_data.len() < 44 {
        return Err(CryptorError::InvalidFormat);
    }
    let salt = slice_subrange(encrypted_data, 0, 32);
    let nonce_slice = slice_subrange(encrypted_data, 32, 44);
    let ciphertext = slice_subrange(encrypted_data, 44, encrypted_data.len());
    let mut nonce = [0u8; NONCE_LEN];
    for k in 0..NONCE_LEN
        invariant
            nonce_slice@.len() == 12,
            nonce_slice@ == encrypted_data@.subrange(32, 44),
            nonce@.len() == 12,
            forall|t: int| 0 <= t < k ==> nonce@[t] == nonce_slice@[t],
    {
        nonce[k] = nonce_slice[k];
    }
    let key = match derive_key(
        password.as_bytes(),
        salt,
        config.memory_cost,
        config.time_cost,
        1,
    ) {
        Ok(k) => k,
        Err(e) => {
            return Err(e);
        },
    };
    proof {
        assert(nonce@ =~= encrypted_data@.subrange(32, 44));
    }
    aead_decrypt(key.as_slice(), &nonce, ciphertext)
}

/// Decrypts an envelope under a password with the default cost parameters.
pub fn decrypt_bytes(password: &str, encrypted_data: &[u8]) -> (r: Result<Vec<u8>, CryptorError>)
    ensures
        ({
            let opened = spec_open_envelope(encrypted_data@, encode_utf8(password@), 65536u32, 3u32);
            &&& (r matches Ok(p) ==> opened == Ok::<Seq<u8>, CryptorError>(p@))
            &&& (r matches Err(e) ==> opened == Err::<Seq<u8>, CryptorError>(e) || (e
                == CryptorError::Cryptography && encrypted_data@.len() >= 44))
            &&& (encrypted_data@.len() < 44 ==> (r matches Err(e) && e
                == CryptorError::InvalidFormat))
        }),
{
    let config = EncryptConfig::balanced();
    decrypt_bytes_with_config(password, encrypted_data, &config)
}

/// Encrypts a text under a password: the UTF-8 bytes go through
/// [`encrypt_bytes_with_config`] and the envelope is rendered as padded
/// standard base64.
pub fn encrypt_text_with_config(password: &str, plaintext: &str, config: &EncryptConfig) -> (r:
    Result<String, CryptorError>)
    ensures
        r matches Ok(s) ==> (b64_bytes(s@) matches Some(env) && env.len() == encode_utf8(
            plaintext@,
        ).len() + 60 && spec_open_envelope(
            env,
            encode_utf8(password@),
            config.memory_cost,
            config.time_cost,
        ) == Ok::<Seq<u8>, CryptorError>(encode_utf8(plaintext@))),
        r matches Ok(s) ==> is_ascii_chars(s@) && s@.len() == 4 * ((encode_utf8(plaintext@).len()
            + 62) / 3),
        r matches Err(e) ==> e == CryptorError::Cryptography,
{
    let envelope = match encrypt_bytes_with_config(password, plaintext.as_bytes(), config) {
        Ok(v) => v,
        Err(e) => {
            return Err(e);
        },
    };
    Ok(base64_encode(envelope.as_slice()))
}

/// Encrypts a text under a password with the default cost parameters.
pub fn encrypt_text(password: &str, plaintext: &str) -> (r: Result<String, CryptorError>)
    ensures
        r matches Ok(s) ==> (b64_bytes(s@) matches Some(env) && env.len() == encode_utf8(
            plaintext@,
        ).len() + 60 && spec_open_envelope(
            env,
            encode_utf8(password@),
            65536u32,
            3u32,
        ) == Ok::<Seq<u8>, CryptorError>(encode_utf8(plaintext@))),
        r matches Err(e) ==> e == CryptorError::Cryptography,
{
    let config = EncryptConfig::balanced();
    encrypt_text_with_config(password, plaintext, &config)
}

/// Decrypts a base64 envelope to the text it carries: the base64 is
/// decoded, the envelope opened, and the payload read back as UTF-8. Text
/// that is not base64, an envelope too short for its salt and nonce, and a
/// payload that is not UTF-8 are always format errors; only on a
/// well-framed envelope may a key-derivation failure surface as a
/// `Cryptography` error of its own.
pub fn decrypt_text_with_config(
    password: &str,
    encrypted_base64: &str,
    config: &EncryptConfig,
) -> (r: Result<String, CryptorError>)
    ensures
        r matches Ok(s) ==> (b64_bytes(encrypted_base64@) matches Some(env) && {
            let opened = spec_open_envelope(
                env,
                encode_utf8(password@),
                config.memory_cost,
                config.time_cost,
            );
            opened matches Ok(p) && valid_utf8(p) && s@ == decode_utf8(p)
        }),
        b64_bytes(encrypted_base64@) is None ==> (r matches Err(e) && e
            == CryptorError::InvalidFormat),
        (b64_bytes(encrypted_base64@) matches Some(env) && env.len() < 44) ==> (r matches Err(
            e,
        ) && e == CryptorError::InvalidFormat),
        r matches Err(e) ==> (match b64_bytes(encrypted_base64@) {
            None => e == CryptorError::InvalidFormat,
            Some(env) => {
                let opened = spec_open_envelope(
                    env,
                    encode_utf8(password@),
                    config.memory_cost,
                    config.time_cost,
                );
                opened == Err::<Seq<u8>, CryptorError>(e) || (opened matches Ok(p)
                    && !valid_utf8(p) && e == CryptorError::InvalidFormat) || (e
                    == CryptorError::Cryptography && env.len() >= 44)
            },
        }),
{
    let envelope = match base64_decode(encrypted_base64) {
        Some(v) => v,
        None => {
            return Err(CryptorError::InvalidFormat);
        },
    };
    let plain = match decrypt_bytes_with_config(password, envelope.as_slice(), config) {
        Ok(p) => p,
        Err(e) => {
            return Err(e);
        },
    };
    match string_from_utf8(plain) {
        Some(s) => Ok(s),
        None => Err(CryptorError::InvalidFormat),
    }
}

/// Decrypts a base64 envelope with the default cost parameters.
pub fn decrypt_text(password: &str, encrypted_base64: &str) -> (r: Result<String, CryptorError>)
    ensures
        r matches Ok(s) ==> (b64_bytes(encrypted_base64@) matches Some(env) && {
            let opened = spec_open_envelope(env, encode_utf8(password@), 65536u32, 3u32);
            opened matches Ok(p) && valid_utf8(p) && s@ == decode_utf8(p)
        }),
        b64_bytes(encrypted_base64@) is None ==> (r matches Err(e) && e
            == CryptorError::InvalidFormat),
        (b64_bytes(encrypted_base64@) matches Some(env) && env.len() < 44) ==> (r matches Err(
            e,
        ) && e == CryptorError::InvalidFormat),
        r matches Err(e) ==> (match b64_bytes(encrypted_base64@) {
            None => e == CryptorError::InvalidFormat,
            Some(env) => {
                let opened = spec_open_envelope(env, encode_utf8(password@), 65536u32, 3u32);
                opened == Err::<Seq<u8>, CryptorError>(e) || (opened matches Ok(p)
                    && !valid_utf8(p) && e == CryptorError::InvalidFormat) || (e
                    == CryptorError::Cryptography && env.len() >= 44)
            },
        }),
{
    let config = EncryptConfig::balanced();
    decrypt_text_with_config(password, encrypted_base64, &config)
}

} // verus!
