use cryptor::envelope::{
    decrypt_bytes_with_config, decrypt_text_with_config, encrypt_bytes_with_config,
    encrypt_text_with_config, EncryptConfig,
};
use cryptor::errors::CryptorError;

#[test]
fn test_encrypt_decrypt_text() {
    let config = EncryptConfig::fast();
    let password = "test-password";
    let plaintext = "Hello, World!";

    let encrypted = encrypt_text_with_config(password, plaintext, &config).unwrap();
    let decrypted = decrypt_text_with_config(password, &encrypted, &config).unwrap();

    assert_eq!(plaintext, decrypted);
}

#[test]
fn test_encrypt_decrypt_bytes() {
    let config = EncryptConfig::fast();
    let password = "test-password";
    let data = b"Binary data test";

    let encrypted = encrypt_bytes_with_config(password, data, &config).unwrap();
    let decrypted = decrypt_bytes_with_config(password, &encrypted, &config).unwrap();

    assert_eq!(data.as_slice(), decrypted.as_slice());
}

#[test]
fn test_envelope_layout() {
    let config = EncryptConfig::fast();
    let data = b"xyz";
    let encrypted = encrypt_bytes_with_config("pw", data, &config).unwrap();
    // salt (32) || nonce (12) || ciphertext+tag (len + 16)
    assert_eq!(encrypted.len(), 32 + 12 + data.len() + 16);
    // The ciphertext is not the plaintext.
    assert_ne!(&encrypted[44..44 + data.len()], data.as_slice());
}

#[test]
fn test_envelope_wrong_password() {
    let config = EncryptConfig::fast();
    let encrypted = encrypt_bytes_with_config("alpha", b"data", &config).unwrap();
    let result = decrypt_bytes_with_config("beta", &encrypted, &config);
    assert!(matches!(result, Err(CryptorError::Cryptography)));
}

#[test]
fn test_envelope_too_short() {
    let config = EncryptConfig::fast();
    let result = decrypt_bytes_with_config("pw", &[0u8; 43], &config);
    assert!(matches!(result, Err(CryptorError::InvalidFormat)));
}

#[test]
fn test_envelope_tampered_ciphertext() {
    let config = EncryptConfig::fast();
    let mut encrypted = encrypt_bytes_with_config("pw", b"data", &config).unwrap();
    let last = encrypted.len() - 1;
    encrypted[last] ^= 0x80;
    let result = decrypt_bytes_with_config("pw", &encrypted, &config);
    assert!(matches!(result, Err(CryptorError::Cryptography)));
}

#[test]
fn test_text_not_base64() {
    let config = EncryptConfig::fast();
    let result = decrypt_text_with_config("pw", "not base64!!!", &config);
    assert!(matches!(result, Err(CryptorError::InvalidFormat)));
}

#[test]
fn test_encrypt_config_presets() {
    let fast = EncryptConfig::fast();
    assert_eq!(fast.memory_cost, 8192);
    assert_eq!(fast.time_cost, 1);

    let balanced = EncryptConfig::balanced();
    assert_eq!(balanced.memory_cost, 65536);
    assert_eq!(balanced.time_cost, 3);

    let secure = EncryptConfig::secure();
    assert_eq!(secure.memory_cost, 131072);
    assert_eq!(secure.time_cost, 5);

    assert_eq!(EncryptConfig::new(), EncryptConfig::balanced());
    assert_eq!(EncryptConfig::default(), EncryptConfig::balanced());
}
