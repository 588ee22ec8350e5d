use cryptor::streaming::{derive_chunk_nonce, StreamConfig, StreamHeader};
use cryptor::streaming::{DEFAULT_CHUNK_SIZE, MAX_CHUNK_SIZE, MIN_CHUNK_SIZE, NONCE_LEN};

#[test]
fn test_stream_config_validation() {
    assert!(StreamConfig::new(1024).is_err()); // Too small
    assert!(StreamConfig::new(MIN_CHUNK_SIZE).is_ok());
    assert!(StreamConfig::new(DEFAULT_CHUNK_SIZE).is_ok());
    assert!(StreamConfig::new(MAX_CHUNK_SIZE).is_ok());
    assert!(StreamConfig::new(20 * 1024 * 1024).is_err()); // Too large
}

#[test]
fn test_stream_config_boundaries() {
    assert!(StreamConfig::new(4096).is_ok());
    assert!(StreamConfig::new(4095).is_err());
    assert!(StreamConfig::new(16 * 1024 * 1024).is_ok());
    assert!(StreamConfig::new(16 * 1024 * 1024 + 1).is_err());
}

#[test]
fn test_derive_chunk_nonce_uniqueness() {
    let base_nonce = [1u8; NONCE_LEN];

    let nonce0 = derive_chunk_nonce(&base_nonce, 0);
    let nonce1 = derive_chunk_nonce(&base_nonce, 1);
    let nonce2 = derive_chunk_nonce(&base_nonce, 2);

    assert_ne!(nonce0, nonce1);
    assert_ne!(nonce1, nonce2);
    assert_ne!(nonce0, nonce2);
}

#[test]
fn test_derive_chunk_nonce_deterministic() {
    let base_nonce = [42u8; NONCE_LEN];

    let nonce1_a = derive_chunk_nonce(&base_nonce, 100);
    let nonce1_b = derive_chunk_nonce(&base_nonce, 100);

    assert_eq!(nonce1_a, nonce1_b);
}

#[test]
fn test_derive_chunk_nonce_keeps_prefix() {
    let base_nonce = [7u8; NONCE_LEN];
    let nonce = derive_chunk_nonce(&base_nonce, 0x0102030405060708);
    // The first four bytes are the base nonce's own prefix.
    assert_eq!(&nonce[0..4], &base_nonce[0..4]);
    // The counter is XORed little-endian into positions 4 through 11.
    assert_eq!(nonce[4], 7 ^ 0x08);
    assert_eq!(nonce[11], 7 ^ 0x01);
}

#[test]
fn test_calculate_chunks() {
    assert_eq!(StreamHeader::calculate_chunks(0, 1024), 0);
    assert_eq!(StreamHeader::calculate_chunks(1024, 1024), 1);
    assert_eq!(StreamHeader::calculate_chunks(1025, 1024), 2);
    assert_eq!(StreamHeader::calculate_chunks(2048, 1024), 2);
    assert_eq!(StreamHeader::calculate_chunks(2049, 1024), 3);
}

#[test]
fn test_stream_header_roundtrip() {
    let header = StreamHeader {
        salt: "test_salt_string".to_string(),
        base_nonce: [42u8; NONCE_LEN],
        chunk_size: 1024 * 1024,
        total_chunks: 100,
        original_size: 100 * 1024 * 1024,
        metadata: Some("{\"compressed\":true}".to_string()),
    };

    let mut buffer = Vec::new();
    header.write_to(&mut buffer).unwrap();

    let (decoded, consumed) = StreamHeader::read_from(&buffer).unwrap();

    assert_eq!(consumed, buffer.len());
    assert_eq!(header.salt, decoded.salt);
    assert_eq!(header.base_nonce, decoded.base_nonce);
    assert_eq!(header.chunk_size, decoded.chunk_size);
    assert_eq!(header.total_chunks, decoded.total_chunks);
    assert_eq!(header.original_size, decoded.original_size);
    assert_eq!(header.metadata, decoded.metadata);
}

#[test]
fn test_stream_header_rejects_bad_magic() {
    let header = StreamHeader {
        salt: "s".to_string(),
        base_nonce: [0u8; NONCE_LEN],
        chunk_size: 4096,
        total_chunks: 0,
        original_size: 0,
        metadata: None,
    };
    let mut buffer = Vec::new();
    header.write_to(&mut buffer).unwrap();
    buffer[0] ^= 0x01;
    assert!(StreamHeader::read_from(&buffer).is_err());
}

#[test]
fn test_stream_header_rejects_bad_version() {
    let header = StreamHeader {
        salt: "s".to_string(),
        base_nonce: [0u8; NONCE_LEN],
        chunk_size: 4096,
        total_chunks: 0,
        original_size: 0,
        metadata: None,
    };
    let mut buffer = Vec::new();
    header.write_to(&mut buffer).unwrap();
    buffer[8] = 0x03;
    assert!(StreamHeader::read_from(&buffer).is_err());
}

#[test]
fn test_stream_header_rejects_invalid_utf8_salt() {
    let header = StreamHeader {
        salt: "abcd".to_string(),
        base_nonce: [0u8; NONCE_LEN],
        chunk_size: 4096,
        total_chunks: 0,
        original_size: 0,
        metadata: None,
    };
    let mut buffer = Vec::new();
    header.write_to(&mut buffer).unwrap();
    // The salt starts after the 15-byte fixed prefix; 0xFF is never UTF-8.
    buffer[15] = 0xFF;
    assert!(StreamHeader::read_from(&buffer).is_err());
}

#[test]
fn test_config_presets() {
    let fast = StreamConfig::fast();
    assert_eq!(fast.chunk_size, 4 * 1024 * 1024);
    assert!(!fast.compress);

    let low_mem = StreamConfig::low_memory();
    assert_eq!(low_mem.chunk_size, 64 * 1024);
    assert!(low_mem.compress);
}

#[test]
fn test_config_default_and_compression() {
    let config = StreamConfig::default();
    assert_eq!(config.chunk_size, DEFAULT_CHUNK_SIZE);
    assert!(!config.compress);
    let compressed = config.with_compression(true);
    assert!(compressed.compress);
    assert_eq!(compressed.chunk_size, DEFAULT_CHUNK_SIZE);
}
