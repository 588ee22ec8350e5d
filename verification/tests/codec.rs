use cryptor::codec::{decode_stream, encode_stream};
use cryptor::envelope::EncryptConfig;
use cryptor::errors::CryptorError;
use cryptor::streaming::{StreamConfig, StreamHeader};

fn fast_kdf() -> EncryptConfig {
    EncryptConfig::fast()
}

fn roundtrip_config() -> StreamConfig {
    StreamConfig::new(4096).unwrap()
}

#[test]
fn test_empty_stream_roundtrip() {
    let kdf = fast_kdf();
    let config = roundtrip_config();
    let stream = encode_stream(b"", b"p", &config, &kdf, &None).unwrap();

    let (header, consumed) = StreamHeader::read_from(&stream).unwrap();
    assert_eq!(header.total_chunks, 0);
    assert_eq!(header.original_size, 0);
    assert_eq!(consumed, stream.len());

    let decoded = decode_stream(&stream, b"p", &kdf).unwrap();
    assert_eq!(decoded, b"");
}

#[test]
fn test_single_full_chunk() {
    let kdf = fast_kdf();
    let config = roundtrip_config();
    let plaintext = vec![0xAAu8; 4096];
    let stream = encode_stream(&plaintext, b"pw", &config, &kdf, &None).unwrap();

    let (header, consumed) = StreamHeader::read_from(&stream).unwrap();
    assert_eq!(header.total_chunks, 1);
    assert_eq!(header.original_size, 4096);

    // One record: index (8), data size (4), payload (4096 + 16-byte tag).
    let ds = u32::from_le_bytes(stream[consumed + 8..consumed + 12].try_into().unwrap());
    assert_eq!(ds as usize, 4096 + 16);
    assert_eq!(stream.len(), consumed + 12 + 4096 + 16);

    let decoded = decode_stream(&stream, b"pw", &kdf).unwrap();
    assert_eq!(decoded, plaintext);
}

#[test]
fn test_one_byte_overflow_into_second_chunk() {
    let kdf = fast_kdf();
    let config = roundtrip_config();
    let mut plaintext = vec![0x5Au8; 4097];
    plaintext[4096] = 0x77;
    let stream = encode_stream(&plaintext, b"pw", &config, &kdf, &None).unwrap();

    let (header, consumed) = StreamHeader::read_from(&stream).unwrap();
    assert_eq!(header.total_chunks, 2);
    assert_eq!(header.original_size, 4097);

    // Chunk 0 carries 4096 bytes, chunk 1 carries the one overflow byte.
    let ds0 = u32::from_le_bytes(stream[consumed + 8..consumed + 12].try_into().unwrap());
    assert_eq!(ds0 as usize, 4096 + 16);
    let rec1 = consumed + 12 + ds0 as usize;
    let ds1 = u32::from_le_bytes(stream[rec1 + 8..rec1 + 12].try_into().unwrap());
    assert_eq!(ds1 as usize, 1 + 16);

    let decoded = decode_stream(&stream, b"pw", &kdf).unwrap();
    assert_eq!(decoded, plaintext);
}

#[test]
fn test_multi_chunk_roundtrip_with_metadata() {
    let kdf = fast_kdf();
    let config = roundtrip_config();
    let plaintext: Vec<u8> = (0..10000u32).map(|i| (i % 251) as u8).collect();
    let metadata = Some("{\"compressed\":false}".to_string());
    let stream = encode_stream(&plaintext, b"secret", &config, &kdf, &metadata).unwrap();

    let (header, _) = StreamHeader::read_from(&stream).unwrap();
    assert_eq!(header.total_chunks, 3);
    assert_eq!(header.metadata, metadata);

    let decoded = decode_stream(&stream, b"secret", &kdf).unwrap();
    assert_eq!(decoded, plaintext);
}

#[test]
fn test_wrong_password_rejected() {
    let kdf = fast_kdf();
    let config = roundtrip_config();
    let stream = encode_stream(b"top secret", b"alpha", &config, &kdf, &None).unwrap();
    let result = decode_stream(&stream, b"beta", &kdf);
    assert!(matches!(result, Err(CryptorError::Cryptography)));
}

#[test]
fn test_invalid_chunk_size_rejected() {
    let kdf = fast_kdf();
    let config = StreamConfig { chunk_size: 1024, compress: false };
    let result = encode_stream(b"data", b"pw", &config, &kdf, &None);
    assert!(matches!(result, Err(CryptorError::Cryptography)));
}

#[test]
fn test_truncated_stream_fails() {
    let kdf = fast_kdf();
    let config = roundtrip_config();
    let plaintext = vec![0x11u8; 5000];
    let stream = encode_stream(&plaintext, b"pw", &config, &kdf, &None).unwrap();
    let (_, consumed) = StreamHeader::read_from(&stream).unwrap();

    // One byte short anywhere after the header: always an error.
    assert!(decode_stream(&stream[..stream.len() - 1], b"pw", &kdf).is_err());
    assert!(decode_stream(&stream[..consumed], b"pw", &kdf).is_err());
    assert!(decode_stream(&stream[..consumed + 5], b"pw", &kdf).is_err());
    assert!(decode_stream(&stream[..consumed + 12 + 100], b"pw", &kdf).is_err());
}

#[test]
fn test_trailing_bytes_fail() {
    let kdf = fast_kdf();
    let config = roundtrip_config();
    let mut stream = encode_stream(b"payload", b"pw", &config, &kdf, &None).unwrap();
    stream.push(0);
    let result = decode_stream(&stream, b"pw", &kdf);
    assert!(matches!(result, Err(CryptorError::InvalidFormat)));
}

#[test]
fn test_swapped_chunk_records_fail() {
    let kdf = fast_kdf();
    let config = roundtrip_config();
    let plaintext = vec![0x33u8; 8192]; // exactly two full chunks
    let stream = encode_stream(&plaintext, b"pw", &config, &kdf, &None).unwrap();
    let (_, consumed) = StreamHeader::read_from(&stream).unwrap();

    let record_len = 12 + 4096 + 16;
    assert_eq!(stream.len(), consumed + 2 * record_len);
    let mut swapped = stream[..consumed].to_vec();
    swapped.extend_from_slice(&stream[consumed + record_len..]);
    swapped.extend_from_slice(&stream[consumed..consumed + record_len]);
    assert_eq!(swapped.len(), stream.len());

    let result = decode_stream(&swapped, b"pw", &kdf);
    assert!(matches!(result, Err(CryptorError::InvalidFormat)));
}

#[test]
fn test_bit_flips_fail() {
    let kdf = fast_kdf();
    let config = roundtrip_config();
    let plaintext = vec![0x42u8; 1000];
    let stream = encode_stream(&plaintext, b"pw", &config, &kdf, &None).unwrap();
    let (_, consumed) = StreamHeader::read_from(&stream).unwrap();

    // Magic, version, salt, base nonce, chunk index, and payload: flipping
    // one bit in any of them makes the decode fail.
    for &pos in &[0usize, 8, 16, 20, consumed, consumed + 12, stream.len() - 1] {
        let mut tampered = stream.clone();
        tampered[pos] ^= 0x01;
        assert!(
            decode_stream(&tampered, b"pw", &kdf).is_err(),
            "flip at {} not detected",
            pos
        );
    }
}

#[test]
fn test_mismatched_kdf_parameters_rejected() {
    let config = roundtrip_config();
    let stream = encode_stream(b"data", b"pw", &config, &fast_kdf(), &None).unwrap();
    let other = EncryptConfig { use_argon2: true, memory_cost: 16384, time_cost: 1 };
    assert!(matches!(
        decode_stream(&stream, b"pw", &other),
        Err(CryptorError::Cryptography)
    ));
}
