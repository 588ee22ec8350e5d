use cryptor::volume::{CipherAlgorithm, HeaderError, VolumeHeader, HEADER_SIZE};

#[test]
fn test_header_creation() {
    let salt = [1u8; 32];
    let iv = [2u8; 12];
    let header = VolumeHeader::new(1024 * 1024 * 1024, 4096, salt, iv);

    let bytes = header.to_bytes().unwrap();
    assert_eq!(&bytes[0..8], &[0x53, 0x45, 0x43, 0x56, 0x4F, 0x4C, 0x30, 0x31]);
    assert_eq!(&bytes[8..12], &1u32.to_le_bytes());
    assert_eq!(header.cipher(), CipherAlgorithm::Aes256Gcm);
    assert_eq!(header.salt(), &salt);
    assert_eq!(header.header_iv(), &iv);
    assert_eq!(header.volume_size(), 1024 * 1024 * 1024);
    assert_eq!(header.sector_size(), 4096);
}

#[test]
fn test_header_serialization() {
    let salt = [1u8; 32];
    let iv = [2u8; 12];
    let header = VolumeHeader::new(1024 * 1024 * 1024, 4096, salt, iv);

    let bytes = header.to_bytes().unwrap();
    assert_eq!(bytes.len(), HEADER_SIZE);

    let deserialized = VolumeHeader::from_bytes(&bytes).unwrap();
    assert_eq!(deserialized.salt(), header.salt());
    assert_eq!(deserialized.header_iv(), header.header_iv());
    assert_eq!(deserialized.volume_size(), header.volume_size());
    assert_eq!(deserialized.sector_size(), header.sector_size());
}

#[test]
fn test_header_timestamps_roundtrip() {
    let header = VolumeHeader::new(4096, 512, [9u8; 32], [8u8; 12]);
    let bytes = header.to_bytes().unwrap();
    let read = VolumeHeader::from_bytes(&bytes).unwrap();
    assert_eq!(read.created_at(), header.created_at());
    assert_eq!(read.modified_at(), header.modified_at());
    assert_eq!(read.created_at(), read.modified_at());
}

#[test]
fn test_header_write_read() {
    let salt = [3u8; 32];
    let iv = [4u8; 12];
    let header = VolumeHeader::new(2 * 1024 * 1024 * 1024, 512, salt, iv);

    let mut buffer = Vec::new();
    header.write_to(&mut buffer).unwrap();

    let read_header = VolumeHeader::read_from(&buffer).unwrap();

    assert_eq!(read_header.salt(), &salt);
    assert_eq!(read_header.header_iv(), &iv);
    assert_eq!(read_header.volume_size(), 2 * 1024 * 1024 * 1024);
    assert_eq!(read_header.sector_size(), 512);
}

#[test]
fn test_invalid_magic() {
    let mut bytes = vec![0u8; HEADER_SIZE];
    bytes[0..8].copy_from_slice(b"INVALID!");

    let result = VolumeHeader::from_bytes(&bytes);
    assert!(matches!(result, Err(HeaderError::InvalidMagic)));
}

#[test]
fn test_unsupported_version() {
    let header = VolumeHeader::new(4096, 512, [0u8; 32], [0u8; 12]);
    let mut bytes = header.to_bytes().unwrap();
    bytes[8] = 2;
    let result = VolumeHeader::from_bytes(&bytes);
    assert!(matches!(result, Err(HeaderError::UnsupportedVersion(2))));
}

#[test]
fn test_unsupported_cipher() {
    let header = VolumeHeader::new(4096, 512, [0u8; 32], [0u8; 12]);
    let mut bytes = header.to_bytes().unwrap();
    bytes[12] = 0;
    let result = VolumeHeader::from_bytes(&bytes);
    assert!(matches!(result, Err(HeaderError::UnsupportedCipher(0))));
}

#[test]
fn test_size_mismatch() {
    let bytes = vec![0u8; HEADER_SIZE - 1];
    let result = VolumeHeader::from_bytes(&bytes);
    assert!(matches!(
        result,
        Err(HeaderError::SizeMismatch { expected: HEADER_SIZE, actual }) if actual == HEADER_SIZE - 1
    ));
}

#[test]
fn test_touch_preserves_created_at() {
    let salt = [1u8; 32];
    let iv = [2u8; 12];
    let mut header = VolumeHeader::new(1024, 512, salt, iv);

    let original_created = header.created_at();
    let original_modified = header.modified_at();
    header.touch();

    assert!(header.modified_at() >= original_modified);
    assert_eq!(header.created_at(), original_created);
}

#[test]
fn test_new_at_sets_both_timestamps() {
    let header = VolumeHeader::new_at(4096, 512, [1u8; 32], [2u8; 12], 123456789);
    assert_eq!(header.created_at(), 123456789);
    assert_eq!(header.modified_at(), 123456789);
}

#[test]
fn test_touch_at_strictly_increases() {
    let mut header = VolumeHeader::new_at(4096, 512, [1u8; 32], [2u8; 12], 1000);
    let later = header.modified_at() + 1;
    header.touch_at(later);
    assert!(header.modified_at() > 1000);
    assert_eq!(header.modified_at(), 1001);
    assert_eq!(header.created_at(), 1000);
}

#[test]
fn test_reserved_bytes_preserved() {
    let header = VolumeHeader::new(4096, 512, [5u8; 32], [6u8; 12]);
    let mut bytes = header.to_bytes().unwrap();
    // The reserved area spans bytes 85 through 340; the reader preserves it.
    bytes[85] = 0xAB;
    bytes[340] = 0xCD;
    let read = VolumeHeader::from_bytes(&bytes).unwrap();
    let again = read.to_bytes().unwrap();
    assert_eq!(again[85], 0xAB);
    assert_eq!(again[340], 0xCD);
}
