//! The streaming container: configuration, per-chunk nonce derivation, and
//! the variable-length stream header.
//!
//! On-disk layout of a stream (all integers little-endian):
//!
//! ```text
//! magic "SCRYPTv2" (8) | version 0x02 (1) | reserved header size (4)
//! | salt length (2) | salt | base nonce (12) | chunk size (4)
//! | total chunks (8) | original size (8) | metadata length (2) | metadata
//! | chunk records ...
//! ```
//!
//! Each chunk record is `index (8) | data size (4) | payload`.

use vstd::prelude::*;
use vstd::bytes::*;
use vstd::utf8::*;
use vstd::slice::*;

use crate::errors::CryptorError;
use crate::primitives::string_from_utf8;

verus! {

/// Default chunk size: 1 MiB.
pub const DEFAULT_CHUNK_SIZE: usize = 1048576;

/// Minimum chunk size: 4 KiB.
pub const MIN_CHUNK_SIZE: usize = 4096;

/// Maximum chunk size: 16 MiB.
pub const MAX_CHUNK_SIZE: usize = 16777216;

/// Length in bytes of an AEAD nonce.
pub const NONCE_LEN: usize = 12;

/// Version byte of the streaming container format.
pub const FORMAT_VERSION: u8 = 2;

/// The magic bytes `"SCRYPTv2"` that open every stream.
pub open spec fn spec_magic_v2() -> Seq<u8> {
    seq![0x53u8, 0x43u8, 0x52u8, 0x59u8, 0x50u8, 0x54u8, 0x76u8, 0x32u8]
}

/// Tunables for one streaming encode operation.
#[derive(Debug, Clone, Copy, PartialEq, Eq, Structural)]
pub struct StreamConfig {
    /// Bytes of plaintext per chunk.
    pub chunk_size: usize,
    /// Reserved flag for pre-encryption compression; this encoder does not
    /// apply it.
    pub compress: bool,
}

impl StreamConfig {
    /// The chunk size lies within the accepted bounds.
    pub open spec fn valid(self) -> bool {
        MIN_CHUNK_SIZE <= self.chunk_size <= MAX_CHUNK_SIZE
    }

    /// Creates a configuration with the given chunk size, rejecting one out
    /// of bounds.
    pub fn new(chunk_size: usize) -> (r: Result<Self, CryptorError>)
        ensures
            r matches Ok(c) ==> c == (StreamConfig { chunk_size, compress: false }),
            r is Ok <==> MIN_CHUNK_SIZE <= chunk_size <= MAX_CHUNK_SIZE,
            r matches Err(e) ==> e == CryptorError::Cryptography,
    {
        if chunk_size < MIN_CHUNK_SIZE || chunk_size > MAX_CHUNK_SIZE {
            return Err(CryptorError::Cryptography);
        }
        Ok(StreamConfig { chunk_size, compress: false })
    }

    /// Enables or disables compression.
    pub fn with_compression(self, compress: bool) -> (r: Self)
        ensures
            r == (StreamConfig { compress, ..self }),
    {
        StreamConfig { chunk_size: self.chunk_size, compress }
    }

    /// A configuration optimized for fast processing: 4 MiB chunks.
    pub fn fast() -> (r: Self)
        ensures
            r == (StreamConfig { chunk_size: 4194304usize, compress: false }),
    {
        StreamConfig { chunk_size: 4194304, compress: false }
    }

    /// A configuration optimized for a small memory footprint: 64 KiB
    /// compressed chunks.
    pub fn low_memory() -> (r: Self)
        ensures
            r == (StreamConfig { chunk_size: 65536usize, compress: true }),
    {
        StreamConfig { chunk_size: 65536, compress: true }
    }
}

impl Default for StreamConfig {
    /// The default configuration: 1 MiB chunks, no compression.
    fn default() -> (r: Self)
        ensures
            r == (StreamConfig { chunk_size: DEFAULT_CHUNK_SIZE, compress: false }),
    {
        StreamConfig { chunk_size: DEFAULT_CHUNK_SIZE, compress: false }
    }
}

/// The nonce of chunk `chunk_index`: the base nonce with the index, as eight
/// little-endian bytes, XORed into positions 4 through 11.
pub open spec fn spec_chunk_nonce(base: Seq<u8>, chunk_index: u64) -> Seq<u8>
    recommends
        base.len() == 12,
{
    Seq::new(
        12,
        |k: int|
            if k < 4 {
                base[k]
            } else {
                base[k] ^ spec_u64_to_le_bytes(chunk_index)[k - 4]
            },
    )
}

/// Derives the unique nonce of one chunk from the per-file base nonce and
/// the chunk's index.
pub fn derive_chunk_nonce(base_nonce: &[u8; NONCE_LEN], chunk_index: u64) -> (r: [u8; NONCE_LEN])
    ensures
        r@ == spec_chunk_nonce(base_nonce@, chunk_index),
{
    let mut nonce = *base_nonce;
    let counter_bytes = u64_to_le_bytes(chunk_index);
    for i in 0..8usize
        invariant
            counter_bytes@ == spec_u64_to_le_bytes(chunk_index),
            counter_bytes@.len() == 8,
            nonce@.len() == 12,
            forall|k: int|
                0 <= k < 12 ==> nonce@[k] == if 4 <= k < 4 + i {
                    base_nonce@[k] ^ spec_u64_to_le_bytes(chunk_index)[k - 4]
                } else {
                    base_nonce@[k]
                },
    {
        nonce[i + 4] = nonce[i + 4] ^ counter_bytes[i];
    }
    assert(nonce@ =~= spec_chunk_nonce(base_nonce@, chunk_index));
    nonce
}

/// Distinct chunk indices derive distinct nonces from the same base nonce,
/// so no nonce is reused within one file.
pub proof fn lemma_chunk_nonce_injective(base: Seq<u8>, i: u64, j: u64)
    requires
        base.len() == 12,
        i != j,
    ensures
        spec_chunk_nonce(base, i) != spec_chunk_nonce(base, j),
{
    let ni = spec_chunk_nonce(base, i);
    let nj = spec_chunk_nonce(base, j);
    if ni == nj {
        let bi = spec_u64_to_le_bytes(i);
        let bj = spec_u64_to_le_bytes(j);
        lemma_auto_spec_u64_to_from_le_bytes();
        assert forall|k: int| 0 <= k < 8 implies bi[k] == bj[k] by {
            assert(ni[k + 4] == nj[k + 4]);
            let x = base[k + 4];
            let a = bi[k];
            let b = bj[k];
            assert(x ^ a == x ^ b ==> a == b) by (bit_vector);
        }
        assert(bi =~= bj);
        assert(spec_u64_from_le_bytes(bi) == spec_u64_from_le_bytes(bj));
        assert(false);
    }
}

/// The ceiling of `n / c`.
pub open spec fn ceil_div(n: int, c: int) -> int
    recommends
        c > 0,
{
    (n + c - 1) / c
}

/// The metadata prefix of a stream, fully determined before the first chunk
/// is emitted and read-only afterwards.
#[derive(Debug, Clone)]
pub struct StreamHeader {
    /// Salt string consumed by the key derivation function.
    pub salt: String,
    /// Base nonce from which every chunk nonce is derived.
    pub base_nonce: [u8; NONCE_LEN],
    /// Bytes of plaintext per chunk.
    pub chunk_size: u32,
    /// Number of chunk records in the stream.
    pub total_chunks: u64,
    /// Plaintext length in bytes.
    pub original_size: u64,
    /// Optional UTF-8 metadata; `None` is written as an empty field.
    pub metadata: Option<String>,
}

/// The mathematical value of a [`StreamHeader`].
#[verifier::ext_equal]
pub struct StreamHeaderV {
    pub salt: Seq<char>,
    pub base_nonce: Seq<u8>,
    pub chunk_size: u32,
    pub total_chunks: u64,
    pub original_size: u64,
    pub metadata: Option<Seq<char>>,
}

impl View for StreamHeader {
    type V = StreamHeaderV;

    open spec fn view(&self) -> StreamHeaderV {
        StreamHeaderV {
            salt: self.salt@,
            base_nonce: self.base_nonce@,
            chunk_size: self.chunk_size,
            total_chunks: self.total_chunks,
            original_size: self.original_size,
            metadata: match self.metadata {
                Some(m) => Some(m@),
                None => None,
            },
        }
    }
}

/// The bytes of the metadata field: the UTF-8 encoding of the metadata
/// string, or empty when there is none.
pub open spec fn spec_metadata_bytes(h: StreamHeaderV) -> Seq<u8> {
    match h.metadata {
        Some(m) => encode_utf8(m),
        None => Seq::empty(),
    }
}

/// A header that the format can carry: the base nonce is 12 bytes, the salt
/// and metadata fit their 16-bit length prefixes, and metadata, when
/// present, is nonempty (an empty field reads back as absent).
pub open spec fn spec_header_wf(h: StreamHeaderV) -> bool {
    &&& h.base_nonce.len() == 12
    &&& encode_utf8(h.salt).len() <= 0xFFFF
    &&& spec_metadata_bytes(h).len() <= 0xFFFF
    &&& (h.metadata matches Some(m) ==> m.len() > 0)
}

/// The serialized header: magic, version, the reserved header-size word,
/// the length-prefixed salt, the base nonce, the geometry fields, and the
/// length-prefixed metadata.
pub open spec fn spec_stream_header_bytes(h: StreamHeaderV, header_size_field: u32) -> Seq<u8> {
    let salt_bytes = encode_utf8(h.salt);
    let meta_bytes = spec_metadata_bytes(h);
    spec_magic_v2() + seq![FORMAT_VERSION] + spec_u32_to_le_bytes(header_size_field)
        + spec_u16_to_le_bytes(salt_bytes.len() as u16) + salt_bytes + h.base_nonce
        + spec_u32_to_le_bytes(h.chunk_size) + spec_u64_to_le_bytes(h.total_chunks)
        + spec_u64_to_le_bytes(h.original_size) + spec_u16_to_le_bytes(meta_bytes.len() as u16)
        + meta_bytes
}

/// What parsing a stream header from the front of `b` yields: the header
/// and the count of bytes it occupied, or the error the decoder reports.
/// A short input is an `Io` error; wrong magic or version and malformed
/// UTF-8 are `InvalidFormat`.
pub open spec fn spec_parse_stream_header(b: Seq<u8>) -> Result<(StreamHeaderV, int), CryptorError> {
    if b.len() < 8 {
        Err(CryptorError::Io)
    } else if b.subrange(0, 8) != spec_magic_v2() {
        Err(CryptorError::InvalidFormat)
    } else if b.len() < 9 {
        Err(CryptorError::Io)
    } else if b[8] != FORMAT_VERSION {
        Err(CryptorError::InvalidFormat)
    } else if b.len() < 15 {
        Err(CryptorError::Io)
    } else {
        let salt_len = spec_u16_from_le_bytes(b.subrange(13, 15)) as int;
        if b.len() < 15 + salt_len {
            Err(CryptorError::Io)
        } else {
            let salt_bytes = b.subrange(15, 15 + salt_len);
            if !valid_utf8(salt_bytes) {
                Err(CryptorError::InvalidFormat)
            } else {
                let p = 15 + salt_len;
                if b.len() < p + 34 {
                    Err(CryptorError::Io)
                } else {
                    let meta_len = spec_u16_from_le_bytes(b.subrange(p + 32, p + 34)) as int;
                    if b.len() < p + 34 + meta_len {
                        Err(CryptorError::Io)
                    } else {
                        let meta_bytes = b.subrange(p + 34, p + 34 + meta_len);
                        if meta_len > 0 && !valid_utf8(meta_bytes) {
                            Err(CryptorError::InvalidFormat)
                        } else {
                            Ok(
                                (
                                    StreamHeaderV {
                                        salt: decode_utf8(salt_bytes),
                                        base_nonce: b.subrange(p, p + 12),
                                        chunk_size: spec_u32_from_le_bytes(
                                            b.subrange(p + 12, p + 16),
                                        ),
                                        total_chunks: spec_u64_from_le_bytes(
                                            b.subrange(p + 16, p + 24),
                                        ),
                                        original_size: spec_u64_from_le_bytes(
                                            b.subrange(p + 24, p + 32),
                                        ),
                                        metadata: if meta_len > 0 {
                                            Some(decode_utf8(meta_bytes))
                                        } else {
                                            None
                                        },
                                    },
                                    p + 34 + meta_len,
                                ),
                            )
                        }
                    }
                }
            }
        }
    }
}

/// A nonempty character sequence has a nonempty UTF-8 encoding.
proof fn lemma_encode_utf8_nonempty(m: Seq<char>)
    requires
        m.len() > 0,
    ensures
        encode_utf8(m).len() > 0,
{
    char_is_scalar(m[0]);
}

impl StreamHeader {
    /// The header fits the format: see [`spec_header_wf`].
    pub open spec fn wf(self) -> bool {
        spec_header_wf(self@)
    }

    /// How many chunks a plaintext of `file_size` bytes fills at
    /// `chunk_size` bytes per chunk: the ceiling of their quotient, and 0
    /// for an empty plaintext.
    pub fn calculate_chunks(file_size: u64, chunk_size: u32) -> (r: u64)
        requires
            chunk_size > 0,
        ensures
            r == ceil_div(file_size as int, chunk_size as int),
            file_size == 0 ==> r == 0,
    {
        let c = chunk_size as u64;
        if file_size == 0 {
            assert(ceil_div(0, c as int) == 0) by (nonlinear_arith)
                requires
                    c > 0,
            ;
            0
        } else {
            let r = (file_size - 1) / c + 1;
            assert((file_size - 1) / (c as int) + 1 == ceil_div(file_size as int, c as int))
                by (nonlinear_arith)
                requires
                    c > 0 && file_size > 0,
            ;
            r
        }
    }

    /// Appends the serialized header to `out`.
    pub fn write_to(&self, out: &mut Vec<u8>) -> (r: Result<(), CryptorError>)
        requires
            spec_header_wf(self@),
        ensures
            r is Ok,
            final(out)@ == old(out)@ + spec_stream_header_bytes(self@, 0),
    {
        proof {
            lemma_auto_spec_u16_to_from_le_bytes();
            lemma_auto_spec_u32_to_from_le_bytes();
            lemma_auto_spec_u64_to_from_le_bytes();
        }
        let ghost start = out@;

        // Magic bytes and version.
        out.push(0x53);
        out.push(0x43);
        out.push(0x52);
        out.push(0x59);
        out.push(0x50);
        out.push(0x54);
        out.push(0x76);
        out.push(0x32);
        out.push(FORMAT_VERSION);

        // Reserved header-size word, written as zero.
        let mut word = u32_to_le_bytes(0);
        out.append(&mut word);

        // Length-prefixed salt.
        let salt_bytes: &[u8] = self.salt.as_str().as_bytes();
        let mut len16 = u16_to_le_bytes(salt_bytes.len() as u16);
        out.append(&mut len16);
        out.extend_from_slice(salt_bytes);

        // Base nonce.
        out.extend_from_slice(self.base_nonce.as_slice());

        // Geometry.
        let mut cs = u32_to_le_bytes(self.chunk_size);
        out.append(&mut cs);
        let mut tc = u64_to_le_bytes(self.total_chunks);
        out.append(&mut tc);
        let mut os = u64_to_le_bytes(self.original_size);
        out.append(&mut os);

        // Length-prefixed metadata, an empty field when absent.
        match &self.metadata {
            Some(m) => {
                let meta_bytes: &[u8] = m.as_str().as_bytes();
                let mut mlen = u16_to_le_bytes(meta_bytes.len() as u16);
                out.append(&mut mlen);
                out.extend_from_slice(meta_bytes);
            },
            None => {
                let mut mlen = u16_to_le_bytes(0);
                out.append(&mut mlen);
            },
        }

        assert(out@ =~= start + spec_stream_header_bytes(self@, 0));
        Ok(())
    }

    /// Parses a header from the front of `bytes`, returning it with the
    /// count of bytes it occupied, exactly as [`spec_parse_stream_header`]
    /// describes.
    pub fn read_from(bytes: &[u8]) -> (r: Result<(StreamHeader, usize), CryptorError>)
        ensures
            match r {
                Ok((h, n)) => spec_parse_stream_header(bytes@) == Ok::<
                    (StreamHeaderV, int),
                    CryptorError,
                >((h@, n as int)),
                Err(e) => spec_parse_stream_header(bytes@) == Err::<
                    (StreamHeaderV, int),
                    CryptorError,
                >(e),
            },
    {
        proof {
            lemma_auto_spec_u16_to_from_le_bytes();
            lemma_auto_spec_u32_to_from_le_bytes();
            lemma_auto_spec_u64_to_from_le_bytes();
        }
        if bytes.len() < 8 {
            return Err(CryptorError::Io);
        }
        let magic_ok = bytes[0] == 0x53 && bytes[1] == 0x43 && bytes[2] == 0x52 && bytes[3] == 0x59
            && bytes[4] == 0x50 && bytes[5] == 0x54 && bytes[6] == 0x76 && bytes[7] == 0x32;
        if !magic_ok {
            proof {
                if bytes@.subrange(0, 8) == spec_magic_v2() {
                    assert(forall|k: int| 0 <= k < 8 ==> bytes@[k] == spec_magic_v2()[k]) by {
                        assert(forall|k: int|
                            0 <= k < 8 ==> bytes@.subrange(0, 8)[k] == bytes@[k]);
                    }
                    assert(false);
                }
            }
            return Err(CryptorError::InvalidFormat);
        }
        assert(bytes@.subrange(0, 8) =~= spec_magic_v2());
        if bytes.len() < 9 {
            return Err(CryptorError::Io);
        }
        if bytes[8] != FORMAT_VERSION {
            return Err(CryptorError::InvalidFormat);
        }
        if bytes.len() < 15 {
            return Err(CryptorError::Io);
        }

        // Salt.
        let salt_len = u16_from_le_bytes(slice_subrange(bytes, 13, 15)) as usize;
        if bytes.len() - 15 < salt_len {
            return Err(CryptorError::Io);
        }
        let salt_vec = slice_to_vec(slice_subrange(bytes, 15, 15 + salt_len));
        let salt = match string_from_utf8(salt_vec) {
            Some(s) => s,
            None => {
                return Err(CryptorError::InvalidFormat);
            },
        };
        let p = 15 + salt_len;
        if bytes.len() - p < 34 {
            return Err(CryptorError::Io);
        }

        // Base nonce.
        let mut base_nonce = [0u8; NONCE_LEN];
        for k in 0..NONCE_LEN
            invariant
                p + 34 <= bytes@.len() <= usize::MAX,
                forall|t: int| 0 <= t < k ==> base_nonce@[t] == bytes@[p + t],
                base_nonce@.len() == 12,
        {
            base_nonce[k] = bytes[p + k];
        }
        assert(base_nonce@ =~= bytes@.subrange(p as int, p + 12));

        // Geometry.
        let chunk_size = u32_from_le_bytes(slice_subrange(bytes, p + 12, p + 16));
        let total_chunks = u64_from_le_bytes(slice_subrange(bytes, p + 16, p + 24));
        let original_size = u64_from_le_bytes(slice_subrange(bytes, p + 24, p + 32));

        // Metadata.
        let meta_len = u16_from_le_bytes(slice_subrange(bytes, p + 32, p + 34)) as usize;
        if bytes.len() - (p + 34) < meta_len {
            return Err(CryptorError::Io);
        }
        let metadata = if meta_len > 0 {
            let meta_vec = slice_to_vec(slice_subrange(bytes, p + 34, p + 34 + meta_len));
            match string_from_utf8(meta_vec) {
                Some(m) => Some(m),
                None => {
                    return Err(CryptorError::InvalidFormat);
                },
            }
        } else {
            None
        };

        let header = StreamHeader {
            salt,
            base_nonce,
            chunk_size,
            total_chunks,
            original_size,
            metadata,
        };
        let n = p + 34 + meta_len;
        proof {
            let parsed = spec_parse_stream_header(bytes@);
            assert(parsed matches Ok((hv, m)) && hv =~= header@ && m == n as int);
        }
        Ok((header, n))
    }
}

/// A serialized well-formed header parses back to the same header, whatever
/// the reserved header-size word holds and whatever bytes follow it.
pub proof fn lemma_stream_header_round_trip(h: StreamHeaderV, header_size_field: u32, rest: Seq<u8>)
    requires
        spec_header_wf(h),
    ensures
        ({
            let hb = spec_stream_header_bytes(h, header_size_field);
            spec_parse_stream_header(hb + rest) == Ok::<(StreamHeaderV, int), CryptorError>(
                (h, hb.len() as int),
            )
        }),
{
    lemma_auto_spec_u16_to_from_le_bytes();
    lemma_auto_spec_u32_to_from_le_bytes();
    lemma_auto_spec_u64_to_from_le_bytes();
    broadcast use encode_utf8_valid_utf8, encode_utf8_decode_utf8;

    let salt_bytes = encode_utf8(h.salt);
    let meta_bytes = spec_metadata_bytes(h);
    let hb = spec_stream_header_bytes(h, header_size_field);
    let b = hb + rest;
    let sl = salt_bytes.len() as int;
    let p = 15 + sl;

    assert(hb.len() == 49 + sl + meta_bytes.len());
    assert(b.subrange(0, 8) =~= spec_magic_v2());
    assert(b[8] == FORMAT_VERSION);
    assert(b.subrange(13, 15) =~= spec_u16_to_le_bytes(salt_bytes.len() as u16));
    assert(spec_u16_from_le_bytes(b.subrange(13, 15)) == sl);
    assert(b.subrange(15, 15 + sl) =~= salt_bytes);
    assert(b.subrange(p, p + 12) =~= h.base_nonce);
    assert(b.subrange(p + 12, p + 16) =~= spec_u32_to_le_bytes(h.chunk_size));
    assert(b.subrange(p + 16, p + 24) =~= spec_u64_to_le_bytes(h.total_chunks));
    assert(b.subrange(p + 24, p + 32) =~= spec_u64_to_le_bytes(h.original_size));
    assert(b.subrange(p + 32, p + 34) =~= spec_u16_to_le_bytes(meta_bytes.len() as u16));
    assert(spec_u16_from_le_bytes(b.subrange(p + 32, p + 34)) == meta_bytes.len());
    assert(b.subrange(p + 34, p + 34 + meta_bytes.len()) =~= meta_bytes);

    match h.metadata {
        Some(m) => {
            lemma_encode_utf8_nonempty(m);
        },
        None => {
        },
    }
    let parsed = spec_parse_stream_header(b);
    assert(parsed matches Ok((hv, n)) && hv =~= h && n == hb.len());
}

/// Nonce derivation is deterministic: any two nonces derived from the same
/// base nonce and the same index — as the `ensures` of
/// [`derive_chunk_nonce`] describes every result — are equal.
pub proof fn lemma_chunk_nonce_deterministic(base: Seq<u8>, i: u64, n1: Seq<u8>, n2: Seq<u8>)
    requires
        n1 == spec_chunk_nonce(base, i),
        n2 == spec_chunk_nonce(base, i),
    ensures
        n1 == n2,
{
}

} // verus!
