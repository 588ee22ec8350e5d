//! The fixed-size volume header: a 4096-byte record at offset 0 of an
//! encrypted block volume, carrying the magic, version, cipher selector,
//! key-derivation salt, header IV, geometry, timestamps and a reserved
//! area, zero-padded to exactly 4096 bytes.
//!
//! On-disk layout (little-endian): magic `"SECVOL01"` (8) | version (4)
//! | cipher (1) | salt (32) | header IV (12) | volume size (8)
//! | sector size (4) | created at (8) | modified at (8) | reserved (256)
//! | zero padding to 4096.

use vstd::prelude::*;
use vstd::bytes::*;
use vstd::slice::*;
use vstd::array::*;

use crate::primitives::unix_now;

verus! {

/// Size of the serialized volume header in bytes.
pub const HEADER_SIZE: usize = 4096;

/// Current volume format version.
pub const VOLUME_VERSION: u32 = 1;

/// The magic bytes `"SECVOL01"` that open every volume.
pub open spec fn spec_magic_vol() -> Seq<u8> {
    seq![0x53u8, 0x45u8, 0x43u8, 0x56u8, 0x4Fu8, 0x4Cu8, 0x30u8, 0x31u8]
}

/// The AEAD a volume is encrypted with. Exactly one algorithm is defined;
/// the on-disk selector is read strictly, and unknown values reject the
/// header.
#[derive(Debug, Clone, Copy, PartialEq, Eq, Structural)]
pub enum CipherAlgorithm {
    /// AES-256-GCM, selector byte 1.
    Aes256Gcm,
}

impl CipherAlgorithm {
    /// The selector byte the header stores for this algorithm.
    pub open spec fn spec_code(self) -> u8 {
        match self {
            CipherAlgorithm::Aes256Gcm => 1,
        }
    }

    /// The selector byte the header stores for this algorithm.
    pub fn code(&self) -> (r: u8)
        ensures
            r == self.spec_code(),
    {
        match self {
            CipherAlgorithm::Aes256Gcm => 1,
        }
    }
}

/// What can go wrong reading or writing a volume header.
#[derive(Debug, Clone, Copy, PartialEq, Eq, Structural)]
pub enum HeaderError {
    /// The magic bytes are not `"SECVOL01"`: not a volume header.
    InvalidMagic,
    /// The header's version is outside the supported set.
    UnsupportedVersion(u32),
    /// The header's cipher selector names no known algorithm.
    UnsupportedCipher(u8),
    /// The input is not the exact serialized header size.
    SizeMismatch { expected: usize, actual: usize },
}

/// The volume header.
pub struct VolumeHeader {
    magic: [u8; 8],
    version: u32,
    cipher: CipherAlgorithm,
    salt: [u8; 32],
    header_iv: [u8; 12],
    volume_size: u64,
    sector_size: u32,
    created_at: u64,
    modified_at: u64,
    reserved: [u8; 256],
}

/// The mathematical value of a [`VolumeHeader`].
#[verifier::ext_equal]
pub struct VolumeHeaderV {
    pub magic: Seq<u8>,
    pub version: u32,
    pub cipher: CipherAlgorithm,
    pub salt: Seq<u8>,
    pub header_iv: Seq<u8>,
    pub volume_size: u64,
    pub sector_size: u32,
    pub created_at: u64,
    pub modified_at: u64,
    pub reserved: Seq<u8>,
}

impl VolumeHeaderV {
    /// The fields every supported header carries: the fixed magic, the
    /// supported version, and the fixed field widths.
    pub open spec fn wf(self) -> bool {
        &&& self.magic == spec_magic_vol()
        &&& self.version == VOLUME_VERSION
        &&& self.salt.len() == 32
        &&& self.header_iv.len() == 12
        &&& self.reserved.len() == 256
    }
}

impl View for VolumeHeader {
    type V = VolumeHeaderV;

    closed spec fn view(&self) -> VolumeHeaderV {
        VolumeHeaderV {
            magic: self.magic@,
            version: self.version,
            cipher: self.cipher,
            salt: self.salt@,
            header_iv: self.header_iv@,
            volume_size: self.volume_size,
            sector_size: self.sector_size,
            created_at: self.created_at,
            modified_at: self.modified_at,
            reserved: self.reserved@,
        }
    }
}

/// The serialized header: every field in layout order, zero-padded to
/// exactly [`HEADER_SIZE`] bytes.
pub open spec fn spec_volume_header_bytes(h: VolumeHeaderV) -> Seq<u8> {
    let prefix = h.magic + spec_u32_to_le_bytes(h.version) + seq![h.cipher.spec_code()] + h.salt
        + h.header_iv + spec_u64_to_le_bytes(h.volume_size) + spec_u32_to_le_bytes(h.sector_size)
        + spec_u64_to_le_bytes(h.created_at) + spec_u64_to_le_bytes(h.modified_at) + h.reserved;
    prefix + Seq::new((HEADER_SIZE - prefix.len()) as nat, |k: int| 0u8)
}

/// What parsing a serialized volume header yields: the header, or the
/// error the reader reports. The input must be exactly [`HEADER_SIZE`]
/// bytes; the magic, the version and the cipher selector are validated in
/// that order; reserved bytes are preserved and the padding is ignored.
pub open spec fn spec_parse_volume_header(b: Seq<u8>) -> Result<VolumeHeaderV, HeaderError> {
    if b.len() != HEADER_SIZE {
        Err(HeaderError::SizeMismatch { expected: HEADER_SIZE, actual: b.len() as usize })
    } else if b.subrange(0, 8) != spec_magic_vol() {
        Err(HeaderError::InvalidMagic)
    } else if spec_u32_from_le_bytes(b.subrange(8, 12)) != VOLUME_VERSION {
        Err(HeaderError::UnsupportedVersion(spec_u32_from_le_bytes(b.subrange(8, 12))))
    } else if b[12] != 1 {
        Err(HeaderError::UnsupportedCipher(b[12]))
    } else {
        Ok(
            VolumeHeaderV {
                magic: b.subrange(0, 8),
                version: spec_u32_from_le_bytes(b.subrange(8, 12)),
                cipher: CipherAlgorithm::Aes256Gcm,
                salt: b.subrange(13, 45),
                header_iv: b.subrange(45, 57),
                volume_size: spec_u64_from_le_bytes(b.subrange(57, 65)),
                sector_size: spec_u32_from_le_bytes(b.subrange(65, 69)),
                created_at: spec_u64_from_le_bytes(b.subrange(69, 77)),
                modified_at: spec_u64_from_le_bytes(b.subrange(77, 85)),
                reserved: b.subrange(85, 341),
            },
        )
    }
}

impl VolumeHeader {
    /// Creates a header for a volume formatted at Unix second `now`: fixed
    /// magic, version and cipher, the given geometry and crypto parameters,
    /// both timestamps set to `now`, and a zeroed reserved area.
    pub fn new_at(
        volume_size: u64,
        sector_size: u32,
        salt: [u8; 32],
        header_iv: [u8; 12],
        now: u64,
    ) -> (r: Self)
        ensures
            r@.wf(),
            r@ == (VolumeHeaderV {
                magic: spec_magic_vol(),
                version: VOLUME_VERSION,
                cipher: CipherAlgorithm::Aes256Gcm,
                salt: salt@,
                header_iv: header_iv@,
                volume_size,
                sector_size,
                created_at: now,
                modified_at: now,
                reserved: Seq::new(256, |k: int| 0u8),
            }),
    {
        let magic: [u8; 8] = [0x53, 0x45, 0x43, 0x56, 0x4F, 0x4C, 0x30, 0x31];
        proof {
            assert(magic@ =~= spec_magic_vol());
        }
        let reserved: [u8; 256] = [0u8; 256];
        proof {
            assert(reserved@ =~= Seq::new(256, |k: int| 0u8));
        }
        let r = VolumeHeader {
            magic,
            version: VOLUME_VERSION,
            cipher: CipherAlgorithm::Aes256Gcm,
            salt,
            header_iv,
            volume_size,
            sector_size,
            created_at: now,
            modified_at: now,
            reserved,
        };
        proof {
            assert(r@ =~= (VolumeHeaderV {
                magic: spec_magic_vol(),
                version: VOLUME_VERSION,
                cipher: CipherAlgorithm::Aes256Gcm,
                salt: salt@,
                header_iv: header_iv@,
                volume_size,
                sector_size,
                created_at: now,
                modified_at: now,
                reserved: Seq::new(256, |k: int| 0u8),
            }));
        }
        r
    }

    /// Creates a header for a freshly formatted volume: [`Self::new_at`]
    /// with both timestamps drawn from the system clock.
    pub fn new(volume_size: u64, sector_size: u32, salt: [u8; 32], header_iv: [u8; 12]) -> (r:
        Self)
        ensures
            r@.wf(),
            r@.cipher == CipherAlgorithm::Aes256Gcm,
            r@.salt == salt@,
            r@.header_iv == header_iv@,
            r@.volume_size == volume_size,
            r@.sector_size == sector_size,
            r@.created_at == r@.modified_at,
            r@.reserved == Seq::new(256, |k: int| 0u8),
    {
        let now = unix_now();
        Self::new_at(volume_size, sector_size, salt, header_iv, now)
    }

    /// Serializes the header to exactly [`HEADER_SIZE`] bytes, zero-padded
    /// past the encoded fields.
    pub fn to_bytes(&self) -> (r: Result<Vec<u8>, HeaderError>)
        requires
            self@.wf(),
        ensures
            r is Ok,
            r matches Ok(v) ==> v@ == spec_volume_header_bytes(self@) && v@.len() == HEADER_SIZE,
    {
        proof {
            lemma_auto_spec_u32_to_from_le_bytes();
            lemma_auto_spec_u64_to_from_le_bytes();
        }
        let mut out: Vec<u8> = Vec::new();
        out.extend_from_slice(self.magic.as_slice());
        let mut version = u32_to_le_bytes(self.version);
        out.append(&mut version);
        out.push(self.cipher.code());
        out.extend_from_slice(self.salt.as_slice());
        out.extend_from_slice(self.header_iv.as_slice());
        let mut vs = u64_to_le_bytes(self.volume_size);
        out.append(&mut vs);
        let mut ss = u32_to_le_bytes(self.sector_size);
        out.append(&mut ss);
        let mut ca = u64_to_le_bytes(self.created_at);
        out.append(&mut ca);
        let mut ma = u64_to_le_bytes(self.modified_at);
        out.append(&mut ma);
        out.extend_from_slice(self.reserved.as_slice());

        let ghost prefix = out@;
        assert(prefix.len() == 341);
        while out.len() < HEADER_SIZE
            invariant
                prefix.len() == 341,
                341 <= out@.len() <= HEADER_SIZE,
                out@ == prefix + Seq::new((out@.len() - 341) as nat, |k: int| 0u8),
            decreases HEADER_SIZE - out@.len(),
        {
            out.push(0u8);
            proof {
                assert(out@ =~= prefix + Seq::new((out@.len() - 341) as nat, |k: int| 0u8));
            }
        }
        assert(out@ =~= spec_volume_header_bytes(self@));
        Ok(out)
    }

    /// Deserializes a header from exactly [`HEADER_SIZE`] bytes, exactly as
    /// [`spec_parse_volume_header`] describes: wrong length, magic, version
    /// and cipher selector are rejected in that order.
    pub fn from_bytes(bytes: &[u8]) -> (r: Result<Self, HeaderError>)
        ensures
            match r {
                Ok(h) => spec_parse_volume_header(bytes@) == Ok::<VolumeHeaderV, HeaderError>(h@)
                    && h@.wf(),
                Err(e) => spec_parse_volume_header(bytes@) == Err::<VolumeHeaderV, HeaderError>(e),
            },
    {
        proof {
            lemma_auto_spec_u32_to_from_le_bytes();
            lemma_auto_spec_u64_to_from_le_bytes();
        }
        if bytes.len() != HEADER_SIZE {
            return Err(HeaderError::SizeMismatch { expected: HEADER_SIZE, actual: bytes.len() });
        }
        let magic_ok = bytes[0] == 0x53 && bytes[1] == 0x45 && bytes[2] == 0x43 && bytes[3] == 0x56
            && bytes[4] == 0x4F && bytes[5] == 0x4C && bytes[6] == 0x30 && bytes[7] == 0x31;
        if !magic_ok {
            proof {
                if bytes@.subrange(0, 8) == spec_magic_vol() {
                    assert(forall|k: int| 0 <= k < 8 ==> bytes@[k] == spec_magic_vol()[k]) by {
                        assert(forall|k: int|
                            0 <= k < 8 ==> bytes@.subrange(0, 8)[k] == bytes@[k]);
                    }
                    assert(false);
                }
            }
            return Err(HeaderError::InvalidMagic);
        }
        assert(bytes@.subrange(0, 8) =~= spec_magic_vol());
        let version = u32_from_le_bytes(slice_subrange(bytes, 8, 12));
        if version != VOLUME_VERSION {
            return Err(HeaderError::UnsupportedVersion(version));
        }
        let cipher_code = bytes[12];
        if cipher_code != 1 {
            return Err(HeaderError::UnsupportedCipher(cipher_code));
        }

        let mut magic = [0u8; 8];
        for k in 0..8usize
            invariant
                bytes@.len() == 4096,
                forall|t: int| 0 <= t < k ==> magic@[t] == bytes@[t],
                magic@.len() == 8,
        {
            magic[k] = bytes[k];
        }
        let mut salt = [0u8; 32];
        for k in 0..32usize
            invariant
                bytes@.len() == 4096,
                forall|t: int| 0 <= t < k ==> salt@[t] == bytes@[13 + t],
                salt@.len() == 32,
        {
            salt[k] = bytes[13 + k];
        }
        let mut header_iv = [0u8; 12];
        for k in 0..12usize
            invariant
                bytes@.len() == 4096,
                forall|t: int| 0 <= t < k ==> header_iv@[t] == bytes@[45 + t],
                header_iv@.len() == 12,
        {
            header_iv[k] = bytes[45 + k];
        }
        let mut reserved = [0u8; 256];
        for k in 0..256usize
            invariant
                bytes@.len() == 4096,
                forall|t: int| 0 <= t < k ==> reserved@[t] == bytes@[85 + t],
                reserved@.len() == 256,
        {
            reserved[k] = bytes[85 + k];
        }

        let header = VolumeHeader {
            magic,
            version,
            cipher: CipherAlgorithm::Aes256Gcm,
            salt,
            header_iv,
            volume_size: u64_from_le_bytes(slice_subrange(bytes, 57, 65)),
            sector_size: u32_from_le_bytes(slice_subrange(bytes, 65, 69)),
            created_at: u64_from_le_bytes(slice_subrange(bytes, 69, 77)),
            modified_at: u64_from_le_bytes(slice_subrange(bytes, 77, 85)),
            reserved,
        };
        proof {
            assert(magic@ =~= bytes@.subrange(0, 8));
            assert(salt@ =~= bytes@.subrange(13, 45));
            assert(header_iv@ =~= bytes@.subrange(45, 57));
            assert(reserved@ =~= bytes@.subrange(85, 341));
            let parsed = spec_parse_volume_header(bytes@);
            assert(parsed matches Ok(hv) && hv =~= header@);
        }
        Ok(header)
    }

    /// Appends the serialized 4096-byte header to `out`.
    pub fn write_to(&self, out: &mut Vec<u8>) -> (r: Result<(), HeaderError>)
        requires
            self@.wf(),
        ensures
            r is Ok,
            final(out)@ == old(out)@ + spec_volume_header_bytes(self@),
    {
        let bytes = match self.to_bytes() {
            Ok(b) => b,
            Err(e) => {
                return Err(e);
            },
        };
        out.extend_from_slice(bytes.as_slice());
        Ok(())
    }

    /// Reads a header from the first [`HEADER_SIZE`] bytes of `bytes`;
    /// shorter input is a size mismatch.
    pub fn read_from(bytes: &[u8]) -> (r: Result<Self, HeaderError>)
        ensures
            match r {
                Ok(h) => bytes@.len() >= HEADER_SIZE && spec_parse_volume_header(
                    bytes@.subrange(0, HEADER_SIZE as int),
                ) == Ok::<VolumeHeaderV, HeaderError>(h@) && h@.wf(),
                Err(e) => if bytes@.len() < HEADER_SIZE {
                    e == (HeaderError::SizeMismatch {
                        expected: HEADER_SIZE,
                        actual: bytes@.len() as usize,
                    })
                } else {
                    spec_parse_volume_header(bytes@.subrange(0, HEADER_SIZE as int)) == Err::<
                        VolumeHeaderV,
                        HeaderError,
                    >(e)
                },
            },
    {
        if bytes.len() < HEADER_SIZE {
            return Err(HeaderError::SizeMismatch { expected: HEADER_SIZE, actual: bytes.len() });
        }
        Self::from_bytes(slice_subrange(bytes, 0, HEADER_SIZE))
    }

    /// Sets `modified_at` to the given Unix second; every other field,
    /// `created_at` included, is unchanged. Under a monotone clock, a stamp
    /// at or after the old one strictly increases `modified_at` whenever a
    /// second has elapsed.
    pub fn touch_at(&mut self, now: u64)
        ensures
            final(self)@ == (VolumeHeaderV { modified_at: now, ..old(self)@ }),
    {
        self.modified_at = now;
    }

    /// Advances `modified_at` to the current Unix second: [`Self::touch_at`]
    /// with the stamp drawn from the system clock. Every other field,
    /// `created_at` included, is unchanged.
    pub fn touch(&mut self)
        ensures
            final(self)@ == (VolumeHeaderV {
                modified_at: final(self)@.modified_at,
                ..old(self)@
            }),
    {
        let now = unix_now();
        self.touch_at(now);
    }

    /// The salt used for key derivation.
    pub fn salt(&self) -> (r: &[u8; 32])
        ensures
            r@ == self@.salt,
    {
        &self.salt
    }

    /// The IV under which the header's key material is encrypted.
    pub fn header_iv(&self) -> (r: &[u8; 12])
        ensures
            r@ == self@.header_iv,
    {
        &self.header_iv
    }

    /// The volume size in bytes, excluding the header.
    pub fn volume_size(&self) -> (r: u64)
        ensures
            r == self@.volume_size,
    {
        self.volume_size
    }

    /// The sector size in bytes.
    pub fn sector_size(&self) -> (r: u32)
        ensures
            r == self@.sector_size,
    {
        self.sector_size
    }

    /// The creation timestamp, in Unix seconds.
    pub fn created_at(&self) -> (r: u64)
        ensures
            r == self@.created_at,
    {
        self.created_at
    }

    /// The last-modification timestamp, in Unix seconds.
    pub fn modified_at(&self) -> (r: u64)
        ensures
            r == self@.modified_at,
    {
        self.modified_at
    }

    /// The cipher the volume is encrypted with.
    pub fn cipher(&self) -> (r: CipherAlgorithm)
        ensures
            r == self@.cipher,
    {
        self.cipher
    }
}

/// A well-formed volume header serializes to exactly 4096 bytes that parse
/// back to the very same header, reserved bytes included.
pub proof fn lemma_volume_header_round_trip(h: VolumeHeaderV)
    requires
        h.wf(),
    ensures
        spec_volume_header_bytes(h).len() == HEADER_SIZE,
        spec_parse_volume_header(spec_volume_header_bytes(h)) == Ok::<VolumeHeaderV, HeaderError>(
            h,
        ),
{
    lemma_auto_spec_u32_to_from_le_bytes();
    lemma_auto_spec_u64_to_from_le_bytes();
    let b = spec_volume_header_bytes(h);
    assert(b.len() == HEADER_SIZE);
    assert(b.subrange(0, 8) =~= h.magic);
    assert(b.subrange(8, 12) =~= spec_u32_to_le_bytes(h.version));
    assert(b[12] == h.cipher.spec_code());
    assert(b.subrange(13, 45) =~= h.salt);
    assert(b.subrange(45, 57) =~= h.header_iv);
    assert(b.subrange(57, 65) =~= spec_u64_to_le_bytes(h.volume_size));
    assert(b.subrange(65, 69) =~= spec_u32_to_le_bytes(h.sector_size));
    assert(b.subrange(69, 77) =~= spec_u64_to_le_bytes(h.created_at));
    assert(b.subrange(77, 85) =~= spec_u64_to_le_bytes(h.modified_at));
    assert(b.subrange(85, 341) =~= h.reserved);
    let parsed = spec_parse_volume_header(b);
    assert(parsed matches Ok(hv) && hv =~= h);
}

} // verus!
