//! The streaming encoder and decoder.
//!
//! An encode validates the configuration, draws a fresh salt and base nonce,
//! derives a key from the password, writes the header, and emits one framed,
//! AEAD-encrypted record per chunk in strictly ascending index order. A
//! decode parses the header, re-derives the key, and verifies record by
//! record: any short read, index mismatch, authentication failure or
//! trailing byte aborts with an error.
//!
//! The central contract: a stream that [`encode_stream`] returns decodes
//! back to the original plaintext under the same password and cost
//! parameters — its `ensures` states that [`spec_decode_stream`] of the
//! produced bytes yields the plaintext, and [`decode_stream`] returns
//! exactly what [`spec_decode_stream`] describes.

use vstd::prelude::*;
use vstd::bytes::*;
use vstd::utf8::*;
use vstd::slice::*;
use vstd::arithmetic::div_mod::*;

use crate::errors::CryptorError;
use crate::envelope::EncryptConfig;
use crate::streaming::{
    ceil_div, derive_chunk_nonce, spec_chunk_nonce, spec_header_wf, spec_magic_v2,
    spec_parse_stream_header, spec_stream_header_bytes, lemma_stream_header_round_trip,
    StreamConfig, StreamHeader, StreamHeaderV, FORMAT_VERSION, MAX_CHUNK_SIZE, MIN_CHUNK_SIZE,
    NONCE_LEN,
};
use crate::primitives::{
    aead_decrypt, aead_encrypt, aead_open, aead_seal, base64_encode, derive_key, kdf_key,
    random_bytes,
};

verus! {

/// The plaintext slice of chunk `i`: `cs` bytes from position `i * cs`,
/// shorter for the final chunk.
pub open spec fn spec_chunk(pt: Seq<u8>, cs: int, i: int) -> Seq<u8>
    recommends
        cs > 0,
        0 <= i,
        i * cs <= pt.len(),
{
    if (i + 1) * cs <= pt.len() {
        pt.subrange(i * cs, (i + 1) * cs)
    } else {
        pt.subrange(i * cs, pt.len() as int)
    }
}

/// The plaintext from chunk `i` onward.
pub open spec fn spec_plain_tail(pt: Seq<u8>, cs: int, i: int) -> Seq<u8>
    recommends
        cs > 0,
        0 <= i,
{
    if i * cs <= pt.len() {
        pt.subrange(i * cs, pt.len() as int)
    } else {
        Seq::empty()
    }
}

/// The framed record of chunk `i`: index, payload length, and the sealed
/// payload.
pub open spec fn spec_record(pt: Seq<u8>, key: Seq<u8>, base: Seq<u8>, cs: int, i: u64) -> Seq<
    u8,
> {
    let payload = aead_seal(key, spec_chunk_nonce(base, i), spec_chunk(pt, cs, i as int));
    spec_u64_to_le_bytes(i) + spec_u32_to_le_bytes(payload.len() as u32) + payload
}

/// The records of chunks `i .. hi`, in ascending index order.
pub open spec fn spec_chunk_records(
    pt: Seq<u8>,
    key: Seq<u8>,
    base: Seq<u8>,
    cs: int,
    i: u64,
    hi: u64,
) -> Seq<u8>
    decreases hi - i,
    when i <= hi
{
    if i >= hi {
        Seq::empty()
    } else {
        spec_record(pt, key, base, cs, i) + spec_chunk_records(
            pt,
            key,
            base,
            cs,
            (i + 1) as u64,
            hi,
        )
    }
}

/// What parsing and decrypting records `i .. total` from `b` yields: the
/// concatenated plaintext when every record is complete, carries the
/// expected index, authenticates, and nothing follows the last; otherwise
/// the error of the first failing step.
pub open spec fn spec_parse_chunks(
    b: Seq<u8>,
    key: Seq<u8>,
    base: Seq<u8>,
    i: u64,
    total: u64,
) -> Result<Seq<u8>, CryptorError>
    decreases total - i,
    when i <= total
{
    if i >= total {
        if b.len() == 0 {
            Ok(Seq::empty())
        } else {
            Err(CryptorError::InvalidFormat)
        }
    } else if b.len() < 12 {
        Err(CryptorError::Io)
    } else if spec_u64_from_le_bytes(b.subrange(0, 8)) != i {
        Err(CryptorError::InvalidFormat)
    } else {
        let ds = spec_u32_from_le_bytes(b.subrange(8, 12)) as int;
        if b.len() < 12 + ds {
            Err(CryptorError::Io)
        } else {
            match aead_open(key, spec_chunk_nonce(base, i), b.subrange(12, 12 + ds)) {
                None => Err(CryptorError::Cryptography),
                Some(p) => match spec_parse_chunks(
                    b.subrange(12 + ds, b.len() as int),
                    key,
                    base,
                    (i + 1) as u64,
                    total,
                ) {
                    Ok(rest) => Ok(p + rest),
                    Err(e) => Err(e),
                },
            }
        }
    }
}

/// The header an encode writes for the given inputs.
pub open spec fn spec_encode_header(
    pt: Seq<u8>,
    salt: Seq<char>,
    base: Seq<u8>,
    cs: u32,
    meta: Option<Seq<char>>,
) -> StreamHeaderV {
    StreamHeaderV {
        salt,
        base_nonce: base,
        chunk_size: cs,
        total_chunks: ceil_div(pt.len() as int, cs as int) as u64,
        original_size: pt.len() as u64,
        metadata: meta,
    }
}

/// Metadata as the format stores it: an empty string is not distinguishable
/// from an absent one, so it normalizes to absent.
pub open spec fn spec_meta_norm(meta: Option<Seq<char>>) -> Option<Seq<char>> {
    match meta {
        Some(m) => if m.len() > 0 {
            Some(m)
        } else {
            None
        },
        None => None,
    }
}

/// The view of an optional metadata string.
pub open spec fn spec_opt_str(m: Option<String>) -> Option<Seq<char>> {
    match m {
        Some(s) => Some(s@),
        None => None,
    }
}

/// The inputs an encode accepts: a chunk size within bounds, and a salt and
/// normalized metadata that fit their 16-bit length prefixes.
pub open spec fn spec_encode_inputs_ok(
    salt: Seq<char>,
    meta: Option<Seq<char>>,
    config: StreamConfig,
) -> bool {
    &&& config.valid()
    &&& encode_utf8(salt).len() <= 0xFFFF
    &&& (spec_meta_norm(meta) matches Some(m) ==> encode_utf8(m).len() <= 0xFFFF)
}

/// The complete stream an encode emits for the given inputs and key: the
/// header, then every chunk record.
pub open spec fn spec_encode_stream(
    pt: Seq<u8>,
    key: Seq<u8>,
    salt: Seq<char>,
    base: Seq<u8>,
    cs: u32,
    meta: Option<Seq<char>>,
) -> Seq<u8> {
    let h = spec_encode_header(pt, salt, base, cs, meta);
    spec_stream_header_bytes(h, 0) + spec_chunk_records(
        pt,
        key,
        base,
        cs as int,
        0,
        h.total_chunks,
    )
}

/// What decoding a stream under a given key yields.
pub open spec fn spec_decode_stream_with_key(stream: Seq<u8>, key: Seq<u8>) -> Result<
    Seq<u8>,
    CryptorError,
> {
    match spec_parse_stream_header(stream) {
        Err(e) => Err(e),
        Ok((h, n)) => spec_parse_chunks(
            stream.subrange(n, stream.len() as int),
            key,
            h.base_nonce,
            0,
            h.total_chunks,
        ),
    }
}

/// What decoding a stream under a password and Argon2 cost parameters
/// yields: the key is derived from the password and the salt the header
/// carries.
pub open spec fn spec_decode_stream(
    stream: Seq<u8>,
    password: Seq<u8>,
    mem_cost_kib: u32,
    time_cost: u32,
) -> Result<Seq<u8>, CryptorError> {
    match spec_parse_stream_header(stream) {
        Err(e) => Err(e),
        Ok((h, n)) => spec_parse_chunks(
            stream.subrange(n, stream.len() as int),
            kdf_key(password, encode_utf8(h.salt), mem_cost_kib, time_cost, 1),
            h.base_nonce,
            0,
            h.total_chunks,
        ),
    }
}

/// The AEAD facts an encode establishes for chunk `j` when it seals it:
/// the sealed payload opens back to the chunk, and carries a 16-byte tag.
pub open spec fn chunk_sealed_ok(pt: Seq<u8>, key: Seq<u8>, base: Seq<u8>, cs: int, j: u64) -> bool {
    let nj = spec_chunk_nonce(base, j);
    let ch = spec_chunk(pt, cs, j as int);
    &&& aead_open(key, nj, aead_seal(key, nj, ch)) == Some(ch)
    &&& aead_seal(key, nj, ch).len() == ch.len() + 16
}

/// Bounds of the chunk count: `ceil_div(n, c)` chunks of size `c` cover a
/// plaintext of `n > 0` bytes, and the last chunk begins before byte `n`.
pub proof fn lemma_ceil_div_bounds(n: int, c: int)
    requires
        c > 0,
        n >= 0,
    ensures
        ceil_div(n, c) >= 0,
        n == 0 ==> ceil_div(n, c) == 0,
        n > 0 ==> (ceil_div(n, c) - 1) * c < n <= ceil_div(n, c) * c,
        n <= ceil_div(n, c) * c,
{
    lemma_fundamental_div_mod(n + c - 1, c);
    lemma_mod_bound(n + c - 1, c);
    let q = (n + c - 1) / c;
    let r = (n + c - 1) % c;
    assert(n + c - 1 == c * q + r);
    assert(c * q == q * c) by (nonlinear_arith);
    if n == 0 {
        assert(q == 0) by (nonlinear_arith)
            requires
                c > 0,
                0 <= r < c,
                c - 1 == c * q + r,
        ;
    } else {
        assert(q * c == n + c - 1 - r);
        assert((q - 1) * c == q * c - c) by (nonlinear_arith);
        if q * c < n {
            assert(r > c - 1);
            assert(false);
        }
    }
}

/// Appending the record of chunk `hi` extends the records of `i .. hi` to
/// those of `i .. hi + 1`.
proof fn lemma_records_snoc(pt: Seq<u8>, key: Seq<u8>, base: Seq<u8>, cs: int, i: u64, hi: u64)
    requires
        i <= hi,
        hi < 0xFFFF_FFFF_FFFF_FFFFu64,
    ensures
        spec_chunk_records(pt, key, base, cs, i, (hi + 1) as u64) == spec_chunk_records(
            pt,
            key,
            base,
            cs,
            i,
            hi,
        ) + spec_record(pt, key, base, cs, hi),
    decreases hi - i,
{
    if i == hi {
        assert(spec_chunk_records(pt, key, base, cs, (i + 1) as u64, (hi + 1) as u64)
            =~= Seq::<u8>::empty());
        assert(spec_chunk_records(pt, key, base, cs, i, (hi + 1) as u64) =~= spec_chunk_records(
            pt,
            key,
            base,
            cs,
            i,
            hi,
        ) + spec_record(pt, key, base, cs, hi));
    } else {
        lemma_records_snoc(pt, key, base, cs, (i + 1) as u64, hi);
        assert(spec_chunk_records(pt, key, base, cs, i, (hi + 1) as u64) =~= spec_chunk_records(
            pt,
            key,
            base,
            cs,
            i,
            hi,
        ) + spec_record(pt, key, base, cs, hi));
    }
}

/// Records sealed as [`chunk_sealed_ok`] says parse and decrypt back to the
/// plaintext they carry.
proof fn lemma_records_decode(
    pt: Seq<u8>,
    key: Seq<u8>,
    base: Seq<u8>,
    cs: int,
    i: u64,
    total: u64,
)
    requires
        0 < cs,
        cs + 16 < 0x1_0000_0000,
        total == ceil_div(pt.len() as int, cs),
        i <= total,
        forall|j: u64|
            i <= j < total ==> #[trigger] chunk_sealed_ok(pt, key, base, cs, j),
    ensures
        spec_parse_chunks(spec_chunk_records(pt, key, base, cs, i, total), key, base, i, total)
            == Ok::<Seq<u8>, CryptorError>(spec_plain_tail(pt, cs, i as int)),
    decreases total - i,
{
    lemma_auto_spec_u32_to_from_le_bytes();
    lemma_auto_spec_u64_to_from_le_bytes();
    lemma_ceil_div_bounds(pt.len() as int, cs);
    if i >= total {
        assert(spec_chunk_records(pt, key, base, cs, i, total) =~= Seq::<u8>::empty());
        assert(spec_plain_tail(pt, cs, i as int) =~= Seq::<u8>::empty());
    } else {
        assert(i * cs < pt.len() || pt.len() == 0) by (nonlinear_arith)
            requires
                0 < cs,
                0 <= i < total,
                pt.len() == 0 ==> total == 0,
                pt.len() > 0 ==> (total - 1) * cs < pt.len(),
        ;
        let b = spec_chunk_records(pt, key, base, cs, i, total);
        let nj = spec_chunk_nonce(base, i);
        let ch = spec_chunk(pt, cs, i as int);
        let payload = aead_seal(key, nj, ch);
        assert(chunk_sealed_ok(pt, key, base, cs, i));
        assert((i + 1) * cs == i * cs + cs) by (nonlinear_arith);
        assert(i * cs <= pt.len());
        assert(ch.len() <= cs);
        let rest = spec_chunk_records(pt, key, base, cs, (i + 1) as u64, total);
        assert(b =~= spec_record(pt, key, base, cs, i) + rest);
        assert(b.subrange(0, 8) =~= spec_u64_to_le_bytes(i));
        assert(b.subrange(8, 12) =~= spec_u32_to_le_bytes(payload.len() as u32));
        let ds = spec_u32_from_le_bytes(b.subrange(8, 12)) as int;
        assert(ds == payload.len());
        assert(b.subrange(12, 12 + ds) =~= payload);
        assert(b.subrange(12 + ds, b.len() as int) =~= rest);
        lemma_records_decode(pt, key, base, cs, (i + 1) as u64, total);
        assert(ch + spec_plain_tail(pt, cs, i as int + 1) =~= spec_plain_tail(pt, cs, i as int));
    }
}

/// Decodes the chunk records that begin at `start`, returning the
/// concatenated plaintext exactly as [`spec_parse_chunks`] describes.
fn decode_chunks(
    stream: &[u8],
    start: usize,
    key: &Vec<u8>,
    base_nonce: &[u8; NONCE_LEN],
    total: u64,
) -> (r: Result<Vec<u8>, CryptorError>)
    requires
        key@.len() == 32,
        start <= stream@.len(),
    ensures
        ({
            let parsed = spec_parse_chunks(
                stream@.subrange(start as int, stream@.len() as int),
                key@,
                base_nonce@,
                0,
                total,
            );
            match r {
                Ok(p) => parsed == Ok::<Seq<u8>, CryptorError>(p@),
                Err(e) => parsed == Err::<Seq<u8>, CryptorError>(e),
            }
        }),
{
    proof {
        lemma_auto_spec_u32_to_from_le_bytes();
        lemma_auto_spec_u64_to_from_le_bytes();
    }
    let ghost whole = stream@.subrange(start as int, stream@.len() as int);
    let slen = stream.len();
    assert(stream@.len() <= usize::MAX);
    let mut out: Vec<u8> = Vec::new();
    let mut pos: usize = start;
    let mut i: u64 = 0;
    while i < total
        invariant
            key@.len() == 32,
            start <= pos <= stream@.len() <= usize::MAX,
            slen == stream@.len(),
            i <= total,
            whole == stream@.subrange(start as int, stream@.len() as int),
            spec_parse_chunks(whole, key@, base_nonce@, 0, total) == (match spec_parse_chunks(
                stream@.subrange(pos as int, stream@.len() as int),
                key@,
                base_nonce@,
                i,
                total,
            ) {
                Ok(p) => Ok::<Seq<u8>, CryptorError>(out@ + p),
                Err(e) => Err::<Seq<u8>, CryptorError>(e),
            }),
        decreases total - i,
    {
        let ghost cur = stream@.subrange(pos as int, stream@.len() as int);
        if slen - pos < 12 {
            return Err(CryptorError::Io);
        }
        let idx = u64_from_le_bytes(slice_subrange(stream, pos, pos + 8));
        proof {
            assert(cur.subrange(0, 8) =~= stream@.subrange(pos as int, pos + 8));
        }
        if idx != i {
            return Err(CryptorError::InvalidFormat);
        }
        let ds = u32_from_le_bytes(slice_subrange(stream, pos + 8, pos + 12)) as usize;
        proof {
            assert(cur.subrange(8, 12) =~= stream@.subrange(pos + 8, pos + 12));
        }
        if slen - (pos + 12) < ds {
            return Err(CryptorError::Io);
        }
        let payload = slice_subrange(stream, pos + 12, pos + 12 + ds);
        proof {
            assert(cur.subrange(12, 12 + ds as int) =~= stream@.subrange(
                pos + 12,
                pos + 12 + ds as int,
            ));
        }
        let nonce_i = derive_chunk_nonce(base_nonce, i);
        let plain = match aead_decrypt(key.as_slice(), &nonce_i, payload) {
            Ok(p) => p,
            Err(e) => {
                return Err(e);
            },
        };
        let ghost out_before = out@;
        out.extend_from_slice(plain.as_slice());
        let new_pos = pos + 12 + ds;
        proof {
            let next = stream@.subrange(new_pos as int, stream@.len() as int);
            assert(cur.subrange(12 + ds as int, cur.len() as int) =~= next);
            let pn = spec_parse_chunks(next, key@, base_nonce@, (i + 1) as u64, total);
            assert(spec_parse_chunks(cur, key@, base_nonce@, i, total) == (match pn {
                Ok(rest) => Ok::<Seq<u8>, CryptorError>(plain@ + rest),
                Err(e) => Err::<Seq<u8>, CryptorError>(e),
            }));
            match pn {
                Ok(rest) => {
                    assert(out_before + (plain@ + rest) =~= out@ + rest);
                },
                Err(_) => {},
            }
        }
        pos = new_pos;
        i = i + 1;
    }
    if pos != slen {
        return Err(CryptorError::InvalidFormat);
    }
    proof {
        assert(stream@.subrange(pos as int, stream@.len() as int) =~= Seq::<u8>::empty());
        assert(out@ + Seq::<u8>::empty() =~= out@);
    }
    Ok(out)
}

/// Parsing a strict prefix of the records of a valid stream ends in an
/// error: every record is either cut short (an `Io` error) or still whole,
/// in which case parsing continues and runs out before the expected count.
proof fn lemma_truncated_records_fail(
    pt: Seq<u8>,
    key: Seq<u8>,
    base: Seq<u8>,
    cs: int,
    i: u64,
    total: u64,
    m: int,
)
    requires
        0 < cs,
        cs + 16 < 0x1_0000_0000,
        total == ceil_div(pt.len() as int, cs),
        i <= total,
        forall|j: u64| i <= j < total ==> #[trigger] chunk_sealed_ok(pt, key, base, cs, j),
        0 <= m < spec_chunk_records(pt, key, base, cs, i, total).len(),
    ensures
        spec_parse_chunks(
            spec_chunk_records(pt, key, base, cs, i, total).take(m),
            key,
            base,
            i,
            total,
        ) is Err,
    decreases total - i,
{
    lemma_auto_spec_u32_to_from_le_bytes();
    lemma_auto_spec_u64_to_from_le_bytes();
    lemma_ceil_div_bounds(pt.len() as int, cs);
    let b = spec_chunk_records(pt, key, base, cs, i, total);
    let t = b.take(m);
    if i >= total {
        assert(b =~= Seq::<u8>::empty());
    } else {
        assert(i * cs < pt.len() || pt.len() == 0) by (nonlinear_arith)
            requires
                0 < cs,
                0 <= i < total,
                pt.len() == 0 ==> total == 0,
                pt.len() > 0 ==> (total - 1) * cs < pt.len(),
        ;
        let nj = spec_chunk_nonce(base, i);
        let ch = spec_chunk(pt, cs, i as int);
        let payload = aead_seal(key, nj, ch);
        assert(chunk_sealed_ok(pt, key, base, cs, i));
        assert((i + 1) * cs == i * cs + cs) by (nonlinear_arith);
        assert(ch.len() <= cs);
        let rest = spec_chunk_records(pt, key, base, cs, (i + 1) as u64, total);
        assert(b =~= spec_record(pt, key, base, cs, i) + rest);
        if m < 12 {
            assert(t.len() < 12);
        } else {
            assert(t.subrange(0, 8) =~= b.subrange(0, 8));
            assert(b.subrange(0, 8) =~= spec_u64_to_le_bytes(i));
            assert(t.subrange(8, 12) =~= b.subrange(8, 12));
            assert(b.subrange(8, 12) =~= spec_u32_to_le_bytes(payload.len() as u32));
            let ds = spec_u32_from_le_bytes(t.subrange(8, 12)) as int;
            assert(ds == payload.len());
            if m < 12 + ds {
                assert(t.len() < 12 + ds);
            } else {
                assert(t.subrange(12, 12 + ds) =~= b.subrange(12, 12 + ds));
                assert(b.subrange(12, 12 + ds) =~= payload);
                let m2 = m - 12 - ds;
                assert(t.subrange(12 + ds, t.len() as int) =~= rest.take(m2));
                lemma_truncated_records_fail(pt, key, base, cs, (i + 1) as u64, total, m2);
            }
        }
    }
}

/// A stream truncated anywhere after its header fails to decode: parsing
/// detects a short record, a short payload, or fewer records than the
/// header's chunk count. The hypotheses on [`chunk_sealed_ok`] are the AEAD
/// facts that hold of every stream an encode produced.
pub proof fn lemma_truncated_stream_fails(
    pt: Seq<u8>,
    password: Seq<u8>,
    mem_cost_kib: u32,
    time_cost: u32,
    salt: Seq<char>,
    base: Seq<u8>,
    cs: u32,
    meta: Option<Seq<char>>,
    n: int,
)
    requires
        0 < cs <= MAX_CHUNK_SIZE,
        pt.len() <= u64::MAX,
        spec_header_wf(spec_encode_header(pt, salt, base, cs, meta)),
        forall|j: u64|
            j < spec_encode_header(pt, salt, base, cs, meta).total_chunks
                ==> #[trigger] chunk_sealed_ok(
                pt,
                kdf_key(password, encode_utf8(salt), mem_cost_kib, time_cost, 1),
                base,
                cs as int,
                j,
            ),
        ({
            let key = kdf_key(password, encode_utf8(salt), mem_cost_kib, time_cost, 1);
            let h = spec_encode_header(pt, salt, base, cs, meta);
            spec_stream_header_bytes(h, 0).len() <= n < spec_encode_stream(
                pt,
                key,
                salt,
                base,
                cs,
                meta,
            ).len()
        }),
    ensures
        ({
            let key = kdf_key(password, encode_utf8(salt), mem_cost_kib, time_cost, 1);
            spec_decode_stream(
                spec_encode_stream(pt, key, salt, base, cs, meta).take(n),
                password,
                mem_cost_kib,
                time_cost,
            ) is Err
        }),
{
    let key = kdf_key(password, encode_utf8(salt), mem_cost_kib, time_cost, 1);
    let h = spec_encode_header(pt, salt, base, cs, meta);
    let hb = spec_stream_header_bytes(h, 0);
    let records = spec_chunk_records(pt, key, base, cs as int, 0, h.total_chunks);
    let stream = spec_encode_stream(pt, key, salt, base, cs, meta);
    let m = n - hb.len();
    assert(stream.take(n) =~= hb + records.take(m));
    lemma_stream_header_round_trip(h, 0, records.take(m));
    lemma_ceil_div_bounds(pt.len() as int, cs as int);
    if pt.len() > 0 {
        assert(ceil_div(pt.len() as int, cs as int) <= pt.len()) by (nonlinear_arith)
            requires
                1 <= cs,
                0 < pt.len(),
                pt.len() <= ceil_div(pt.len() as int, cs as int) * (cs as int),
                (ceil_div(pt.len() as int, cs as int) - 1) * (cs as int) < pt.len(),
        ;
    }
    assert(h.total_chunks == ceil_div(pt.len() as int, cs as int));
    lemma_truncated_records_fail(pt, key, base, cs as int, 0, h.total_chunks, m);
    assert(stream.take(n).subrange(hb.len() as int, stream.take(n).len() as int) =~= records.take(
        m,
    ));
}

/// A corrupted byte in a stream's magic or version field makes decoding
/// fail with a format error. Corruption in the remaining fields is caught
/// by the chunk framing checks or by AEAD authentication; the latter is a
/// property of the cipher that no contract here states.
pub proof fn lemma_header_prefix_flip_fails(
    stream: Seq<u8>,
    tampered: Seq<u8>,
    p: int,
    password: Seq<u8>,
    mem_cost_kib: u32,
    time_cost: u32,
)
    requires
        spec_parse_stream_header(stream) is Ok,
        0 <= p < 9,
        tampered.len() == stream.len(),
        tampered[p] != stream[p],
        forall|k: int| 0 <= k < stream.len() && k != p ==> tampered[k] == stream[k],
    ensures
        spec_decode_stream(tampered, password, mem_cost_kib, time_cost) == Err::<
            Seq<u8>,
            CryptorError,
        >(CryptorError::InvalidFormat),
{
    if p < 8 {
        assert(stream.subrange(0, 8) == spec_magic_v2());
        assert(tampered.subrange(0, 8)[p] == tampered[p]);
        assert(stream.subrange(0, 8)[p] == stream[p]);
        assert(tampered.subrange(0, 8) != spec_magic_v2());
    } else {
        assert(stream[8] == FORMAT_VERSION);
        assert(tampered.subrange(0, 8) =~= stream.subrange(0, 8));
        assert(tampered[8] != FORMAT_VERSION);
    }
}

/// Parsing records that begin with the intact records of chunks `i .. mid`
/// inherits any error that parsing the remainder from position `mid`
/// reports.
proof fn lemma_parse_records_prefix(
    pt: Seq<u8>,
    key: Seq<u8>,
    base: Seq<u8>,
    cs: int,
    i: u64,
    mid: u64,
    total: u64,
    tail: Seq<u8>,
    e: CryptorError,
)
    requires
        0 < cs,
        cs + 16 < 0x1_0000_0000,
        total == ceil_div(pt.len() as int, cs),
        i <= mid <= total,
        forall|j: u64| i <= j < mid ==> #[trigger] chunk_sealed_ok(pt, key, base, cs, j),
        spec_parse_chunks(tail, key, base, mid, total) == Err::<Seq<u8>, CryptorError>(e),
    ensures
        spec_parse_chunks(
            spec_chunk_records(pt, key, base, cs, i, mid) + tail,
            key,
            base,
            i,
            total,
        ) == Err::<Seq<u8>, CryptorError>(e),
    decreases mid - i,
{
    lemma_auto_spec_u32_to_from_le_bytes();
    lemma_auto_spec_u64_to_from_le_bytes();
    lemma_ceil_div_bounds(pt.len() as int, cs);
    if i == mid {
        assert(spec_chunk_records(pt, key, base, cs, i, mid) + tail =~= tail);
    } else {
        assert(i * cs < pt.len() || pt.len() == 0) by (nonlinear_arith)
            requires
                0 < cs,
                0 <= i < total,
                pt.len() == 0 ==> total == 0,
                pt.len() > 0 ==> (total - 1) * cs < pt.len(),
        ;
        let nj = spec_chunk_nonce(base, i);
        let ch = spec_chunk(pt, cs, i as int);
        let payload = aead_seal(key, nj, ch);
        assert(chunk_sealed_ok(pt, key, base, cs, i));
        assert((i + 1) * cs == i * cs + cs) by (nonlinear_arith);
        assert(ch.len() <= cs);
        let rest = spec_chunk_records(pt, key, base, cs, (i + 1) as u64, mid);
        let b = spec_chunk_records(pt, key, base, cs, i, mid) + tail;
        assert(b =~= spec_record(pt, key, base, cs, i) + (rest + tail));
        assert(b.subrange(0, 8) =~= spec_u64_to_le_bytes(i));
        assert(b.subrange(8, 12) =~= spec_u32_to_le_bytes(payload.len() as u32));
        let ds = spec_u32_from_le_bytes(b.subrange(8, 12)) as int;
        assert(ds == payload.len());
        assert(b.len() >= 12 + ds);
        assert(b.subrange(12, 12 + ds) =~= payload);
        assert(b.subrange(12 + ds, b.len() as int) =~= rest + tail);
        lemma_parse_records_prefix(pt, key, base, cs, (i + 1) as u64, mid, total, tail, e);
    }
}

/// A stream whose records have one pair exchanged fails on the index
/// mismatch check of the first record that is out of place: the records of
/// chunks `0 .. a` parse, and the record of chunk `b` standing at position
/// `a` carries index `b != a`.
pub proof fn lemma_swapped_records_fail(
    pt: Seq<u8>,
    key: Seq<u8>,
    base: Seq<u8>,
    cs: int,
    a: u64,
    b: u64,
    total: u64,
    suffix: Seq<u8>,
)
    requires
        0 < cs,
        cs + 16 < 0x1_0000_0000,
        total == ceil_div(pt.len() as int, cs),
        a < b < total,
        forall|j: u64| j < total ==> #[trigger] chunk_sealed_ok(pt, key, base, cs, j),
    ensures
        spec_parse_chunks(
            spec_chunk_records(pt, key, base, cs, 0, a) + spec_record(pt, key, base, cs, b)
                + suffix,
            key,
            base,
            0,
            total,
        ) == Err::<Seq<u8>, CryptorError>(CryptorError::InvalidFormat),
{
    lemma_auto_spec_u32_to_from_le_bytes();
    lemma_auto_spec_u64_to_from_le_bytes();
    let out_of_place = spec_record(pt, key, base, cs, b) + suffix;
    assert(out_of_place.subrange(0, 8) =~= spec_u64_to_le_bytes(b));
    assert(spec_u64_from_le_bytes(out_of_place.subrange(0, 8)) == b);
    assert(out_of_place.len() >= 12);
    assert(spec_parse_chunks(out_of_place, key, base, a, total) == Err::<Seq<u8>, CryptorError>(
        CryptorError::InvalidFormat,
    ));
    lemma_parse_records_prefix(
        pt,
        key,
        base,
        cs,
        0,
        a,
        total,
        out_of_place,
        CryptorError::InvalidFormat,
    );
    assert(spec_chunk_records(pt, key, base, cs, 0, a) + spec_record(pt, key, base, cs, b) + suffix
        =~= spec_chunk_records(pt, key, base, cs, 0, a) + out_of_place);
}

/// An empty plaintext encodes to a bare header: zero total chunks, zero
/// original size, and no chunk records after the header.
pub proof fn lemma_empty_stream_encode(
    key: Seq<u8>,
    salt: Seq<char>,
    base: Seq<u8>,
    cs: u32,
    meta: Option<Seq<char>>,
)
    requires
        cs > 0,
    ensures
        ({
            let h = spec_encode_header(Seq::<u8>::empty(), salt, base, cs, meta);
            &&& h.total_chunks == 0
            &&& h.original_size == 0
            &&& spec_encode_stream(Seq::<u8>::empty(), key, salt, base, cs, meta)
                == spec_stream_header_bytes(h, 0)
        }),
{
    lemma_ceil_div_bounds(0, cs as int);
    let h = spec_encode_header(Seq::<u8>::empty(), salt, base, cs, meta);
    assert(spec_chunk_records(Seq::<u8>::empty(), key, base, cs as int, 0, 0) =~= Seq::<
        u8,
    >::empty());
    assert(spec_stream_header_bytes(h, 0) + Seq::<u8>::empty() =~= spec_stream_header_bytes(h, 0));
}

/// Deterministic encoder core: builds the stream for a given key, salt and
/// base nonce. It succeeds exactly on the inputs of
/// [`spec_encode_inputs_ok`], emits exactly [`spec_encode_stream`], and
/// every stream it returns decodes back to the plaintext under the same
/// key.
pub fn encode_stream_with_key(
    plaintext: &[u8],
    key: &Vec<u8>,
    salt: &str,
    base_nonce: &[u8; NONCE_LEN],
    config: &StreamConfig,
    metadata: &Option<String>,
) -> (r: Result<Vec<u8>, CryptorError>)
    requires
        key@.len() == 32,
    ensures
        r is Ok <==> spec_encode_inputs_ok(salt@, spec_opt_str(*metadata), *config),
        r matches Err(e) ==> e == CryptorError::Cryptography,
        r matches Ok(s) ==> s@ == spec_encode_stream(
            plaintext@,
            key@,
            salt@,
            base_nonce@,
            config.chunk_size as u32,
            spec_meta_norm(spec_opt_str(*metadata)),
        ),
        r matches Ok(s) ==> spec_decode_stream_with_key(s@, key@) == Ok::<Seq<u8>, CryptorError>(
            plaintext@,
        ),
{
    if config.chunk_size < MIN_CHUNK_SIZE || config.chunk_size > MAX_CHUNK_SIZE {
        return Err(CryptorError::Cryptography);
    }
    let salt_bytes: &[u8] = salt.as_bytes();
    if salt_bytes.len() > 0xFFFF {
        return Err(CryptorError::Cryptography);
    }
    let meta_norm: Option<String> = match metadata {
        Some(m) => {
            if m.as_str().is_empty() {
                None
            } else {
                let meta_bytes: &[u8] = m.as_str().as_bytes();
                if meta_bytes.len() > 0xFFFF {
                    return Err(CryptorError::Cryptography);
                }
                Some(m.clone())
            }
        },
        None => None,
    };

    let cs = config.chunk_size;
    let cs_u32 = cs as u32;
    let pt_len = plaintext.len();
    let total = StreamHeader::calculate_chunks(pt_len as u64, cs_u32);
    let header = StreamHeader {
        salt: salt.to_owned(),
        base_nonce: *base_nonce,
        chunk_size: cs_u32,
        total_chunks: total,
        original_size: pt_len as u64,
        metadata: meta_norm,
    };
    let ghost hv = header@;
    let ghost meta_v = spec_meta_norm(spec_opt_str(*metadata));
    proof {
        assert(spec_header_wf(hv));
        assert(hv =~= spec_encode_header(plaintext@, salt@, base_nonce@, cs_u32, meta_v));
    }

    let mut out: Vec<u8> = Vec::new();
    match header.write_to(&mut out) {
        Ok(()) => {},
        Err(e) => {
            return Err(e);
        },
    }
    let ghost header_bytes = spec_stream_header_bytes(hv, 0);

    let mut i: u64 = 0;
    while i < total
        invariant
            key@.len() == 32,
            i <= total,
            cs == config.chunk_size,
            MIN_CHUNK_SIZE <= cs <= MAX_CHUNK_SIZE,
            cs_u32 == cs as u32,
            pt_len == plaintext@.len(),
            total == ceil_div(pt_len as int, cs as int),
            out@ == header_bytes + spec_chunk_records(
                plaintext@,
                key@,
                base_nonce@,
                cs as int,
                0,
                i,
            ),
            forall|j: u64|
                j < i ==> #[trigger] chunk_sealed_ok(plaintext@, key@, base_nonce@, cs as int, j),
        decreases total - i,
    {
        proof {
            lemma_ceil_div_bounds(pt_len as int, cs as int);
            assert(i * cs < pt_len) by (nonlinear_arith)
                requires
                    0 < cs,
                    0 <= i < total,
                    pt_len == 0 ==> total == 0,
                    pt_len > 0 ==> (total - 1) * cs < pt_len,
            ;
            assert(total <= pt_len) by (nonlinear_arith)
                requires
                    1 <= cs,
                    0 < total,
                    (total - 1) * cs < pt_len,
            ;
        }
        let start = (i as usize) * cs;
        let remaining = pt_len - start;
        let clen = if remaining < cs {
            remaining
        } else {
            cs
        };
        let chunk = slice_subrange(plaintext, start, start + clen);
        proof {
            assert((i + 1) * (cs as int) == i * (cs as int) + cs) by (nonlinear_arith);
            assert(chunk@ =~= spec_chunk(plaintext@, cs as int, i as int));
        }
        let nonce_i = derive_chunk_nonce(base_nonce, i);
        let payload = match aead_encrypt(key.as_slice(), &nonce_i, chunk) {
            Ok(p) => p,
            Err(_) => {
                proof {
                    assert(false);
                }
                return Err(CryptorError::Cryptography);
            },
        };
        let mut idx_bytes = u64_to_le_bytes(i);
        out.append(&mut idx_bytes);
        let mut ds_bytes = u32_to_le_bytes(payload.len() as u32);
        out.append(&mut ds_bytes);
        out.extend_from_slice(payload.as_slice());
        proof {
            assert(chunk_sealed_ok(plaintext@, key@, base_nonce@, cs as int, i));
            lemma_records_snoc(plaintext@, key@, base_nonce@, cs as int, 0, i);
            assert(out@ =~= header_bytes + spec_chunk_records(
                plaintext@,
                key@,
                base_nonce@,
                cs as int,
                0,
                (i + 1) as u64,
            ));
        }
        i = i + 1;
    }

    proof {
        let records = spec_chunk_records(plaintext@, key@, base_nonce@, cs as int, 0, total);
        assert(out@ == spec_encode_stream(plaintext@, key@, salt@, base_nonce@, cs_u32, meta_v));
        lemma_records_decode(plaintext@, key@, base_nonce@, cs as int, 0, total);
        lemma_stream_header_round_trip(hv, 0, records);
        assert(out@.subrange(header_bytes.len() as int, out@.len() as int) =~= records);
        assert(spec_plain_tail(plaintext@, cs as int, 0) =~= plaintext@);
        assert(spec_decode_stream_with_key(out@, key@) == Ok::<Seq<u8>, CryptorError>(plaintext@));
    }
    Ok(out)
}

/// Encodes a plaintext under a password: draws a fresh salt and base nonce
/// from the system's entropy source, derives the key, and emits the v2
/// stream. Every stream it returns decodes back to the original plaintext
/// under the same password and cost parameters: its first `ensures` states
/// that [`spec_decode_stream`] of the result yields the plaintext, and
/// [`decode_stream`] returns what [`spec_decode_stream`] describes.
pub fn encode_stream(
    plaintext: &[u8],
    password: &[u8],
    config: &StreamConfig,
    kdf_config: &EncryptConfig,
    metadata: &Option<String>,
) -> (r: Result<Vec<u8>, CryptorError>)
    ensures
        r matches Ok(s) ==> spec_decode_stream(
            s@,
            password@,
            kdf_config.memory_cost,
            kdf_config.time_cost,
        ) == Ok::<Seq<u8>, CryptorError>(plaintext@),
        r matches Ok(s) ==> exists|salt: Seq<char>, base: Seq<u8>|
            s@ == #[trigger] spec_encode_stream(
                plaintext@,
                kdf_key(
                    password@,
                    encode_utf8(salt),
                    kdf_config.memory_cost,
                    kdf_config.time_cost,
                    1,
                ),
                salt,
                base,
                config.chunk_size as u32,
                spec_meta_norm(spec_opt_str(*metadata)),
            ),
        !config.valid() ==> r is Err,
        r matches Err(e) ==> e == CryptorError::Cryptography,
{
    if config.chunk_size < MIN_CHUNK_SIZE || config.chunk_size > MAX_CHUNK_SIZE {
        return Err(CryptorError::Cryptography);
    }
    let salt_raw = match random_bytes(16) {
        Ok(v) => v,
        Err(e) => {
            return Err(e);
        },
    };
    let salt = base64_encode(salt_raw.as_slice());
    let nonce_vec = match random_bytes(NONCE_LEN) {
        Ok(v) => v,
        Err(e) => {
            return Err(e);
        },
    };
    let mut base_nonce = [0u8; NONCE_LEN];
    for k in 0..NONCE_LEN
        invariant
            nonce_vec@.len() == 12,
            base_nonce@.len() == 12,
    {
        base_nonce[k] = nonce_vec[k];
    }
    let key = match derive_key(
        password,
        salt.as_str().as_bytes(),
        kdf_config.memory_cost,
        kdf_config.time_cost,
        1,
    ) {
        Ok(k) => k,
        Err(e) => {
            return Err(e);
        },
    };
    proof {
        is_ascii_chars_encode_utf8(salt@);
    }
    let stream = match encode_stream_with_key(
        plaintext,
        &key,
        salt.as_str(),
        &base_nonce,
        config,
        metadata,
    ) {
        Ok(s) => s,
        Err(e) => {
            return Err(e);
        },
    };
    proof {
        let mem = kdf_config.memory_cost;
        let t = kdf_config.time_cost;
        let k = kdf_key(password@, encode_utf8(salt@), mem, t, 1);
        assert(key@ == k);
        let meta_v = spec_meta_norm(spec_opt_str(*metadata));
        let hv = spec_encode_header(plaintext@, salt@, base_nonce@, config.chunk_size as u32, meta_v);
        let records = spec_chunk_records(
            plaintext@,
            key@,
            base_nonce@,
            config.chunk_size as int,
            0,
            hv.total_chunks,
        );
        assert(spec_header_wf(hv));
        lemma_stream_header_round_trip(hv, 0, records);
        let hb = spec_stream_header_bytes(hv, 0);
        assert(stream@.subrange(hb.len() as int, stream@.len() as int) =~= records);
        assert(spec_decode_stream(stream@, password@, mem, t) == spec_decode_stream_with_key(
            stream@,
            key@,
        ));
    }
    Ok(stream)
}

/// Decodes a stream under a pre-derived key: exactly what
/// [`spec_decode_stream_with_key`] yields, error for error.
pub fn decode_stream_with_key(stream: &[u8], key: &Vec<u8>) -> (r: Result<Vec<u8>, CryptorError>)
    requires
        key@.len() == 32,
    ensures
        ({
            let parsed = spec_decode_stream_with_key(stream@, key@);
            match r {
                Ok(p) => parsed == Ok::<Seq<u8>, CryptorError>(p@),
                Err(e) => parsed == Err::<Seq<u8>, CryptorError>(e),
            }
        }),
{
    let (header, n) = match StreamHeader::read_from(stream) {
        Ok(hn) => hn,
        Err(e) => {
            return Err(e);
        },
    };
    decode_chunks(stream, n, key, &header.base_nonce, header.total_chunks)
}

/// Decodes a stream under a password and cost parameters: what it returns
/// is what [`spec_decode_stream`] yields, except that on a stream whose
/// header parses, a key-derivation failure may surface as a `Cryptography`
/// error of its own. A header that does not parse is reported with exactly
/// its own error: a format error is never masked as a cryptographic one.
pub fn decode_stream(stream: &[u8], password: &[u8], kdf_config: &EncryptConfig) -> (r: Result<
    Vec<u8>,
    CryptorError,
>)
    ensures
        ({
            let parsed = spec_decode_stream(
                stream@,
                password@,
                kdf_config.memory_cost,
                kdf_config.time_cost,
            );
            &&& (r matches Ok(p) ==> parsed == Ok::<Seq<u8>, CryptorError>(p@))
            &&& (r matches Err(e) ==> parsed == Err::<Seq<u8>, CryptorError>(e) || (e
                == CryptorError::Cryptography && spec_parse_stream_header(stream@) is Ok))
            &&& (spec_parse_stream_header(stream@) matches Err(pe) ==> (r matches Err(e) && e
                == pe))
        }),
{
    let (header, n) = match StreamHeader::read_from(stream) {
        Ok(hn) => hn,
        Err(e) => {
            return Err(e);
        },
    };
    let key = match derive_key(
        password,
        header.salt.as_str().as_bytes(),
        kdf_config.memory_cost,
        kdf_config.time_cost,
        1,
    ) {
        Ok(k) => k,
        Err(e) => {
            return Err(e);
        },
    };
    decode_chunks(stream, n, &key, &header.base_nonce, header.total_chunks)
}

} // verus!
