//! Password-based authenticated encryption for files and encrypted block
//! volumes.
//!
//! The crate defines two binary containers and the rules that govern them:
//!
//! * a chunked streaming container (format `SCRYPTv2`) that encrypts inputs
//!   of any size chunk by chunk, each chunk under its own derived nonce;
//! * a fixed 4096-byte volume header (`SECVOL01`) that describes an
//!   encrypted block volume.
//!
//! Byte layouts are stated as specification functions, and the encoders,
//! decoders and parsers are proved against them. The cryptographic
//! primitives (Argon2id key derivation, AES-256-GCM) are called through
//! narrow trusted wrappers in [`primitives`].

pub mod errors;
pub mod primitives;
pub mod streaming;
pub mod codec;
pub mod volume;
pub mod envelope;
