//! Error kinds surfaced by the streaming container.

use vstd::prelude::*;

verus! {

/// What went wrong during a streaming encode or decode.
///
/// Every operation aborts on its first error; there is no partial success.
#[derive(Clone, Copy, Debug, PartialEq, Eq, Structural)]
pub enum CryptorError {
    /// Malformed container: wrong magic or version, a chunk out of order,
    /// text that is not UTF-8, or trailing bytes after the last chunk.
    InvalidFormat,
    /// A cryptographic step failed: key derivation, random generation,
    /// AEAD authentication, or a configuration out of bounds.
    Cryptography,
    /// The input ended before a required field or payload was complete.
    Io,
}

} // verus!
