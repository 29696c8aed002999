//! The crate-wide error type.
use vstd::prelude::*;

verus! {

/// All fallible operations of the library surface an [`AuraError`].
#[derive(Debug, Clone, PartialEq, Eq)]
pub enum AuraError {
    /// The file does not begin with the `AURA` magic bytes.
    BadMagic { expected: [u8; 4], found: [u8; 4] },
    /// The file uses a major version this implementation cannot read.
    UnsupportedVersion(u16, u16),
    /// A record section referenced an unknown type tag.
    UnknownRecord(u8),
    /// A required section was absent from the file header.
    MissingSection(u8),
    /// The trailing CRC-32 did not match the computed checksum.
    ChecksumMismatch { stored: u32, computed: u32 },
    /// The SHA-3 content hash did not match the stored footer hash.
    HashMismatch,
    /// The cryptographic trust seal was broken (chain verification failed).
    TrustSealBroken(String),
    /// An ed25519 signature failed to verify.
    SignatureInvalid,
    /// A key or signature buffer had the wrong length (or was not a valid key).
    InvalidLength,
    /// A semantic graph contained a cycle where a DAG was required.
    CycleDetected,
    /// The reader ran past the end of the buffer.
    UnexpectedEof,
    /// A length-prefixed string was not valid UTF-8.
    Utf8,
    /// A feature-gated capability (e.g. Tier-1 reconstruction) is unavailable.
    Unsupported(String),
}

} // verus!
