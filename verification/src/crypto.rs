//! The cryptographic primitives the provenance chain rests on: SHA-3-256
//! (from the `sha3` crate) and ed25519 (from `ed25519-dalek`).
//!
//! Each function here calls the outside crate and is trusted: Verus believes
//! its contract without reading its body. The results of the hash and of the
//! signature operations are functions of their arguments alone; they are
//! given names (`spec_sha3_256`, `spec_ed25519_public`, `spec_ed25519_sign`,
//! `spec_ed25519_key_valid`, `spec_ed25519_verify`) instead of being written
//! out, so every contract of the library that speaks of a hash or a
//! signature speaks of these names.
use ed25519_dalek::{Signer, Verifier};
use sha3::Digest;
use vstd::prelude::*;

verus! {

/// The SHA-3-256 digest of a byte sequence.
pub uninterp spec fn spec_sha3_256(data: Seq<u8>) -> Seq<u8>;

/// The compressed ed25519 public key of a 32-byte secret key.
pub uninterp spec fn spec_ed25519_public(secret: Seq<u8>) -> Seq<u8>;

/// The (deterministic) ed25519 signature of `msg` under a 32-byte secret key.
pub uninterp spec fn spec_ed25519_sign(secret: Seq<u8>, msg: Seq<u8>) -> Seq<u8>;

/// Whether 32 bytes decompress to a point usable as an ed25519 public key.
pub uninterp spec fn spec_ed25519_key_valid(public: Seq<u8>) -> bool;

/// Whether `public` is a valid key and `sig` is an accepted ed25519 signature
/// of `msg` under it.
pub uninterp spec fn spec_ed25519_verify(public: Seq<u8>, msg: Seq<u8>, sig: Seq<u8>) -> bool;

/// SHA-3-256 of an arbitrary byte slice (`sha3::Sha3_256`: `new`, `update`,
/// `finalize`). Claimed: the digest is `spec_sha3_256` of the input.
#[verifier::external_body]
pub fn sha3_256(data: &[u8]) -> (h: [u8; 32])
    ensures
        h@ == spec_sha3_256(data@),
{
    let mut hasher = sha3::Sha3_256::new();
    hasher.update(data);
    let out = hasher.finalize();
    let mut a = [0u8; 32];
    a.copy_from_slice(&out);
    a
}

/// `ed25519_dalek::SigningKey::from_bytes(secret).verifying_key().to_bytes()`.
/// Claimed: the result is `spec_ed25519_public(secret)`, and it is a valid
/// public key (it is the compression of a curve point, so
/// `VerifyingKey::from_bytes` accepts it).
#[verifier::external_body]
pub(crate) fn ed25519_public(secret: &[u8; 32]) -> (pk: [u8; 32])
    ensures
        pk@ == spec_ed25519_public(secret@),
        spec_ed25519_key_valid(pk@),
{
    ed25519_dalek::SigningKey::from_bytes(secret).verifying_key().to_bytes()
}

/// `ed25519_dalek::SigningKey::from_bytes(secret).sign(msg).to_bytes()`.
/// Claimed: the result is `spec_ed25519_sign(secret, msg)`, and verifying it
/// with the public key of the same secret accepts it (ed25519 signing is
/// deterministic and a signature made with a key verifies under that key's
/// public half).
#[verifier::external_body]
pub(crate) fn ed25519_sign(secret: &[u8; 32], msg: &[u8]) -> (sig: [u8; 64])
    ensures
        sig@ == spec_ed25519_sign(secret@, msg@),
        spec_ed25519_verify(spec_ed25519_public(secret@), msg@, sig@),
{
    ed25519_dalek::SigningKey::from_bytes(secret).sign(msg).to_bytes()
}

/// `ed25519_dalek::VerifyingKey::from_bytes(public).is_ok()`. Claimed: the
/// result is `spec_ed25519_key_valid(public)`.
#[verifier::external_body]
pub(crate) fn ed25519_key_valid(public: &[u8; 32]) -> (b: bool)
    ensures
        b == spec_ed25519_key_valid(public@),
{
    ed25519_dalek::VerifyingKey::from_bytes(public).is_ok()
}

/// `VerifyingKey::from_bytes(public)` followed by `Verifier::verify(msg,
/// Signature::from_bytes(sig))`. Claimed: the result is
/// `spec_ed25519_verify(public, msg, sig)`.
#[verifier::external_body]
pub(crate) fn ed25519_verify(public: &[u8; 32], msg: &[u8], sig: &[u8; 64]) -> (b: bool)
    ensures
        b == spec_ed25519_verify(public@, msg@, sig@),
{
    match ed25519_dalek::VerifyingKey::from_bytes(public) {
        Ok(vk) => vk.verify(msg, &ed25519_dalek::Signature::from_bytes(sig)).is_ok(),
        Err(_) => false,
    }
}

} // verus!
