//! The cryptographic primitives that this library takes from outside crates:
//! SHA3-256 from `sha3` and ed25519 from `ed25519-dalek`.

use vstd::prelude::*;
use sha3::Digest;
use ed25519_dalek::Signer;

verus! {

/// The SHA3-256 digest of a byte string, as computed by the `sha3` crate.
pub uninterp spec fn sha3_256_digest(data: Seq<u8>) -> Seq<u8>;

/// Calls `sha3::Sha3_256::digest` on `data`; the contract claims that the
/// 32 bytes returned are the SHA3-256 digest of exactly the bytes given.
#[verifier::external_body]
pub(crate) fn sha3_256(data: &[u8]) -> (r: [u8; 32])
    ensures
        r@ == sha3_256_digest(data@),
{
    sha3::Sha3_256::digest(data).into()
}

/// Whether `signature` is a valid ed25519 signature by the public key `public_key`
/// over `message`, under `ed25519-dalek`'s strict verification; false when the
/// public key does not decode to a curve point.
pub uninterp spec fn ed25519_verifies(public_key: Seq<u8>, message: Seq<u8>, signature: Seq<u8>) -> bool;

/// The ed25519 signature that the secret key `secret_key` makes over `message`
/// (ed25519 signing is deterministic).
pub uninterp spec fn ed25519_signature(secret_key: Seq<u8>, message: Seq<u8>) -> Seq<u8>;

/// The ed25519 public key that belongs to the secret key `secret_key`.
pub uninterp spec fn ed25519_public_of(secret_key: Seq<u8>) -> Seq<u8>;

/// Decodes `public_key` with `VerifyingKey::from_bytes` and checks `signature`
/// over `message` with `VerifyingKey::verify_strict`; the contract claims the
/// answer is the named strict-verification predicate of the three byte strings,
/// false when the key does not decode.
#[verifier::external_body]
pub(crate) fn ed25519_verify(public_key: &[u8; 32], message: &[u8], signature: &[u8; 64]) -> (r: bool)
    ensures
        r == ed25519_verifies(public_key@, message@, signature@),
{
    match ed25519_dalek::VerifyingKey::from_bytes(public_key) {
        Ok(key) => key.verify_strict(message, &ed25519_dalek::Signature::from_bytes(signature)).is_ok(),
        Err(_) => false,
    }
}

/// Signs `message` with `SigningKey::from_bytes(secret_key)` through `Signer::sign`;
/// the contract claims the 64 bytes are the named deterministic signature.
#[verifier::external_body]
pub(crate) fn ed25519_sign(secret_key: &[u8; 32], message: &[u8]) -> (r: [u8; 64])
    ensures
        r@ == ed25519_signature(secret_key@, message@),
{
    ed25519_dalek::SigningKey::from_bytes(secret_key).sign(message).to_bytes()
}

/// Derives the public key with `SigningKey::from_bytes(..).verifying_key().to_bytes()`;
/// the contract claims the result is the named public key of the secret key.
#[verifier::external_body]
pub(crate) fn ed25519_public_key(secret_key: &[u8; 32]) -> (r: [u8; 32])
    ensures
        r@ == ed25519_public_of(secret_key@),
{
    ed25519_dalek::SigningKey::from_bytes(secret_key).verifying_key().to_bytes()
}

/// Draws a fresh secret key with `SigningKey::generate(&mut OsRng)`; the key is
/// random, so nothing is promised of its bytes.
#[verifier::external_body]
pub(crate) fn ed25519_random_secret() -> (r: [u8; 32]) {
    ed25519_dalek::SigningKey::generate(&mut rand_core::OsRng).to_bytes()
}

} // verus!
