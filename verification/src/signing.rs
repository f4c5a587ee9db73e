//! Signing and verification abstractions with ed25519 defaults.

use vstd::prelude::*;

use crate::bytes::StdByteArray;
use crate::crypto::{
    ed25519_public_key, ed25519_public_of, ed25519_random_secret, ed25519_sign,
    ed25519_signature, ed25519_verifies, ed25519_verify,
};

verus! {

/// An object that can be signed: it exposes the bytes that a signature covers.
pub trait Signable {
    /// The bytes that a signature over this object covers.
    spec fn signing_bytes(&self) -> Seq<u8>;

    /// Returns the bytes that a signature over this object covers.
    fn get_signing_bytes(&self) -> (r: Vec<u8>)
        ensures
            r@ == self.signing_bytes(),
    ;
}

/// A signing function: it holds a secret and signs `Signable` objects.
pub trait SigFunction: Sized {
    /// The secret key bytes of the signing function.
    spec fn secret(&self) -> Seq<u8>;

    /// Signs the signing bytes of `data`.
    fn sign<T: Signable>(&mut self, data: &T) -> (r: [u8; 64])
        ensures
            r@ == ed25519_signature(old(self).secret(), data.signing_bytes()),
            final(self).secret() == old(self).secret(),
    ;

    /// The byte representation of the signing function (its secret key).
    fn to_bytes(&self) -> (r: StdByteArray)
        ensures
            r@ == self.secret(),
    ;

    /// The function that verifies this function's signatures.
    fn get_verifying_function(&self) -> (r: DefaultVerifier)
        ensures
            r.public_key@ == ed25519_public_of(self.secret()),
    ;

    /// A signing function with a fresh random secret.
    fn generate_random() -> Self;
}

/// A verifying function for signatures over `Signable` objects.
pub trait SigVerFunction: Sized {
    /// The public key bytes of the verifying function.
    spec fn public(&self) -> Seq<u8>;

    /// Whether `signature` is valid over the signing bytes of `target`.
    fn verify<T: Signable>(&self, signature: &[u8; 64], target: &T) -> (r: bool)
        ensures
            r == ed25519_verifies(self.public(), target.signing_bytes(), signature@),
    ;

    /// The byte representation of the verifying function (its public key).
    fn to_bytes(&self) -> (r: StdByteArray)
        ensures
            r@ == self.public(),
    ;

    /// The verifying function of the public key `bytes`.
    fn from_bytes(bytes: &StdByteArray) -> (r: Self)
        ensures
            r.public() == bytes@,
    ;
}

/// The default signer: an ed25519 secret key.
pub struct DefaultSigner {
    pub private_key: StdByteArray,
}

/// The default verifier: an ed25519 public key.
pub struct DefaultVerifier {
    pub public_key: StdByteArray,
}

impl DefaultVerifier {
    /// The verifier of the public key `public_key`.
    pub fn new(public_key: StdByteArray) -> (r: Self)
        ensures
            r.public_key == public_key,
    {
        DefaultVerifier { public_key }
    }
}

impl DefaultSigner {
    /// The signer of the secret key `private_key`.
    pub fn new(private_key: StdByteArray) -> (r: Self)
        ensures
            r.private_key == private_key,
    {
        DefaultSigner { private_key }
    }
}

impl SigFunction for DefaultSigner {
    open spec fn secret(&self) -> Seq<u8> {
        self.private_key@
    }

    fn sign<T: Signable>(&mut self, data: &T) -> (r: [u8; 64]) {
        let bytes = data.get_signing_bytes();
        ed25519_sign(&self.private_key, bytes.as_slice())
    }

    fn to_bytes(&self) -> (r: StdByteArray) {
        self.private_key
    }

    fn get_verifying_function(&self) -> (r: DefaultVerifier) {
        DefaultVerifier::new(ed25519_public_key(&self.private_key))
    }

    fn generate_random() -> Self {
        DefaultSigner { private_key: ed25519_random_secret() }
    }
}

impl SigVerFunction for DefaultVerifier {
    open spec fn public(&self) -> Seq<u8> {
        self.public_key@
    }

    fn verify<T: Signable>(&self, signature: &[u8; 64], target: &T) -> (r: bool) {
        let bytes = target.get_signing_bytes();
        ed25519_verify(&self.public_key, bytes.as_slice(), signature)
    }

    fn to_bytes(&self) -> (r: StdByteArray) {
        self.public_key
    }

    fn from_bytes(bytes: &StdByteArray) -> (r: Self) {
        DefaultVerifier::new(*bytes)
    }
}

} // verus!
