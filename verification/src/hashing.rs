//! Hashing traits and the default SHA3-256 hash function.
//!
//! A `HashFunction` absorbs byte strings through `update` and produces a
//! 32-byte digest of everything absorbed since the last digest. Calling
//! `digest` before any `update` is an error.

use vstd::prelude::*;

use crate::bytes::StdByteArray;
use crate::crypto::{sha3_256, sha3_256_digest};

verus! {

/// The error returned when a digest is requested before any data was given.
#[derive(Debug, Clone, Copy, PartialEq, Eq)]
pub enum HashError {
    /// `digest` was called without a prior `update`.
    NoData,
}

/// A hash function that can be fed data and finalized into a digest.
pub trait HashFunction: Sized {
    /// The bytes absorbed since the last successful digest.
    spec fn absorbed(&self) -> Seq<u8>;

    /// Whether `update` was called since the last successful digest.
    spec fn started(&self) -> bool;

    /// The digest that this hash function computes of a byte string.
    spec fn digest_of(data: Seq<u8>) -> Seq<u8>;

    /// Absorbs `data`.
    fn update(&mut self, data: &[u8])
        ensures
            final(self).absorbed() == old(self).absorbed() + data@,
            final(self).started(),
    ;

    /// Produces the digest of the absorbed bytes and resets the function.
    /// Fails, leaving the function unchanged, when nothing was absorbed.
    fn digest(&mut self) -> (r: Result<StdByteArray, HashError>)
        ensures
            !old(self).started() ==> r == Err::<StdByteArray, HashError>(HashError::NoData)
                && final(self).absorbed() == old(self).absorbed() && !final(self).started(),
            old(self).started() ==> (r matches Ok(h) && h@ == Self::digest_of(old(self).absorbed())),
            old(self).started() ==> final(self).absorbed() == Seq::<u8>::empty()
                && !final(self).started(),
    ;
}

/// The SHA3-256 hash function.
///
/// It buffers the absorbed bytes and hashes them in one call when a digest
/// is requested; SHA3-256 of the concatenation is what a streaming hasher
/// produces as well.
pub struct DefaultHash {
    data: Vec<u8>,
    n_parameters: usize,
}

impl DefaultHash {
    /// The bytes absorbed since the last digest.
    pub closed spec fn buffered(&self) -> Seq<u8> {
        self.data@
    }

    /// The number of `update` calls since the last digest (saturating).
    pub closed spec fn n_updates(&self) -> nat {
        self.n_parameters as nat
    }

    /// Creates a fresh SHA3-256 hash function with nothing absorbed.
    pub fn new() -> (r: Self)
        ensures
            r.absorbed() == Seq::<u8>::empty(),
            !r.started(),
    {
        DefaultHash { data: Vec::new(), n_parameters: 0 }
    }
}

impl HashFunction for DefaultHash {
    open spec fn absorbed(&self) -> Seq<u8> {
        self.buffered()
    }

    open spec fn started(&self) -> bool {
        self.n_updates() > 0
    }

    open spec fn digest_of(data: Seq<u8>) -> Seq<u8> {
        sha3_256_digest(data)
    }

    fn update(&mut self, data: &[u8]) {
        crate::bytes::extend_bytes(&mut self.data, data);
        self.n_parameters = self.n_parameters.saturating_add(1);
    }

    fn digest(&mut self) -> (r: Result<StdByteArray, HashError>) {
        if self.n_parameters == 0 {
            return Err(HashError::NoData);
        }
        let h = sha3_256(self.data.as_slice());
        self.data = Vec::new();
        self.n_parameters = 0;
        Ok(h)
    }
}

impl Clone for DefaultHash {
    fn clone(&self) -> (r: Self)
        ensures
            r.absorbed() == self.absorbed(),
            r.started() == self.started(),
    {
        DefaultHash { data: self.data.clone(), n_parameters: self.n_parameters }
    }
}

/// An object that can be hashed with a `HashFunction`.
pub trait Hashable {
    /// The bytes that hashing this object feeds to the hash function, or
    /// `None` when the object cannot be hashed.
    spec fn hash_input(&self) -> Option<Seq<u8>>;

    /// Hashes the object: absorbs its bytes and returns the digest.
    fn hash<H: HashFunction>(&self, hasher: &mut H) -> (r: Result<StdByteArray, HashError>)
        ensures
            self.hash_input() is None ==> r is Err && final(hasher).absorbed() == old(
                hasher,
            ).absorbed() && final(hasher).started() == old(hasher).started(),
            self.hash_input() is Some ==> (r matches Ok(h) && h@ == H::digest_of(
                old(hasher).absorbed() + self.hash_input()->0,
            )),
            self.hash_input() is Some ==> final(hasher).absorbed() == Seq::<u8>::empty()
                && !final(hasher).started(),
    ;
}

/// Absorbs `data` and immediately takes the digest.
pub fn update_and_digest<H: HashFunction>(hasher: &mut H, data: &[u8]) -> (r: StdByteArray)
    ensures
        r@ == H::digest_of(old(hasher).absorbed() + data@),
        final(hasher).absorbed() == Seq::<u8>::empty(),
        !final(hasher).started(),
{
    hasher.update(data);
    match hasher.digest() {
        Ok(h) => h,
        Err(_) => [0u8; 32],
    }
}

impl Hashable for [u8; 32] {
    open spec fn hash_input(&self) -> Option<Seq<u8>> {
        Some(self@)
    }

    fn hash<H: HashFunction>(&self, hasher: &mut H) -> (r: Result<StdByteArray, HashError>) {
        Ok(update_and_digest(hasher, self.as_slice()))
    }
}

impl Hashable for Vec<u8> {
    open spec fn hash_input(&self) -> Option<Seq<u8>> {
        Some(self@)
    }

    fn hash<H: HashFunction>(&self, hasher: &mut H) -> (r: Result<StdByteArray, HashError>) {
        Ok(update_and_digest(hasher, self.as_slice()))
    }
}

impl<'a> Hashable for &'a str {
    open spec fn hash_input(&self) -> Option<Seq<u8>> {
        Some(vstd::utf8::encode_utf8((**self)@))
    }

    fn hash<H: HashFunction>(&self, hasher: &mut H) -> (r: Result<StdByteArray, HashError>) {
        Ok(update_and_digest(hasher, self.as_bytes()))
    }
}

impl Hashable for String {
    open spec fn hash_input(&self) -> Option<Seq<u8>> {
        Some(vstd::utf8::encode_utf8(self@))
    }

    fn hash<H: HashFunction>(&self, hasher: &mut H) -> (r: Result<StdByteArray, HashError>) {
        Ok(update_and_digest(hasher, self.as_str().as_bytes()))
    }
}

} // verus!
