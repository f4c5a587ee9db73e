//! Encrypted channels between peers: an x25519 key exchange, a key derived
//! from the shared secret with HKDF over SHA3-256, and ChaCha20-Poly1305 for
//! the messages.
//!
//! One side initiates (and later hydrates with the other side's public key),
//! the other joins with the initiator's public key. A message on the wire is
//! the 12-byte nonce followed by the ciphertext and its 16-byte tag.

use vstd::prelude::*;
use chacha20poly1305::aead::{Aead, KeyInit};
use chacha20poly1305::AeadCore;

use crate::bytes::StdByteArray;

verus! {

/// The length of a ChaCha20-Poly1305 nonce.
pub const NONCE_LENGTH: usize = 12;

/// The length of a ChaCha20-Poly1305 authentication tag.
pub const TAG_LENGTH: usize = 16;

/// Messages from this length on are refused by ChaCha20-Poly1305 (its block
/// counter would overflow).
pub const MAX_MESSAGE_LENGTH: u64 = 274877906880;

/// What the bare X25519 function of RFC 7748 gives for the scalar `k` and
/// the u-coordinate `u`, as `x25519_dalek::x25519` computes it.
pub uninterp spec fn x25519_function(k: Seq<u8>, u: Seq<u8>) -> Seq<u8>;

/// The X25519 basepoint: u-coordinate 9.
pub open spec fn x25519_basepoint() -> Seq<u8> {
    seq![9u8] + Seq::new(31, |i: int| 0u8)
}

/// The x25519 public key of the secret `secret`.
pub open spec fn x25519_public_of(secret: Seq<u8>) -> Seq<u8> {
    x25519_function(secret, x25519_basepoint())
}

/// The channel key that the secret `secret` derives with the remote public
/// key `remote`: HKDF of their x25519 shared secret.
pub open spec fn derived_key(secret: Seq<u8>, remote: Seq<u8>) -> Seq<u8> {
    hkdf_sha3_256_key(x25519_function(secret, remote))
}

/// The key that HKDF over SHA3-256 derives, with no salt and no info, from
/// the input key material `ikm`.
pub uninterp spec fn hkdf_sha3_256_key(ikm: Seq<u8>) -> Seq<u8>;

/// The ChaCha20-Poly1305 ciphertext (with its tag) of `message` under `key`
/// and `nonce`, with no associated data.
pub uninterp spec fn chacha20poly1305_seal(key: Seq<u8>, nonce: Seq<u8>, message: Seq<u8>) -> Seq<u8>;

/// What ChaCha20-Poly1305 decryption of `ciphertext` under `key` and `nonce`
/// gives: the plaintext, or `None` when the ciphertext is not authentic.
pub uninterp spec fn chacha20poly1305_open(key: Seq<u8>, nonce: Seq<u8>, ciphertext: Seq<u8>) -> Option<Seq<u8>>;

/// The bytes of an optional buffer.
pub open spec fn bytes_of(o: Option<Vec<u8>>) -> Option<Seq<u8>> {
    match o {
        Some(v) => Some(v@),
        None => None,
    }
}

/// Fills 32 bytes from the operating system's random source with
/// `RngCore::fill_bytes` on `OsRng`, as `EphemeralSecret::random_from_rng`
/// does; the bytes are random, so nothing is promised of them.
#[verifier::external_body]
fn random_secret() -> (r: [u8; 32]) {
    let mut bytes = [0u8; 32];
    rand_core::RngCore::fill_bytes(&mut rand_core::OsRng, &mut bytes);
    bytes
}

/// Calls `x25519_dalek::x25519`, the bare X25519 function of RFC 7748. The
/// contract claims the named result, and the Diffie-Hellman agreement that
/// the function's documentation and RFC 7748 (section 6.1) show: when `u` is
/// the public key of a secret `b`, the result is what `b` gives with the
/// public key of `k`.
#[verifier::external_body]
fn x25519(k: &[u8; 32], u: &[u8; 32]) -> (r: [u8; 32])
    ensures
        r@ == x25519_function(k@, u@),
        forall|b: Seq<u8>|
            b.len() == 32 && u@ == #[trigger] x25519_public_of(b) ==> r@ == x25519_function(b, x25519_public_of(k@)),
{
    x25519_dalek::x25519(*k, *u)
}

/// The X25519 basepoint as bytes.
fn basepoint() -> (r: [u8; 32])
    ensures
        r@ == x25519_basepoint(),
{
    let mut b = [0u8; 32];
    b[0] = 9;
    assert(b@ =~= x25519_basepoint());
    b
}

/// Derives a 32-byte key with `Hkdf::<Sha3_256>::new(None, ikm)` and
/// `expand` with empty info; the contract claims the named HKDF key of the
/// input. Expanding to 32 bytes never fails (the limit is 255 hash lengths).
#[verifier::external_body]
fn hkdf_derive_key(ikm: &[u8; 32]) -> (r: [u8; 32])
    ensures
        r@ == hkdf_sha3_256_key(ikm@),
{
    let mut okm = [0u8; 32];
    match hkdf::Hkdf::<sha3::Sha3_256>::new(None, ikm).expand(&[], &mut okm) {
        Ok(()) => okm,
        Err(_) => okm,
    }
}

/// Draws a nonce with `ChaCha20Poly1305::generate_nonce(&mut OsRng)`; it is
/// random, so nothing is promised of it.
#[verifier::external_body]
fn chacha20poly1305_random_nonce() -> (r: [u8; 12]) {
    chacha20poly1305::ChaCha20Poly1305::generate_nonce(&mut rand_core::OsRng).into()
}

/// Encrypts with `ChaCha20Poly1305::new(key).encrypt(nonce, message)`. The
/// contract claims that it fails exactly on messages too long for the block
/// counter, and otherwise gives the named ciphertext, 16 bytes longer than
/// the message.
#[verifier::external_body]
fn chacha20poly1305_encrypt(key: &[u8; 32], nonce: &[u8; 12], message: &[u8]) -> (r: Option<Vec<u8>>)
    ensures
        r is Some <==> message@.len() < MAX_MESSAGE_LENGTH,
        r matches Some(c) ==> c@ == chacha20poly1305_seal(key@, nonce@, message@) && c@.len() == message@.len()
            + TAG_LENGTH,
{
    let cipher = chacha20poly1305::ChaCha20Poly1305::new(chacha20poly1305::Key::from_slice(key));
    match cipher.encrypt(chacha20poly1305::Nonce::from_slice(nonce), message) {
        Ok(c) => Some(c),
        Err(_) => None,
    }
}

/// Decrypts with `ChaCha20Poly1305::new(key).decrypt(nonce, ciphertext)`. The
/// contract claims the named result, `None` for a ciphertext shorter than the
/// tag, and that a ciphertext made by encryption under the same key and
/// nonce decrypts to its message.
#[verifier::external_body]
fn chacha20poly1305_decrypt(key: &[u8; 32], nonce: &[u8; 12], ciphertext: &[u8]) -> (r: Option<Vec<u8>>)
    ensures
        bytes_of(r) == chacha20poly1305_open(key@, nonce@, ciphertext@),
        ciphertext@.len() < TAG_LENGTH ==> r is None,
        forall|m: Seq<u8>|
            m.len() < MAX_MESSAGE_LENGTH && ciphertext@ == #[trigger] chacha20poly1305_seal(key@, nonce@, m) ==> bytes_of(
                r,
            ) == Some(m),
{
    let cipher = chacha20poly1305::ChaCha20Poly1305::new(chacha20poly1305::Key::from_slice(key));
    match cipher.decrypt(chacha20poly1305::Nonce::from_slice(nonce), ciphertext) {
        Ok(p) => Some(p),
        Err(_) => None,
    }
}

/// An x25519 key pair: a secret and its public key.
pub struct KeyPair {
    pub public_key: StdByteArray,
    pub private_key: [u8; 32],
}

/// Draws a fresh x25519 key pair: a random secret and its public key.
pub fn generate_public_private_keypair() -> (r: KeyPair)
    ensures
        r.public_key@ == x25519_public_of(r.private_key@),
{
    let private_key = random_secret();
    let public_key = x25519(&private_key, &basepoint());
    KeyPair { public_key, private_key }
}

/// Why an encryption operation failed.
#[derive(Debug, Clone, Copy, PartialEq, Eq)]
pub enum EncryptionError {
    /// No cipher yet: join or hydrate first.
    CipherNotEstablished,
    /// The exchange is already complete, or the secret is gone.
    AlreadyEstablished,
    /// The ciphertext is too short to hold a nonce.
    CiphertextTooShort,
    /// The cipher refused: an unauthentic ciphertext, or a message too long.
    CipherFailure,
}

/// Where an exchange stands.
pub enum SecretState {
    /// Initiated: the secret waits for the remote public key.
    Initiator([u8; 32]),
    /// Established: the key of the channel.
    Joined(StdByteArray),
    /// The secret was used up without establishing a key.
    Empty,
}

/// One side of an encrypted channel.
pub struct PillarSharedSecret {
    /// This side's x25519 public key.
    pub public: StdByteArray,
    /// Where the exchange stands.
    pub state: SecretState,
}

/// The wire form of an encrypted message: nonce, then ciphertext and tag.
pub open spec fn sealed_message(key: Seq<u8>, nonce: Seq<u8>, message: Seq<u8>) -> Seq<u8> {
    nonce + chacha20poly1305_seal(key, nonce, message)
}

/// `s` joined the exchange that the public key `remote` initiated: for some
/// secret `b`, its public key is `b`'s and its channel key is the one `b`
/// derives with `remote`.
pub open spec fn joined_with(s: PillarSharedSecret, remote: Seq<u8>) -> bool {
    exists|b: Seq<u8>|
        b.len() == 32 && s.public@ == #[trigger] x25519_public_of(b) && s.channel_key() == Some(derived_key(b, remote))
}

/// `s` initiated an exchange: it holds a secret, and its public key is that
/// secret's.
pub open spec fn initiated(s: PillarSharedSecret) -> bool {
    s.state matches SecretState::Initiator(a) && s.public@ == x25519_public_of(a@)
}

/// `after` completed the exchange that `before` initiated with the remote
/// public key `remote`: for every secret `b` whose public key is `remote`, the
/// channel key is the one `b` derives with the public key of `before`'s
/// secret.
pub open spec fn hydrated_with(before: PillarSharedSecret, after: PillarSharedSecret, remote: Seq<u8>) -> bool {
    &&& after.public == before.public
    &&& before.state matches SecretState::Initiator(a) && forall|b: Seq<u8>|
        b.len() == 32 && remote == #[trigger] x25519_public_of(b) ==> after.channel_key() == Some(
            derived_key(b, x25519_public_of(a@)),
        )
}

/// Both sides of an exchange hold the same channel key: when `alice_before`
/// initiated an exchange, `bob` joined it with `alice_before`'s public key,
/// and `alice` is `alice_before` hydrated with `bob`'s public key.
pub proof fn lemma_channel_keys_agree(
    alice_before: PillarSharedSecret,
    alice: PillarSharedSecret,
    bob: PillarSharedSecret,
)
    requires
        initiated(alice_before),
        joined_with(bob, alice_before.public@),
        hydrated_with(alice_before, alice, bob.public@),
    ensures
        alice.channel_key() is Some,
        alice.channel_key() == bob.channel_key(),
{
    let b = choose|b: Seq<u8>|
        b.len() == 32 && bob.public@ == #[trigger] x25519_public_of(b) && bob.channel_key() == Some(
            derived_key(b, alice_before.public@),
        );
    assert(alice.channel_key() == Some(derived_key(b, alice_before.public@)));
}

impl PillarSharedSecret {
    /// The key of the channel, once established.
    pub open spec fn channel_key(&self) -> Option<Seq<u8>> {
        match self.state {
            SecretState::Joined(k) => Some(k@),
            _ => None,
        }
    }

    /// Starts an exchange with a fresh secret; `hydrate` completes it.
    pub fn initiate() -> (r: Self)
        ensures
            initiated(r),
    {
        let keypair = generate_public_private_keypair();
        PillarSharedSecret { public: keypair.public_key, state: SecretState::Initiator(keypair.private_key) }
    }

    /// Joins the exchange that `remote_public` initiated: the channel key is
    /// derived at once.
    pub fn join(remote_public: StdByteArray) -> (r: Result<Self, EncryptionError>)
        ensures
            r matches Ok(s) && s.state is Joined && joined_with(s, remote_public@),
    {
        let keypair = generate_public_private_keypair();
        let shared = x25519(&keypair.private_key, &remote_public);
        let key = hkdf_derive_key(&shared);
        Ok(PillarSharedSecret { public: keypair.public_key, state: SecretState::Joined(key) })
    }

    /// Completes an initiated exchange with the remote public key. Fails when
    /// the exchange was not in the initiated state; the state is then
    /// emptied.
    pub fn hydrate(&mut self, remote_public: StdByteArray) -> (r: Result<(), EncryptionError>)
        ensures
            final(self).public == old(self).public,
            r is Ok <==> old(self).state is Initiator,
            r is Ok ==> final(self).state is Joined,
            r is Ok ==> (old(self).state matches SecretState::Initiator(a) && final(self).channel_key() == Some(
                derived_key(a@, remote_public@),
            )),
            r is Ok ==> hydrated_with(*old(self), *final(self), remote_public@),
            r is Err ==> r == Err::<(), EncryptionError>(EncryptionError::AlreadyEstablished)
                && final(self).state is Empty,
    {
        let mut state = SecretState::Empty;
        std::mem::swap(&mut state, &mut self.state);
        match state {
            SecretState::Initiator(secret) => {
                let shared = x25519(&secret, &remote_public);
                let key = hkdf_derive_key(&shared);
                self.state = SecretState::Joined(key);
                Ok(())
            },
            _ => Err(EncryptionError::AlreadyEstablished),
        }
    }

    /// Whether the channel key is established.
    pub fn is_joined(&self) -> (r: bool)
        ensures
            r == self.channel_key() is Some,
    {
        match &self.state {
            SecretState::Joined(_) => true,
            _ => false,
        }
    }

    /// Encrypts `plaintext` under a fresh random nonce: the nonce, then the
    /// ciphertext with its tag.
    pub fn encrypt(&self, plaintext: &[u8]) -> (r: Result<Vec<u8>, EncryptionError>)
        ensures
            self.channel_key() is None ==> r == Err::<Vec<u8>, EncryptionError>(
                EncryptionError::CipherNotEstablished,
            ),
            self.channel_key() is Some ==> (r is Ok <==> plaintext@.len() < MAX_MESSAGE_LENGTH),
            self.channel_key() is Some && r is Err ==> r == Err::<Vec<u8>, EncryptionError>(
                EncryptionError::CipherFailure,
            ),
            r matches Ok(v) ==> {
                &&& v@.len() == NONCE_LENGTH + plaintext@.len() + TAG_LENGTH
                &&& v@ == sealed_message(self.channel_key()->0, v@.subrange(0, NONCE_LENGTH as int), plaintext@)
            },
    {
        let key = match &self.state {
            SecretState::Joined(k) => *k,
            _ => {
                return Err(EncryptionError::CipherNotEstablished);
            },
        };
        let nonce = chacha20poly1305_random_nonce();
        let sealed = match chacha20poly1305_encrypt(&key, &nonce, plaintext) {
            Some(c) => c,
            None => {
                return Err(EncryptionError::CipherFailure);
            },
        };
        let mut payload: Vec<u8> = Vec::new();
        crate::bytes::extend_bytes(&mut payload, nonce.as_slice());
        crate::bytes::extend_bytes(&mut payload, sealed.as_slice());
        proof {
            assert(payload@.subrange(0, NONCE_LENGTH as int) =~= nonce@);
            assert(payload@ =~= nonce@ + sealed@);
        }
        Ok(payload)
    }

    /// Decrypts a message made by `encrypt` on the other side: splits off the
    /// nonce and opens the rest.
    pub fn decrypt(&self, ciphertext: &[u8]) -> (r: Result<Vec<u8>, EncryptionError>)
        ensures
            self.channel_key() is None ==> r == Err::<Vec<u8>, EncryptionError>(
                EncryptionError::CipherNotEstablished,
            ),
            self.channel_key() is Some && ciphertext@.len() < NONCE_LENGTH ==> r == Err::<
                Vec<u8>,
                EncryptionError,
            >(EncryptionError::CiphertextTooShort),
            self.channel_key() is Some && ciphertext@.len() >= NONCE_LENGTH ==> match chacha20poly1305_open(
                self.channel_key()->0,
                ciphertext@.subrange(0, NONCE_LENGTH as int),
                ciphertext@.subrange(NONCE_LENGTH as int, ciphertext@.len() as int),
            ) {
                Some(p) => r matches Ok(v) && v@ == p,
                None => r == Err::<Vec<u8>, EncryptionError>(EncryptionError::CipherFailure),
            },
            forall|n: Seq<u8>, m: Seq<u8>|
                #![trigger sealed_message(self.channel_key()->0, n, m)]
                self.channel_key() is Some && n.len() == NONCE_LENGTH && m.len() < MAX_MESSAGE_LENGTH
                    && ciphertext@ == sealed_message(self.channel_key()->0, n, m) ==> (r matches Ok(v) && v@ == m),
    {
        let key = match &self.state {
            SecretState::Joined(k) => *k,
            _ => {
                return Err(EncryptionError::CipherNotEstablished);
            },
        };
        if ciphertext.len() < NONCE_LENGTH {
            return Err(EncryptionError::CiphertextTooShort);
        }
        let nonce: [u8; 12] = [
            ciphertext[0],
            ciphertext[1],
            ciphertext[2],
            ciphertext[3],
            ciphertext[4],
            ciphertext[5],
            ciphertext[6],
            ciphertext[7],
            ciphertext[8],
            ciphertext[9],
            ciphertext[10],
            ciphertext[11],
        ];
        let mut body: Vec<u8> = Vec::new();
        let mut i: usize = NONCE_LENGTH;
        while i < ciphertext.len()
            invariant
                NONCE_LENGTH <= i <= ciphertext@.len(),
                body@ == ciphertext@.subrange(NONCE_LENGTH as int, i as int),
            decreases ciphertext@.len() - i,
        {
            body.push(ciphertext[i]);
            i = i + 1;
            assert(body@ =~= ciphertext@.subrange(NONCE_LENGTH as int, i as int));
        }
        proof {
            assert(nonce@ =~= ciphertext@.subrange(0, NONCE_LENGTH as int));
            assert forall|n: Seq<u8>, m: Seq<u8>|
                #![trigger sealed_message(key@, n, m)]
                n.len() == NONCE_LENGTH && m.len() < MAX_MESSAGE_LENGTH && ciphertext@ == sealed_message(
                    key@,
                    n,
                    m,
                ) implies body@ == chacha20poly1305_seal(key@, nonce@, m) by {
                assert(n =~= ciphertext@.subrange(0, NONCE_LENGTH as int));
                assert(body@ =~= chacha20poly1305_seal(key@, n, m));
            }
        }
        match chacha20poly1305_decrypt(&key, &nonce, body.as_slice()) {
            Some(p) => Ok(p),
            None => Err(EncryptionError::CipherFailure),
        }
    }
}

} // verus!
