//! Hashing, construction and validation of block headers.

use vstd::prelude::*;
use vstd::bytes::{spec_u64_to_le_bytes, u64_to_le_bytes};

use crate::block::{
    count_signed, is_collapse_of, lemma_collapse_unique, BlockHeader, BlockTail, HeaderCompletion, HeaderCompletionInner,
    Stamp,
};
use crate::bytes::{eq32, zero32, StdByteArray};
use crate::crypto::{ed25519_verifies, sha3_256_digest};
use crate::difficulty::MIN_DIFFICULTY;
use crate::errors::BlockValidationError;
use crate::hashing::{DefaultHash, HashError, HashFunction, Hashable};
use crate::pow::{is_valid_hash, meets_difficulty};
use crate::signing::{DefaultVerifier, SigVerFunction, Signable};
use crate::versions::{u16_le, version_number, Versions};
use crate::N_TRANSMISSION_SIGNATURES;

verus! {

/// The bytes of the stamps of a tail, signature then address for each slot.
pub open spec fn stamps_bytes(s: Seq<Stamp>) -> Seq<u8>
    decreases s.len(),
{
    if s.len() == 0 {
        Seq::empty()
    } else {
        stamps_bytes(s.drop_last()) + s.last().signature@ + s.last().address@
    }
}

/// The bytes that hashing a header feeds to the hash function. They do not
/// include the hash stored in the completion.
pub open spec fn hash_input_parts(
    version: Seq<u8>,
    nonce: u64,
    depth: u64,
    timestamp: u64,
    miner_address: Seq<u8>,
    state_root: Seq<u8>,
    difficulty_target: u64,
    merkle_root: Seq<u8>,
    previous_hash: Seq<u8>,
    stamps: Seq<Stamp>,
) -> Seq<u8> {
    version + spec_u64_to_le_bytes(nonce) + spec_u64_to_le_bytes(depth) + spec_u64_to_le_bytes(timestamp)
        + miner_address + state_root + spec_u64_to_le_bytes(difficulty_target) + merkle_root
        + previous_hash + stamps_bytes(stamps)
}

/// The bytes that hashing a header feeds to the hash function.
pub open spec fn header_hash_input(h: BlockHeader) -> Seq<u8> {
    let c = h.completion.fields();
    hash_input_parts(
        h.version@,
        h.nonce,
        h.depth,
        h.timestamp,
        c.miner_address@,
        c.state_root@,
        c.difficulty_target,
        h.merkle_root@,
        h.previous_hash@,
        h.tail.stamps@,
    )
}

/// The bytes of the "clean" hash of a header, which covers only what does not
/// change after stamping: previous hash, Merkle root, timestamp, depth, version.
pub open spec fn header_clean_input(h: BlockHeader) -> Seq<u8> {
    h.previous_hash@ + h.merkle_root@ + spec_u64_to_le_bytes(h.timestamp) + spec_u64_to_le_bytes(
        h.depth,
    ) + h.version@
}

/// The SHA3-256 hash of a mined header.
pub open spec fn header_hash(h: BlockHeader) -> Seq<u8> {
    sha3_256_digest(header_hash_input(h))
}

/// The stamps of a collapsed tail all verify over `message`.
pub open spec fn stamps_verify(c: Seq<Stamp>, message: Seq<u8>) -> bool {
    forall|i: int|
        0 <= i < count_signed(c) ==> ed25519_verifies(
            (#[trigger] c[i]).address@,
            message,
            c[i].signature@,
        )
}

/// A header's timestamp is more than an hour ahead of `now`.
pub open spec fn too_far_in_future(timestamp: u64, now: u64) -> bool {
    timestamp > now + 3600
}

impl Hashable for BlockHeader {
    open spec fn hash_input(&self) -> Option<Seq<u8>> {
        if self.completion.spec_is_none() {
            None
        } else {
            Some(header_hash_input(*self))
        }
    }

    /// Hashes the header; fails when the header is not mined.
    fn hash<H: HashFunction>(&self, hash_function: &mut H) -> (r: Result<StdByteArray, HashError>) {
        let c = match self.completion.get() {
            None => {
                return Err(HashError::NoData);
            },
            Some(c) => c,
        };
        let ghost a = hash_function.absorbed();
        hash_function.update(self.version.as_slice());
        let nonce = u64_to_le_bytes(self.nonce);
        hash_function.update(nonce.as_slice());
        let depth = u64_to_le_bytes(self.depth);
        hash_function.update(depth.as_slice());
        let timestamp = u64_to_le_bytes(self.timestamp);
        hash_function.update(timestamp.as_slice());
        hash_function.update(c.miner_address.as_slice());
        hash_function.update(c.state_root.as_slice());
        let difficulty = u64_to_le_bytes(c.difficulty_target);
        hash_function.update(difficulty.as_slice());
        hash_function.update(self.merkle_root.as_slice());
        hash_function.update(self.previous_hash.as_slice());
        let ghost fixed = self.version@ + spec_u64_to_le_bytes(self.nonce) + spec_u64_to_le_bytes(
            self.depth,
        ) + spec_u64_to_le_bytes(self.timestamp) + c.miner_address@ + c.state_root@
            + spec_u64_to_le_bytes(c.difficulty_target) + self.merkle_root@ + self.previous_hash@;
        assert(hash_function.absorbed() =~= a + fixed);
        let ghost s = self.tail.stamps@;
        let mut i: usize = 0;
        while i < N_TRANSMISSION_SIGNATURES
            invariant
                0 <= i <= N_TRANSMISSION_SIGNATURES,
                s == self.tail.stamps@,
                s.len() == N_TRANSMISSION_SIGNATURES,
                hash_function.absorbed() == a + fixed + stamps_bytes(s.subrange(0, i as int)),
                hash_function.started(),
            decreases N_TRANSMISSION_SIGNATURES - i,
        {
            assert(s.subrange(0, i + 1).drop_last() =~= s.subrange(0, i as int));
            assert(s.subrange(0, i + 1).last() == s[i as int]);
            hash_function.update(self.tail.stamps[i].signature.as_slice());
            hash_function.update(self.tail.stamps[i].address.as_slice());
            assert(hash_function.absorbed() =~= a + fixed + stamps_bytes(s.subrange(0, i + 1)));
            i = i + 1;
        }
        assert(s.subrange(0, N_TRANSMISSION_SIGNATURES as int) =~= s);
        assert(a + fixed + stamps_bytes(s) =~= a + header_hash_input(*self));
        hash_function.digest()
    }
}

impl Signable for BlockHeader {
    open spec fn signing_bytes(&self) -> Seq<u8> {
        sha3_256_digest(header_clean_input(*self))
    }

    fn get_signing_bytes(&self) -> (r: Vec<u8>) {
        let h = self.hash_clean(&mut DefaultHash::new());
        let mut v: Vec<u8> = Vec::new();
        crate::bytes::extend_bytes(&mut v, h.as_slice());
        v
    }
}

impl BlockHeader {
    /// A hash that does not depend on what changes after stamping (miner,
    /// completion, tail), so that nodes can stamp before the block is mined.
    pub fn hash_clean<H: HashFunction>(&self, hasher: &mut H) -> (r: StdByteArray)
        ensures
            r@ == H::digest_of(old(hasher).absorbed() + header_clean_input(*self)),
            final(hasher).absorbed() == Seq::<u8>::empty(),
    {
        let ghost a = hasher.absorbed();
        hasher.update(self.previous_hash.as_slice());
        hasher.update(self.merkle_root.as_slice());
        let timestamp = u64_to_le_bytes(self.timestamp);
        hasher.update(timestamp.as_slice());
        let depth = u64_to_le_bytes(self.depth);
        hasher.update(depth.as_slice());
        hasher.update(self.version.as_slice());
        assert(hasher.absorbed() =~= a + header_clean_input(*self));
        match hasher.digest() {
            Ok(h) => h,
            Err(_) => [0u8; 32],
        }
    }

    /// Creates a header with a given protocol version.
    ///
    /// `state_root`, `miner_address` and `difficulty_target` must be all present
    /// (a mined header) or all absent. For a mined header the stored hash is
    /// `hash` when given (it must then be the header's hash) and the computed
    /// hash otherwise.
    pub fn new_with_version(
        hash: Option<StdByteArray>,
        previous_hash: StdByteArray,
        merkle_root: StdByteArray,
        state_root: Option<StdByteArray>,
        nonce: u64,
        timestamp: u64,
        miner_address: Option<StdByteArray>,
        tail: BlockTail,
        depth: u64,
        difficulty_target: Option<u64>,
        version: Versions,
    ) -> (r: Self)
        requires
            (state_root is Some && miner_address is Some && difficulty_target is Some) || (
            state_root is None && miner_address is None && difficulty_target is None),
            difficulty_target matches Some(d) ==> d != 0,
            state_root is Some && hash is Some ==> hash->0@ == sha3_256_digest(
                hash_input_parts(
                    u16_le(version_number(version)),
                    nonce,
                    depth,
                    timestamp,
                    miner_address->0@,
                    state_root->0@,
                    difficulty_target->0,
                    merkle_root@,
                    previous_hash@,
                    tail.stamps@,
                ),
            ),
        ensures
            r.previous_hash == previous_hash,
            r.merkle_root == merkle_root,
            r.nonce == nonce,
            r.timestamp == timestamp,
            r.depth == depth,
            r.tail == tail,
            r.version@ == u16_le(version_number(version)),
            r._pad@ == Seq::new(6, |i: int| 0u8),
            r.completion.spec_is_none() <==> state_root is None,
            state_root is Some ==> r.completion.fields().state_root == state_root->0
                && r.completion.fields().miner_address == miner_address->0
                && r.completion.fields().difficulty_target == difficulty_target->0
                && r.completion.fields().hash@ == header_hash(r),
    {
        let completion = match (state_root, miner_address, difficulty_target) {
            (Some(s), Some(m), Some(d)) => HeaderCompletion::new(
                match hash {
                    Some(h) => h,
                    None => [0u8; 32],
                },
                m,
                s,
                d,
            ),
            _ => HeaderCompletion::new_none(),
        };
        let pad = [0u8; 6];
        assert(pad@ =~= Seq::new(6, |i: int| 0u8));
        let mut header = BlockHeader {
            previous_hash,
            merkle_root,
            nonce,
            timestamp,
            depth,
            version: version.to_le_bytes(),
            _pad: pad,
            tail,
            completion,
        };
        if completion.is_some() && hash.is_none() {
            let mut hasher = DefaultHash::new();
            let h = match header.hash(&mut hasher) {
                Ok(h) => h,
                Err(_) => [0u8; 32],
            };
            header.completion = header.completion.with_hash(h);
            assert(header_hash_input(header) == header_hash_input(
                BlockHeader { completion, ..header },
            ));
        }
        header
    }

    /// Creates a header with the protocol version of this implementation.
    /// See `new_with_version`.
    pub fn new(
        hash: Option<StdByteArray>,
        previous_hash: StdByteArray,
        merkle_root: StdByteArray,
        state_root: Option<StdByteArray>,
        nonce: u64,
        timestamp: u64,
        miner_address: Option<StdByteArray>,
        tail: BlockTail,
        depth: u64,
        difficulty_target: Option<u64>,
    ) -> (r: Self)
        requires
            (state_root is Some && miner_address is Some && difficulty_target is Some) || (
            state_root is None && miner_address is None && difficulty_target is None),
            difficulty_target matches Some(d) ==> d != 0,
            state_root is Some && hash is Some ==> hash->0@ == sha3_256_digest(
                hash_input_parts(
                    u16_le(1),
                    nonce,
                    depth,
                    timestamp,
                    miner_address->0@,
                    state_root->0@,
                    difficulty_target->0,
                    merkle_root@,
                    previous_hash@,
                    tail.stamps@,
                ),
            ),
        ensures
            r.previous_hash == previous_hash,
            r.merkle_root == merkle_root,
            r.nonce == nonce,
            r.timestamp == timestamp,
            r.depth == depth,
            r.tail == tail,
            r.version@ == u16_le(1),
            r._pad@ == Seq::new(6, |i: int| 0u8),
            r.completion.spec_is_none() <==> state_root is None,
            state_root is Some ==> r.completion.fields().state_root == state_root->0
                && r.completion.fields().miner_address == miner_address->0
                && r.completion.fields().difficulty_target == difficulty_target->0
                && r.completion.fields().hash@ == header_hash(r),
    {
        Self::new_with_version(
            hash,
            previous_hash,
            merkle_root,
            state_root,
            nonce,
            timestamp,
            miner_address,
            tail,
            depth,
            difficulty_target,
            Versions::default(),
        )
    }

    /// Like `new`, but instead of requiring a given hash to be the header's
    /// hash, checks it and returns `None` when it is not.
    pub fn new_checked(
        hash: Option<StdByteArray>,
        previous_hash: StdByteArray,
        merkle_root: StdByteArray,
        state_root: Option<StdByteArray>,
        nonce: u64,
        timestamp: u64,
        miner_address: Option<StdByteArray>,
        tail: BlockTail,
        depth: u64,
        difficulty_target: Option<u64>,
    ) -> (r: Option<Self>)
        requires
            (state_root is Some && miner_address is Some && difficulty_target is Some) || (
            state_root is None && miner_address is None && difficulty_target is None),
            difficulty_target matches Some(d) ==> d != 0,
        ensures
            r is None <==> (state_root is Some && hash is Some && hash->0@ != sha3_256_digest(
                hash_input_parts(
                    u16_le(1),
                    nonce,
                    depth,
                    timestamp,
                    miner_address->0@,
                    state_root->0@,
                    difficulty_target->0,
                    merkle_root@,
                    previous_hash@,
                    tail.stamps@,
                ),
            )),
            r matches Some(h) ==> h.previous_hash == previous_hash && h.merkle_root == merkle_root
                && h.nonce == nonce && h.timestamp == timestamp && h.depth == depth && h.tail == tail
                && h.version@ == u16_le(1) && (h.completion.spec_is_none() <==> state_root is None)
                && (state_root is Some ==> h.completion.fields().state_root == state_root->0
                && h.completion.fields().miner_address == miner_address->0
                && h.completion.fields().difficulty_target == difficulty_target->0
                && h.completion.fields().hash@ == header_hash(h)),
    {
        let unhashed = Self::new(
            None,
            previous_hash,
            merkle_root,
            state_root,
            nonce,
            timestamp,
            miner_address,
            tail,
            depth,
            difficulty_target,
        );
        match (hash, unhashed.completion.get()) {
            (Some(h), Some(c)) => {
                if eq32(&h, &c.hash) {
                    Some(unhashed)
                } else {
                    None
                }
            },
            _ => Some(unhashed),
        }
    }

    /// Validates the header against the current time; see `validate_at`.
    pub fn validate<H: HashFunction>(&self, expected_hash: StdByteArray, hasher: &mut H) -> (r: Result<(), BlockValidationError>)
        ensures
            exists|now: u64|
                #[trigger] validation_outcome::<H>(*self, expected_hash@, old(hasher).absorbed(), now, r)
                    && (r is Ok <==> header_valid_at::<H>(*self, expected_hash@, old(hasher).absorbed(), now)),
    {
        let now = crate::clock::unix_time_now();
        self.validate_at(expected_hash, hasher, now)
    }

    /// Validates the header at time `now`. Checks, in order, that the block is
    /// mined, that its hash is `expected_hash`, that the hash meets the declared
    /// difficulty, that every stamp of the collapsed tail is a valid signature
    /// over the header's clean hash, and that the timestamp is at most an hour
    /// ahead of `now`.
    pub fn validate_at<H: HashFunction>(&self, expected_hash: StdByteArray, hasher: &mut H, now: u64) -> (r: Result<(), BlockValidationError>)
        ensures
            validation_outcome::<H>(*self, expected_hash@, old(hasher).absorbed(), now, r),
            r is Ok <==> header_valid_at::<H>(*self, expected_hash@, old(hasher).absorbed(), now),
    {
        let ghost prefix = hasher.absorbed();
        let ghost input = header_hash_input(*self);
        let c = match self.completion.get() {
            Some(c) => c,
            None => {
                return Err(BlockValidationError::NoMinerAddress(*self));
            },
        };
        let h1 = match self.hash(hasher) {
            Ok(h) => h,
            Err(_) => [0u8; 32],
        };
        if !eq32(&expected_hash, &h1) {
            let h2 = match self.hash(hasher) {
                Ok(h) => h,
                Err(_) => [0u8; 32],
            };
            return Err(BlockValidationError::HashMismatch(expected_hash, h2));
        }
        let h3 = match self.hash(hasher) {
            Ok(h) => h,
            Err(_) => [0u8; 32],
        };
        assert(prefix + input == old(hasher).absorbed() + input);
        assert(Seq::<u8>::empty() + input =~= input);
        if !is_valid_hash(c.difficulty_target, &h3) {
            return Err(BlockValidationError::DifficultyMismatch(c.difficulty_target, *self));
        }
        let mut tail = self.tail;
        tail.collapse();
        let ghost ct = tail.stamps@;
        let ghost sb = self.signing_bytes();
        let n = tail.n_stamps();
        let mut i: usize = 0;
        while i < n
            invariant
                0 <= i <= n,
                n == count_signed(ct),
                ct == tail.stamps@,
                sb == self.signing_bytes(),
                is_collapse_of(ct, self.tail.stamps@),
                !self.completion.spec_is_none(),
                H::digest_of(prefix + input) == expected_hash@,
                prefix == old(hasher).absorbed(),
                input == header_hash_input(*self),
                meets_difficulty(self.completion.fields().difficulty_target, H::digest_of(input)),
                forall|j: int|
                    0 <= j < i ==> ed25519_verifies(
                        (#[trigger] ct[j]).address@,
                        sb,
                        ct[j].signature@,
                    ),
            decreases n - i,
        {
            proof {
                crate::block::lemma_count_signed_le_len(ct);
            }
            let stamp = tail.stamps[i];
            let verifier = DefaultVerifier::from_bytes(&stamp.address);
            if !verifier.verify(&stamp.signature, self) {
                proof {
                    assert(!stamps_verify(ct, sb));
                    let r = Err(BlockValidationError::InvalidStampSignature(stamp.address));
                    if exists|c: Seq<Stamp>| is_collapse_of(c, self.tail.stamps@) && stamps_verify(c, sb) {
                        let c = choose|c: Seq<Stamp>| is_collapse_of(c, self.tail.stamps@) && stamps_verify(c, sb);
                        crate::block::lemma_collapse_unique(c, ct, self.tail.stamps@);
                    }
                    assert(stamp_outcome(ct, *self, now, r));
                    assert(validation_outcome::<H>(*self, expected_hash@, prefix, now, r));
                }
                return Err(BlockValidationError::InvalidStampSignature(stamp.address));
            }
            i = i + 1;
        }
        assert(stamps_verify(ct, sb));
        assert(header_valid_at::<H>(*self, expected_hash@, prefix, now) <==> !too_far_in_future(self.timestamp, now)) by {
            if exists|c: Seq<Stamp>| is_collapse_of(c, self.tail.stamps@) && stamps_verify(c, sb) {
                let c = choose|c: Seq<Stamp>| is_collapse_of(c, self.tail.stamps@) && stamps_verify(c, sb);
                crate::block::lemma_collapse_unique(c, ct, self.tail.stamps@);
            }
        }
        if self.timestamp > now && self.timestamp - now > 3600 {
            assert(stamp_outcome(ct, *self, now, Err(BlockValidationError::FutureTimestamp(self.timestamp))));
            return Err(BlockValidationError::FutureTimestamp(self.timestamp));
        }
        assert(stamp_outcome(ct, *self, now, Ok(())));
        Ok(())
    }
}

/// What validating the stamps and the timestamp of header `h` at time `now`
/// gives, where `c` is the collapsed tail: the first stamp whose signature
/// over the header's clean hash does not verify is reported, and otherwise a
/// timestamp more than an hour ahead of `now`.
pub open spec fn stamp_outcome(
    c: Seq<Stamp>,
    h: BlockHeader,
    now: u64,
    r: Result<(), BlockValidationError>,
) -> bool {
    if !stamps_verify(c, h.signing_bytes()) {
        r matches Err(BlockValidationError::InvalidStampSignature(a)) && exists|i: int|
            {
                &&& 0 <= i < count_signed(c)
                &&& a == (#[trigger] c[i]).address
                &&& !ed25519_verifies(c[i].address@, h.signing_bytes(), c[i].signature@)
                &&& forall|j: int|
                    0 <= j < i ==> ed25519_verifies(
                        (#[trigger] c[j]).address@,
                        h.signing_bytes(),
                        c[j].signature@,
                    )
            }
    } else if too_far_in_future(h.timestamp, now) {
        r matches Err(BlockValidationError::FutureTimestamp(t)) && t == h.timestamp
    } else {
        r is Ok
    }
}

/// Whether header `h` is valid against `expected` at time `now`, when the hash
/// function had absorbed `prefix` before: it is mined, its hash is `expected`,
/// its hash meets its difficulty, the stamps of its collapsed tail verify over
/// its clean hash, and its timestamp is at most an hour ahead of `now`.
pub open spec fn header_valid_at<H: HashFunction>(h: BlockHeader, expected: Seq<u8>, prefix: Seq<u8>, now: u64) -> bool {
    &&& !h.completion.spec_is_none()
    &&& H::digest_of(prefix + header_hash_input(h)) == expected
    &&& meets_difficulty(h.completion.fields().difficulty_target, H::digest_of(header_hash_input(h)))
    &&& exists|c: Seq<Stamp>| is_collapse_of(c, h.tail.stamps@) && stamps_verify(c, h.signing_bytes())
    &&& !too_far_in_future(h.timestamp, now)
}

/// What validating header `h` against `expected` at time `now` gives, when the
/// hash function had absorbed `prefix` before.
pub open spec fn validation_outcome<H: HashFunction>(
    h: BlockHeader,
    expected: Seq<u8>,
    prefix: Seq<u8>,
    now: u64,
    r: Result<(), BlockValidationError>,
) -> bool {
    let input = header_hash_input(h);
    let d = h.completion.fields().difficulty_target;
    if h.completion.spec_is_none() {
        r matches Err(BlockValidationError::NoMinerAddress(x)) && x == h
    } else if H::digest_of(prefix + input) != expected {
        r matches Err(BlockValidationError::HashMismatch(e, a)) && e@ == expected && a@ == H::digest_of(
            input,
        )
    } else if !meets_difficulty(d, H::digest_of(input)) {
        r matches Err(BlockValidationError::DifficultyMismatch(x, y)) && x == d && y == h
    } else {
        exists|c: Seq<Stamp>| is_collapse_of(c, h.tail.stamps@) && #[trigger] stamp_outcome(c, h, now, r)
    }
}

/// A valid header is mined, hashes to the expected hash, meets its declared
/// difficulty, and is dated at most an hour (3600 seconds) after the time
/// of validation; a header valid at one time stays valid at every later time.
pub proof fn lemma_header_valid_parts<H: HashFunction>(
    h: BlockHeader,
    expected: Seq<u8>,
    prefix: Seq<u8>,
    now: u64,
    later: u64,
)
    ensures
        header_valid_at::<H>(h, expected, prefix, now) ==> {
            &&& !h.completion.spec_is_none()
            &&& H::digest_of(prefix + header_hash_input(h)) == expected
            &&& meets_difficulty(h.completion.fields().difficulty_target, H::digest_of(header_hash_input(h)))
            &&& h.timestamp <= now + 3600
        },
        h.timestamp > now + 3600 ==> !header_valid_at::<H>(h, expected, prefix, now),
        header_valid_at::<H>(h, expected, prefix, now) && now <= later ==> header_valid_at::<H>(
            h,
            expected,
            prefix,
            later,
        ),
{
}

/// A validation outcome is success exactly when the header is valid, and a
/// failure names the first check that fails: an unmined header, a wrong
/// hash, a missed difficulty, then a bad stamp or a date too far ahead.
pub proof fn lemma_validation_outcome_ok<H: HashFunction>(
    h: BlockHeader,
    expected: Seq<u8>,
    prefix: Seq<u8>,
    now: u64,
    r: Result<(), BlockValidationError>,
)
    requires
        validation_outcome::<H>(h, expected, prefix, now, r),
    ensures
        r is Ok <==> header_valid_at::<H>(h, expected, prefix, now),
        h.completion.spec_is_none() ==> r matches Err(BlockValidationError::NoMinerAddress(_)),
        !h.completion.spec_is_none() && H::digest_of(prefix + header_hash_input(h)) != expected ==> r matches Err(
            BlockValidationError::HashMismatch(_, _),
        ),
        h.timestamp > now + 3600 ==> r is Err,
{
    if !h.completion.spec_is_none() && H::digest_of(prefix + header_hash_input(h)) == expected && meets_difficulty(
        h.completion.fields().difficulty_target,
        H::digest_of(header_hash_input(h)),
    ) {
        let c = choose|c: Seq<Stamp>| is_collapse_of(c, h.tail.stamps@) && #[trigger] stamp_outcome(c, h, now, r);
        if exists|c2: Seq<Stamp>| is_collapse_of(c2, h.tail.stamps@) && stamps_verify(c2, h.signing_bytes()) {
            let c2 = choose|c2: Seq<Stamp>| is_collapse_of(c2, h.tail.stamps@) && stamps_verify(c2, h.signing_bytes());
            lemma_collapse_unique(c, c2, h.tail.stamps@);
        }
    }
}

} // verus!
