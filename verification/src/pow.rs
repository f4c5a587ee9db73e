//! Proof of work: leading zero bits of a hash against a difficulty, and the
//! search for a nonce that meets it.

use vstd::prelude::*;
use vstd::std_specs::bits::u8_leading_zeros;

use crate::block::{Block, BlockHeader, HeaderCompletion, HeaderCompletionInner};
use crate::bytes::{zero32, StdByteArray};
use crate::hashing::{HashFunction, Hashable};
use crate::header::header_hash_input;

verus! {

/// `flume::Receiver`: the receiving end of a channel between threads.
#[verifier::external_type_specification]
#[verifier::external_body]
#[verifier::reject_recursive_types(T)]
pub struct ExReceiver<T>(flume::Receiver<T>);

/// Takes the next value waiting in the channel with `Receiver::try_recv`,
/// without blocking; `None` when the channel is empty or closed. What waits
/// there depends on other threads, so nothing is promised of it.
#[verifier::external_body]
fn try_receive(signal: &flume::Receiver<u64>) -> (r: Option<u64>) {
    signal.try_recv().ok()
}

/// The number of leading zero bits of a byte string.
pub open spec fn leading_zero_bits(s: Seq<u8>) -> int
    decreases s.len(),
{
    if s.len() == 0 {
        0
    } else if s[0] == 0 {
        8 + leading_zero_bits(s.drop_first())
    } else {
        u8_leading_zeros(s[0]) as int
    }
}

/// A hash meets a difficulty when it has at least `difficulty` leading zero bits.
pub open spec fn meets_difficulty(difficulty: u64, hash: Seq<u8>) -> bool {
    leading_zero_bits(hash) >= difficulty
}

proof fn lemma_leading_zero_bits_bound(s: Seq<u8>)
    ensures
        0 <= leading_zero_bits(s) <= 8 * s.len(),
    decreases s.len(),
{
    broadcast use vstd::std_specs::bits::axiom_u8_leading_zeros;
    if s.len() > 0 {
        lemma_leading_zero_bits_bound(s.drop_first());
        if s[0] != 0 {
            assert(u8_leading_zeros(s[0]) <= 8);
        }
    }
}

/// Whether `hash` has at least `difficulty` leading zero bits.
pub fn is_valid_hash(difficulty: u64, hash: &StdByteArray) -> (r: bool)
    ensures
        r == meets_difficulty(difficulty, hash@),
{
    broadcast use vstd::std_specs::bits::axiom_u8_leading_zeros;
    let mut leading_zeros: u64 = 0;
    let mut i: usize = 0;
    let ghost h = hash@;
    assert(h.subrange(0, 32) =~= h);
    while i < 32
        invariant
            0 <= i <= 32,
            h.len() == 32,
            h == hash@,
            leading_zeros == 8 * i,
            forall|j: int| 0 <= j < i ==> h[j] == 0,
            leading_zero_bits(h) == leading_zeros + leading_zero_bits(h.subrange(i as int, 32)),
        decreases 32 - i,
    {
        let byte = hash[i];
        let ghost rest = h.subrange(i as int, 32);
        assert(rest.drop_first() =~= h.subrange(i + 1, 32));
        assert(rest[0] == byte);
        if byte == 0 {
            leading_zeros = leading_zeros + 8;
            i = i + 1;
        } else {
            leading_zeros = leading_zeros + byte.leading_zeros() as u64;
            return leading_zeros >= difficulty;
        }
    }
    assert(h.subrange(32, 32).len() == 0);
    leading_zeros >= difficulty
}

/// The difficulty counts leading zero bits: a hash whose first byte is not
/// zero meets no difficulty of 8 or more, and a hash whose first `n` bytes
/// are zero meets difficulty `8 * n`.
pub proof fn lemma_difficulty_counts_zero_bits(hash: Seq<u8>, n: nat)
    ensures
        hash.len() > 0 && hash[0] != 0 ==> !meets_difficulty(8, hash),
        n <= hash.len() && (forall|i: int| 0 <= i < n ==> #[trigger] hash[i] == 0) && 8 * n <= u64::MAX
            ==> meets_difficulty((8 * n) as u64, hash),
    decreases n,
{
    broadcast use vstd::std_specs::bits::axiom_u8_leading_zeros;
    if n > 0 && n <= hash.len() && (forall|i: int| 0 <= i < n ==> #[trigger] hash[i] == 0) && 8 * n <= u64::MAX {
        let t = hash.drop_first();
        assert forall|i: int| 0 <= i < n - 1 implies #[trigger] t[i] == 0 by {
            assert(t[i] == hash[i + 1]);
        }
        lemma_difficulty_counts_zero_bits(t, (n - 1) as nat);
        assert(hash[0] == 0);
    }
    if n == 0 {
        lemma_leading_zero_bits_bound(hash);
    }
}

/// A hash that meets a difficulty meets every smaller difficulty.
pub proof fn lemma_difficulty_monotone(d1: u64, d2: u64, hash: Seq<u8>)
    requires
        d1 <= d2,
        meets_difficulty(d2, hash),
    ensures
        meets_difficulty(d1, hash),
{
}

/// Difficulty 0 is met by every hash.
pub proof fn lemma_zero_difficulty(hash: Seq<u8>)
    ensures
        meets_difficulty(0, hash),
{
    lemma_leading_zero_bits_bound(hash);
}

/// Whether a value received on the abort channel stops the mining of a
/// block at depth `depth`: only that depth does (another node mined the
/// block first); any other value, or none, lets mining go on.
pub fn abort_requested(received: Option<u64>, depth: u64) -> (r: bool)
    ensures
        r == (received == Some(depth)),
{
    match received {
        Some(d) => d == depth,
        None => false,
    }
}

/// The header with its nonce set to `nonce`.
pub open spec fn with_nonce(h: BlockHeader, nonce: u64) -> BlockHeader {
    BlockHeader { nonce, ..h }
}

/// The hash that mining computes for nonce `nonce`: the digest of the
/// header's hash input with that nonce. Nonces are tried from 0, and the
/// bytes `leftover` that the hash function held before mining started go
/// into the first digest only.
pub open spec fn nonce_hash<H: HashFunction>(h: BlockHeader, nonce: u64, leftover: Seq<u8>) -> Seq<u8> {
    H::digest_of((if nonce == 0 { leftover } else { Seq::<u8>::empty() }) + header_hash_input(with_nonce(h, nonce)))
}

/// Whether `after` is `before` with only its nonce and completion changed.
pub open spec fn same_but_nonce_and_completion(before: BlockHeader, after: BlockHeader) -> bool {
    &&& after.previous_hash == before.previous_hash
    &&& after.merkle_root == before.merkle_root
    &&& after.timestamp == before.timestamp
    &&& after.depth == before.depth
    &&& after.version == before.version
    &&& after._pad == before._pad
    &&& after.tail == before.tail
}

/// Mines the block: completes its header with the miner's address, the
/// state root and the difficulty, then tries nonces from 0 upwards until the
/// header's hash meets the difficulty, and stores that hash in the
/// completion. Between two tries it polls `abort_signal`, and stops when the
/// depth of this block arrives there (another node mined it first); other
/// values are taken and ignored.
///
/// Returns whether a nonce was found; `false` when mining was aborted or the
/// nonces ran out (the completion then holds a zero hash). Every nonce below
/// the final one was tried and failed.
pub fn mine<H: HashFunction>(
    block: &mut Block,
    address: StdByteArray,
    state_root: StdByteArray,
    difficulty: u64,
    abort_signal: Option<flume::Receiver<u64>>,
    hash_function: H,
) -> (r: bool)
    requires
        difficulty != 0,
    ensures
        final(block).transactions == old(block).transactions,
        same_but_nonce_and_completion(old(block).header, final(block).header),
        final(block).header.completion.fields().miner_address == address,
        final(block).header.completion.fields().state_root == state_root,
        final(block).header.completion.fields().difficulty_target == difficulty,
        forall|n: u64|
            n < final(block).header.nonce ==> !meets_difficulty(
                difficulty,
                #[trigger] nonce_hash::<H>(final(block).header, n, hash_function.absorbed()),
            ),
        r ==> final(block).header.completion.fields().hash@ == nonce_hash::<H>(
            final(block).header,
            final(block).header.nonce,
            hash_function.absorbed(),
        ) && meets_difficulty(difficulty, final(block).header.completion.fields().hash@),
        !r ==> final(block).header.completion.fields().hash@ == zero32(),
        !r ==> !meets_difficulty(
            difficulty,
            nonce_hash::<H>(final(block).header, final(block).header.nonce, hash_function.absorbed()),
        ),
        !r ==> abort_signal is Some || (final(block).header.nonce == u64::MAX && !meets_difficulty(
            difficulty,
            nonce_hash::<H>(final(block).header, u64::MAX, hash_function.absorbed()),
        )),
{
    let ghost leftover = hash_function.absorbed();
    let ghost before = block.header;
    let mut hasher = hash_function;
    let z: [u8; 32] = [0u8; 32];
    assert(z@ =~= zero32());
    block.header.nonce = 0;
    block.header.completion = HeaderCompletion::new(z, address, state_root, difficulty);
    let ghost unhashed = block.header.completion;
    loop
        invariant
            before == old(block).header,
            leftover == hash_function.absorbed(),
            same_but_nonce_and_completion(before, block.header),
            block.transactions == old(block).transactions,
            block.header.completion == unhashed,
            unhashed.fields() == (HeaderCompletionInner { hash: z, miner_address: address, state_root, difficulty_target: difficulty }),
            z@ == zero32(),
            difficulty != 0,
            hasher.absorbed() == (if block.header.nonce == 0 { leftover } else { Seq::<u8>::empty() }),
            forall|n: u64|
                n < block.header.nonce ==> !meets_difficulty(
                    difficulty,
                    #[trigger] nonce_hash::<H>(block.header, n, leftover),
                ),
        decreases u64::MAX - block.header.nonce,
    {
        assert(with_nonce(block.header, block.header.nonce) == block.header);
        let hashed = block.header.hash(&mut hasher);
        let hash = match hashed {
            Ok(h) => h,
            Err(_) => {
                assert(false);
                return false;
            },
        };
        if is_valid_hash(difficulty, &hash) {
            let ghost tried = block.header;
            block.header.completion = HeaderCompletion::new(hash, address, state_root, difficulty);
            proof {
                assert forall|n: u64| #![trigger nonce_hash::<H>(block.header, n, leftover)]
                    true implies nonce_hash::<H>(block.header, n, leftover) == nonce_hash::<H>(tried, n, leftover) by {
                    assert(header_hash_input(with_nonce(block.header, n)) == header_hash_input(with_nonce(tried, n)));
                }
            }
            return true;
        }
        assert(hash@ == nonce_hash::<H>(block.header, block.header.nonce, leftover));
        if let Some(signal) = &abort_signal {
            if abort_requested(try_receive(signal), block.header.depth) {
                return false;
            }
        }
        if block.header.nonce == u64::MAX {
            return false;
        }
        let ghost cur = block.header;
        assert(hash@ == nonce_hash::<H>(cur, cur.nonce, leftover));
        block.header.nonce = block.header.nonce + 1;
        proof {
            assert forall|n: u64| #![trigger nonce_hash::<H>(block.header, n, leftover)]
                n < block.header.nonce implies !meets_difficulty(difficulty, nonce_hash::<H>(block.header, n, leftover)) by {
                assert(with_nonce(block.header, n) == with_nonce(cur, n));
                assert(nonce_hash::<H>(block.header, n, leftover) == nonce_hash::<H>(cur, n, leftover));
            }
        }
    }
}

} // verus!
