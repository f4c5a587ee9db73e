//! Building blocks from transactions, and proving that a transaction is in a
//! block through the Merkle tree of the block's transactions.

use vstd::prelude::*;
use vstd::bytes::spec_u64_to_le_bytes;

use crate::block::{is_blank, Block, BlockHeader, BlockTail, Stamp};
use crate::bytes::{zero32, zero64, StdByteArray};
use crate::difficulty::MIN_DIFFICULTY;
use crate::crypto::sha3_256_digest;
use crate::hashing::{DefaultHash, HashFunction};
use crate::header::header_hash;
use crate::merkle::{generate_tree, leaf_hash, leaves_of, merkle_root_of, MerkleError, MerkleTree};
use crate::proofs::{
    generate_proof_of_inclusion, is_first_index, path_directions, path_hashes, verify_proof_of_inclusion,
    MerkleProof,
};
use crate::transaction::{filter_matches, header_hash_bytes, FilterMatch, Transaction, TransactionFilter};
use crate::versions::u16_le;
use crate::N_TRANSMISSION_SIGNATURES;

verus! {

/// The leaf hashes of the Merkle tree of a block's transactions, built with a
/// fresh SHA3-256 hash function.
pub open spec fn transaction_leaves(txs: Seq<Transaction>) -> Seq<Seq<u8>> {
    leaves_of::<Transaction, DefaultHash>(txs, Seq::<u8>::empty())
}

/// Whether a transaction hash is proved to be in a block: the tree of the
/// block's transactions has a leaf for it, and its root is the block's Merkle
/// root.
pub open spec fn proves_inclusion(b: Block, transaction: Seq<u8>) -> bool {
    &&& b.transactions@.len() > 0
    &&& transaction_leaves(b.transactions@).contains(sha3_256_digest(transaction))
    &&& merkle_root_of::<DefaultHash>(transaction_leaves(b.transactions@)) == b.header.merkle_root@
}

/// `p` is the proof along the path of leaf `i`, the first leaf for
/// `target`, in a tree `t` built with SHA3-256 whose leaves are `leaves`.
pub open spec fn is_path_proof(p: MerkleProof, t: MerkleTree, i: int, leaves: Seq<Seq<u8>>, target: Seq<u8>) -> bool {
    &&& t.well_shaped()
    &&& t.built_with::<DefaultHash>()
    &&& t.levels().len() > 0
    &&& t.leaves() == leaves
    &&& is_first_index(t.leaves(), target, i)
    &&& crate::merkle::hashes_view(p.hashes@) == path_hashes(t.levels(), i)
    &&& p.directions@ == path_directions(t.levels(), i)
    &&& p.root@ == merkle_root_of::<DefaultHash>(leaves)
}

impl Block {
    /// Creates a block. The Merkle root of the header is the root of the tree
    /// of `transactions` built with `hasher`; the header's completion is set
    /// when the block is mined (see `BlockHeader::new`).
    pub fn new<H: HashFunction>(
        previous_hash: StdByteArray,
        nonce: u64,
        timestamp: u64,
        transactions: Vec<Transaction>,
        miner_address: Option<StdByteArray>,
        stamps: [Stamp; N_TRANSMISSION_SIGNATURES],
        depth: u64,
        difficulty_target: Option<u64>,
        state_root: Option<StdByteArray>,
        hasher: &mut H,
    ) -> (r: Self)
        requires
            transactions@.len() > 0,
            (state_root is Some && miner_address is Some && difficulty_target is Some) || (
            state_root is None && miner_address is None && difficulty_target is None),
            difficulty_target matches Some(d) ==> d != 0,
        ensures
            r.transactions == transactions,
            r.header.previous_hash == previous_hash,
            r.header.merkle_root@ == merkle_root_of::<H>(
                leaves_of::<Transaction, H>(transactions@, old(hasher).absorbed()),
            ),
            r.header.nonce == nonce,
            r.header.timestamp == timestamp,
            r.header.depth == depth,
            r.header.tail.stamps == stamps,
            r.header.version@ == u16_le(1),
            r.header._pad@ == Seq::new(6, |i: int| 0u8),
            r.header.completion.spec_is_none() <==> state_root is None,
            state_root is Some ==> r.header.completion.fields().state_root == state_root->0
                && r.header.completion.fields().miner_address == miner_address->0
                && r.header.completion.fields().difficulty_target == difficulty_target->0
                && r.header.completion.fields().hash@ == header_hash(r.header),
    {
        let merkle_tree = match generate_tree(&transactions, hasher) {
            Ok(t) => t,
            Err(_) => MerkleTree::new(),
        };
        proof {
            crate::merkle::lemma_root_of_built_tree::<H>(merkle_tree);
        }
        let merkle_root = match merkle_tree.get_root_hash() {
            Some(h) => h,
            None => [0u8; 32],
        };
        let tail = BlockTail::new(stamps);
        let header = BlockHeader::new(
            None,
            previous_hash,
            merkle_root,
            state_root,
            nonce,
            timestamp,
            miner_address,
            tail,
            depth,
            difficulty_target,
        );
        Self::new_from_header_and_transactions(header, transactions)
    }

    /// A block with the given header and transactions.
    pub fn new_from_header_and_transactions(header: BlockHeader, transactions: Vec<Transaction>) -> (r: Self)
        ensures
            r.header == header,
            r.transactions == transactions,
    {
        Block { header, transactions }
    }

    /// The Merkle tree of the block's transactions, built with SHA3-256.
    /// Fails when the block has no transactions.
    pub fn get_merkle_tree(&self) -> (r: Result<MerkleTree, MerkleError>)
        ensures
            self.transactions@.len() == 0 <==> r is Err,
            r matches Ok(t) ==> {
                &&& t.well_shaped()
                &&& t.built_with::<DefaultHash>()
                &&& t.levels().len() > 0
                &&& t.leaves() == transaction_leaves(self.transactions@)
            },
    {
        generate_tree(&self.transactions, &mut DefaultHash::new())
    }

    /// The proof of inclusion of the transaction whose hash is `transaction`
    /// in the block's tree; `None` when no leaf of the tree is for it.
    pub fn get_proof_for_transaction(&self, transaction: StdByteArray) -> (r: Option<MerkleProof>)
        ensures
            r is Some <==> self.transactions@.len() > 0 && transaction_leaves(
                self.transactions@,
            ).contains(sha3_256_digest(transaction@)),
            r matches Some(p) ==> exists|t: MerkleTree, i: int|
                #[trigger] is_path_proof(
                    p,
                    t,
                    i,
                    transaction_leaves(self.transactions@),
                    sha3_256_digest(transaction@),
                ),
    {
        let tree = match self.get_merkle_tree() {
            Ok(t) => t,
            Err(_) => {
                return None;
            },
        };
        let mut hasher = DefaultHash::new();
        let r = generate_proof_of_inclusion(&tree, transaction, &mut hasher);
        proof {
            crate::merkle::lemma_root_of_built_tree::<DefaultHash>(tree);
            assert(Seq::<u8>::empty() + transaction@ =~= transaction@);
            if r is Some {
                let p = r->0;
                let target = sha3_256_digest(transaction@);
                let i = choose|i: int|
                    #![trigger is_first_index(tree.leaves(), target, i)]
                    is_first_index(tree.leaves(), target, i) && crate::merkle::hashes_view(p.hashes@)
                        == path_hashes(tree.levels(), i) && p.directions@ == path_directions(
                        tree.levels(),
                        i,
                    ) && Some(p.root@) == tree.root();
                assert(is_path_proof(p, tree, i, transaction_leaves(self.transactions@), target));
            }
        }
        r
    }

    /// Whether the transaction whose hash is `transaction` is in the block:
    /// its proof of inclusion exists and verifies against the block's Merkle
    /// root.
    pub fn validate_transaction(&self, transaction: StdByteArray) -> (r: bool)
        ensures
            r == proves_inclusion(*self, transaction@),
    {
        let found = self.get_proof_for_transaction(transaction);
        match found {
            Some(p) => {
                let ghost target = sha3_256_digest(transaction@);
                let ok = verify_proof_of_inclusion(transaction, &p, self.header.merkle_root, &mut DefaultHash::new());
                proof {
                    let leaves = transaction_leaves(self.transactions@);
                    let (t, i) = choose|t: MerkleTree, i: int| #[trigger] is_path_proof(p, t, i, leaves, target);
                    crate::merkle::lemma_root_of_built_tree::<DefaultHash>(t);
                    crate::proofs::lemma_generated_proof_verifies::<DefaultHash>(t, target, p);
                    assert(Seq::<u8>::empty() + transaction@ =~= transaction@);
                }
                ok
            },
            None => false,
        }
    }
}

impl FilterMatch<Block> for TransactionFilter {
    open spec fn spec_matches(&self, other: &Block) -> bool {
        exists|i: int| 0 <= i < other.transactions@.len() && filter_matches(*self, #[trigger] other.transactions@[i])
    }

    /// Whether some transaction of the block matches the filter.
    fn matches(&self, other: &Block) -> (r: bool) {
        let mut i: usize = 0;
        while i < other.transactions.len()
            invariant
                0 <= i <= other.transactions@.len(),
                forall|j: int| 0 <= j < i ==> !filter_matches(*self, #[trigger] other.transactions@[j]),
            decreases other.transactions@.len() - i,
        {
            if self.matches(&other.transactions[i]) {
                return true;
            }
            i = i + 1;
        }
        false
    }
}

/// A filter matches a block exactly when it matches one of the block's
/// transactions; a block without transactions matches no filter.
pub proof fn lemma_filter_matches_block(f: TransactionFilter, b: Block)
    ensures
        <TransactionFilter as FilterMatch<Block>>::spec_matches(&f, &b) <==> exists|i: int|
            0 <= i < b.transactions@.len() && <TransactionFilter as FilterMatch<Transaction>>::spec_matches(
                &f,
                &#[trigger] b.transactions@[i],
            ),
        b.transactions@.len() == 0 ==> !<TransactionFilter as FilterMatch<Block>>::spec_matches(&f, &b),
{
}

/// Every transaction of a block proves to be in it: when the block's Merkle
/// root is the root of the tree of its transactions and a transaction's hash
/// is the SHA3-256 hash of its header, `validate_transaction` accepts that
/// hash.
pub proof fn lemma_block_includes_its_transactions(b: Block, i: int)
    requires
        0 <= i < b.transactions@.len(),
        b.header.merkle_root@ == merkle_root_of::<DefaultHash>(transaction_leaves(b.transactions@)),
        b.transactions@[i].hash@ == sha3_256_digest(header_hash_bytes(b.transactions@[i].header)),
    ensures
        proves_inclusion(b, b.transactions@[i].hash@),
{
    let leaves = transaction_leaves(b.transactions@);
    let t = b.transactions@[i];
    assert(Seq::<u8>::empty() + header_hash_bytes(t.header) =~= header_hash_bytes(t.header));
    assert(leaves[i] == sha3_256_digest(t.hash@));
}

/// The bytes hashed for the transaction of the genesis block: zero sender,
/// receiver, amount, timestamp and nonce, and no data.
pub open spec fn genesis_transaction_bytes() -> Seq<u8> {
    zero32() + zero32() + spec_u64_to_le_bytes(0) + spec_u64_to_le_bytes(0) + spec_u64_to_le_bytes(0)
}

/// The transaction of the genesis block: all-zero fields, no data, unsigned,
/// and hashed with SHA3-256.
pub open spec fn is_genesis_transaction(t: Transaction) -> bool {
    &&& t.header.meta.sender@ == zero32()
    &&& t.header.meta.receiver@ == zero32()
    &&& t.header.meta.amount == 0
    &&& t.header.meta.timestamp == 0
    &&& t.header.meta.nonce == 0
    &&& t.header.data@ == Seq::<u8>::empty()
    &&& t.hash@ == sha3_256_digest(genesis_transaction_bytes())
    &&& t.signature@ == zero64()
}

/// The Merkle root of the genesis block: the root of the tree whose only leaf
/// is the hash of the genesis transaction's hash.
pub open spec fn genesis_merkle_root() -> Seq<u8> {
    merkle_root_of::<DefaultHash>(seq![leaf_hash::<DefaultHash>(Seq::<u8>::empty(), genesis_transaction_bytes())])
}

/// The header of the genesis block for the initial state root `state_root`:
/// zero previous hash, nonce, timestamp and depth, a blank tail, the zero
/// miner address, the smallest difficulty, and its own hash.
pub open spec fn is_genesis_header(h: BlockHeader, state_root: Seq<u8>) -> bool {
    &&& h.previous_hash@ == zero32()
    &&& h.merkle_root@ == genesis_merkle_root()
    &&& h.nonce == 0
    &&& h.timestamp == 0
    &&& h.depth == 0
    &&& h.version@ == u16_le(1)
    &&& h._pad@ == Seq::new(6, |i: int| 0u8)
    &&& forall|i: int| 0 <= i < N_TRANSMISSION_SIGNATURES ==> is_blank(#[trigger] h.tail.stamps@[i])
    &&& !h.completion.spec_is_none()
    &&& h.completion.fields().state_root@ == state_root
    &&& h.completion.fields().miner_address@ == zero32()
    &&& h.completion.fields().difficulty_target == MIN_DIFFICULTY
    &&& h.completion.fields().hash@ == header_hash(h)
}

/// The genesis header is determined by its state root.
pub proof fn lemma_genesis_header_unique(a: BlockHeader, b: BlockHeader, state_root: Seq<u8>)
    requires
        is_genesis_header(a, state_root),
        is_genesis_header(b, state_root),
    ensures
        a == b,
{
    broadcast use vstd::array::axiom_array_ext_equal;
    crate::block::lemma_blank_tails_equal(a.tail, b.tail);
    assert(a.previous_hash =~= b.previous_hash);
    assert(a.merkle_root =~= b.merkle_root);
    assert(a.version =~= b.version);
    assert(a._pad =~= b._pad);
    assert(crate::header::header_hash_input(a) == crate::header::header_hash_input(b));
    let ca = a.completion.fields();
    let cb = b.completion.fields();
    assert(ca.hash =~= cb.hash);
    assert(ca.miner_address =~= cb.miner_address);
    assert(ca.state_root =~= cb.state_root);
    assert(ca == cb);
    crate::block::lemma_completion_ext(a.completion, b.completion);
}

/// The genesis block for the initial state root `state_root`. The state root
/// must be given: the genesis block is mined, and a mined header has one.
pub fn get_genesis_block(state_root: Option<StdByteArray>) -> (r: Block)
    requires
        state_root is Some,
    ensures
        is_genesis_header(r.header, state_root->0@),
        r.transactions@.len() == 1,
        is_genesis_transaction(r.transactions@[0]),
        r.header.merkle_root@ == merkle_root_of::<DefaultHash>(transaction_leaves(r.transactions@)),
{
    let z: [u8; 32] = [0u8; 32];
    assert(z@ =~= zero32());
    let transaction = Transaction::new(z, z, 0, 0, 0, &mut DefaultHash::new());
    proof {
        assert(header_hash_bytes(transaction.header) =~= genesis_transaction_bytes());
        assert(Seq::<u8>::empty() + genesis_transaction_bytes() =~= genesis_transaction_bytes());
    }
    let transactions = vec![transaction];
    let stamps = BlockTail::default().stamps;
    let block = Block::new(
        z,
        0,
        0,
        transactions,
        Some(z),
        stamps,
        0,
        Some(MIN_DIFFICULTY),
        state_root,
        &mut DefaultHash::new(),
    );
    proof {
        let leaves = leaves_of::<Transaction, DefaultHash>(block.transactions@, Seq::<u8>::empty());
        assert(leaves =~= seq![leaf_hash::<DefaultHash>(Seq::<u8>::empty(), genesis_transaction_bytes())]);
    }
    block
}

} // verus!
