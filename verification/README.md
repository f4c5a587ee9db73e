# pillar_core

The core of the Pillar ledger as a Verus-verified library: blocks and
transactions, the stamp tail of a block, header validation and proof of work,
transaction validation against the sender's account, the miner's transaction
pool, how a node answers a peer's request, the difficulty and reward schedule, Merkle trees and proofs of
inclusion, the state trie with branching roots and proofs of state, chain
shards and their trimming, node histories, encrypted peer channels, and the
binary encodings of fixed-size values.

Layout:

- `src/` — the library. Every function has a contract that Verus proves. The
  few calls into outside crates (SHA3-256, ed25519, X25519, HKDF,
  ChaCha20-Poly1305, the operating system's random source, the abort channel
  of the miner, the clock, the rendering of numbers and arrays as text) go
  through small trusted wrappers in `crypto.rs`, `encryption.rs`, `pow.rs`,
  `clock.rs`, `versions.rs`, `endian.rs` and `errors.rs`, each documented
  with what its contract assumes.
- `tests/` — the test suite, run against the compiled library.
- `app/` — the program around the library: argument handling, sockets and
  files, serde and compression codecs, and the floating-point reputation
  arithmetic.

How a block moves balances is in `settle.rs`: the transfers of the block in
order, then the miner's reward and, under Proof of Reputation, the stampers'
shares, over the balances and nonces that the previous state holds for the
addresses of the block. `state.rs` applies a block to the state trie: it
reads those balances and nonces from the parent's root, settles the block and
branches a new root with the result. Which shard a node keeps per leaf when
it catches up with its peers is in `sync.rs`, and the messages between nodes
with their wire bytes in `message.rs`.

Not held here: the chain itself (blocks by hash, their verification when
added, trimming of forks), wallets, and the node's networking, mining and
persistence tasks. The state trie holds, per address, a balance and a nonce:
its values must encode and decode exactly, and the list of transaction
references that an account also carries is a growable list, which that
encoding cannot yet hold. Messages that carry a chain, a block, a shard, a
transaction, a proof of inclusion or an error text carry it as bytes.
