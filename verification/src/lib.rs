//! Merkle-Patricia trie storage proofs.
//!
//! A [`StorageProof`](storage::StorageProof) carries the set of encoded trie
//! nodes touched while looking up a set of keys, so that a verifier holding
//! only a trusted root hash can rebuild the relevant part of the trie and
//! check the lookups. A [`CompactProof`](compact::CompactProof) is the same
//! information in a smaller, order-sensitive wire form in which child
//! digests that the decoder can recompute are omitted.

pub mod compact;
pub mod db;
pub mod hashing;
pub mod node;
pub mod order;
pub mod reconstruct;
pub mod scale;
pub mod storage;
