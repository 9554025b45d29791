//! Tests of the compact proof transforms over a small real trie.
//!
//! The trie holds `{key1: [1;64], key2: [2;64], key3: [3;64], key11: [4;64]}`:
//! a root branch with partial key `key` and children at the index bytes `1`,
//! `2` and `3`; under `1` a branch holding the value of `key1` and, at index
//! byte `1`, the leaf of `key11`; under `2` and `3` the leaves of `key2` and
//! `key3`.

use storage_proof::compact::{CompactProof, CompactProofError};
use storage_proof::node::{encode_node, ChildRef, TrieNode};
use storage_proof::storage::{StorageProof, StorageProofError};

fn hash(b: &[u8]) -> Vec<u8> {
    blake2b_simd::Params::new()
        .hash_length(32)
        .hash(b)
        .as_bytes()
        .to_vec()
}

fn leaf(partial_key: &[u8], value: Vec<u8>) -> Vec<u8> {
    encode_node(&TrieNode::Leaf {
        partial_key: partial_key.to_vec(),
        value,
    })
}

fn branch(partial_key: &[u8], value: Option<Vec<u8>>, children: Vec<(u8, Vec<u8>)>) -> Vec<u8> {
    encode_node(&TrieNode::Branch {
        partial_key: partial_key.to_vec(),
        value,
        children: children
            .into_iter()
            .map(|(index, h)| ChildRef {
                index,
                hash: Some(h),
            })
            .collect(),
    })
}

/// The encoded nodes of the test trie, in the order root, node under `1`,
/// leaf of `key11`, leaf of `key2`, leaf of `key3`, and the root digest.
fn test_trie() -> (Vec<Vec<u8>>, Vec<u8>) {
    let leaf11 = leaf(b"", vec![4u8; 64]);
    let leaf2 = leaf(b"", vec![2u8; 64]);
    let leaf3 = leaf(b"", vec![3u8; 64]);
    let node1 = branch(b"", Some(vec![1u8; 64]), vec![(b'1', hash(&leaf11))]);
    let root = branch(
        b"key",
        None,
        vec![
            (b'1', hash(&node1)),
            (b'2', hash(&leaf2)),
            (b'3', hash(&leaf3)),
        ],
    );
    let root_hash = hash(&root);
    (vec![root, node1, leaf11, leaf2, leaf3], root_hash)
}

/// The raw nodes a traversal of the test trie touches, recorded lookup by
/// lookup, so shared nodes repeat.
fn create_storage_proof() -> (Vec<Vec<u8>>, Vec<u8>) {
    let (nodes, root_hash) = test_trie();
    let (root, node1, leaf11, leaf2, leaf3) = (
        nodes[0].clone(),
        nodes[1].clone(),
        nodes[2].clone(),
        nodes[3].clone(),
        nodes[4].clone(),
    );
    let recorded = vec![
        // key1
        root.clone(),
        node1.clone(),
        // key2
        root.clone(),
        leaf2,
        // key3
        root.clone(),
        leaf3,
        // key11
        root,
        node1,
        leaf11,
    ];
    (recorded, root_hash)
}

#[test]
fn proof_with_duplicate_nodes_is_rejected() {
    let (raw_proof, _root) = create_storage_proof();
    assert!(matches!(
        StorageProof::new_with_duplicate_nodes_check(raw_proof),
        Err(StorageProofError::DuplicateNodes)
    ));
}

#[test]
fn invalid_compact_proof_does_not_panic_when_decoding() {
    let invalid_proof = CompactProof {
        encoded_nodes: vec![vec![135]],
    };
    let result = invalid_proof.to_memory_db(None);
    assert!(result.is_err());
}

#[test]
fn compact_round_trip_recovers_nodes_and_root() {
    let (nodes, root_hash) = test_trie();
    let proof = StorageProof::new(nodes);
    let compact = proof.to_compact_proof(&root_hash).unwrap();
    let (recovered, recovered_root) = compact.to_storage_proof(Some(&root_hash)).unwrap();
    assert_eq!(recovered_root, root_hash);
    assert_eq!(recovered, proof);
    // Re-compacting the recovered proof yields an equal compact proof.
    let again = recovered.into_compact_proof(&root_hash).unwrap();
    assert_eq!(again, compact);
}

#[test]
fn round_trip_with_wrong_expected_root_is_a_root_mismatch() {
    let (nodes, root_hash) = test_trie();
    let proof = StorageProof::new(nodes);
    let compact = proof.into_compact_proof(&root_hash).unwrap();
    let wrong = vec![0u8; 32];
    assert_eq!(
        compact.to_storage_proof(Some(&wrong)).unwrap_err(),
        CompactProofError::RootMismatch
    );
    assert_eq!(
        compact.to_memory_db(Some(&wrong)).unwrap_err(),
        CompactProofError::RootMismatch
    );
}

#[test]
fn compaction_omits_known_child_digests() {
    let (nodes, root_hash) = test_trie();
    let raw_total: usize = nodes.iter().map(|n| n.len()).sum();
    let proof = StorageProof::new(nodes);
    let compact = proof.into_compact_proof(&root_hash).unwrap();
    assert_eq!(compact.iter_compact_encoded_nodes().len(), 5);
    let compact_total: usize = compact
        .iter_compact_encoded_nodes()
        .iter()
        .map(|n| n.len())
        .sum();
    // Four child digests of 32 bytes each are omitted.
    assert_eq!(compact_total, raw_total - 4 * 32);
}

#[test]
fn unreachable_root_is_an_incomplete_proof() {
    let (nodes, _root_hash) = test_trie();
    let proof = StorageProof::new(nodes);
    let unknown_root = hash(b"not a node of this trie");
    assert_eq!(
        proof.into_compact_proof(&unknown_root).unwrap_err(),
        CompactProofError::IncompleteProof
    );
}

#[test]
fn undecodable_node_is_a_malformed_node() {
    let junk = vec![7u8, 7, 7];
    let junk_hash = hash(&junk);
    let proof = StorageProof::new(vec![junk]);
    assert_eq!(
        proof.into_compact_proof(&junk_hash).unwrap_err(),
        CompactProofError::MalformedNode
    );
}

#[test]
fn empty_compact_proof_is_an_incomplete_proof() {
    let empty = CompactProof {
        encoded_nodes: Vec::new(),
    };
    assert_eq!(
        empty.to_memory_db(None).unwrap_err(),
        CompactProofError::IncompleteProof
    );
}

#[test]
fn truncated_compact_proof_is_rejected() {
    let (nodes, root_hash) = test_trie();
    let proof = StorageProof::new(nodes);
    let compact = proof.into_compact_proof(&root_hash).unwrap();
    // Drop the last entry: a child subtree the root promises is missing.
    let mut truncated = compact.encoded_nodes.clone();
    truncated.pop();
    let r = CompactProof {
        encoded_nodes: truncated,
    }
    .to_memory_db(None);
    assert!(r.is_err());
}

#[test]
fn trailing_compact_entries_are_rejected() {
    let only_leaf = leaf(b"k", vec![9u8; 4]);
    let extra = leaf(b"x", vec![8u8; 4]);
    let r = CompactProof {
        encoded_nodes: vec![only_leaf, extra],
    }
    .to_memory_db(None);
    assert_eq!(r.unwrap_err(), CompactProofError::MalformedNode);
}

#[test]
fn single_leaf_round_trip() {
    let only_leaf = leaf(b"k", vec![9u8; 4]);
    let root_hash = hash(&only_leaf);
    let proof = StorageProof::new(vec![only_leaf]);
    let compact = proof.to_compact_proof(&root_hash).unwrap();
    let (db, got_root) = compact.to_memory_db(Some(&root_hash)).unwrap();
    assert_eq!(got_root, root_hash);
    assert_eq!(db.len(), 1);
    assert!(db.contains_key(&root_hash));
}

#[test]
fn encoded_compact_size_matches_the_codec() {
    let (nodes, root_hash) = test_trie();
    let proof = StorageProof::new(nodes);
    let compact = proof.clone().into_compact_proof(&root_hash).unwrap();
    let expected = parity_scale_codec::Encode::encoded_size(&compact.encoded_nodes);
    assert_eq!(proof.encoded_compact_size(&root_hash), Some(expected));
}

#[test]
fn encoded_compact_size_exact_value() {
    let only_leaf = leaf(b"k", vec![9u8; 4]);
    let root_hash = hash(&only_leaf);
    let entry_len = only_leaf.len();
    let proof = StorageProof::new(vec![only_leaf]);
    // One entry: a one-byte vector-length prefix, a one-byte entry-length
    // prefix, and the entry itself.
    assert_eq!(
        proof.encoded_compact_size(&root_hash),
        Some(1 + 1 + entry_len)
    );
}

#[test]
fn encoded_compact_size_is_none_exactly_when_compaction_fails() {
    let (nodes, root_hash) = test_trie();
    let proof = StorageProof::new(nodes);
    let unknown_root = hash(b"unreachable");
    assert!(proof.clone().to_compact_proof(&unknown_root).is_err());
    assert_eq!(proof.clone().encoded_compact_size(&unknown_root), None);
    assert!(proof.to_compact_proof(&root_hash).is_ok());
    let (nodes2, _) = test_trie();
    assert!(StorageProof::new(nodes2)
        .encoded_compact_size(&root_hash)
        .is_some());
}

#[test]
fn reconstructed_digests_are_real_blake2b_digests() {
    let (nodes, root_hash) = test_trie();
    let proof = StorageProof::new(nodes.clone());
    let compact = proof.into_compact_proof(&root_hash).unwrap();
    let (db, got_root) = compact.to_memory_db(None).unwrap();
    assert_eq!(got_root, hash(&nodes[0]));
    assert_eq!(db.len(), 5);
    for n in &nodes {
        assert_eq!(db.get(&hash(n)), Some(n));
    }
}

#[test]
fn memory_db_of_proof_is_keyed_by_content_hash() {
    let (nodes, _root) = test_trie();
    let proof = StorageProof::new(nodes.clone());
    let db = proof.into_memory_db();
    assert_eq!(db.len(), 5);
    for n in &nodes {
        assert_eq!(db.get(&hash(n)), Some(n));
    }
    assert_eq!(db.get(&hash(b"absent")), None);
}
