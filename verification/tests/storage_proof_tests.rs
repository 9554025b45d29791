//! Tests of the storage proof facade: construction, deduplication, merging.

use storage_proof::storage::{StorageProof, StorageProofError};

fn nodes(xs: &[&[u8]]) -> Vec<Vec<u8>> {
    xs.iter().map(|x| x.to_vec()).collect()
}

#[test]
fn new_deduplicates_and_counts_distinct_nodes() {
    let p = StorageProof::new(nodes(&[b"beta", b"alpha", b"beta", b"gamma", b"alpha"]));
    assert_eq!(p.len(), 3);
    assert!(!p.is_empty());
}

#[test]
fn new_on_distinct_nodes_keeps_them_all() {
    let input = nodes(&[b"one", b"two", b"three"]);
    let p = StorageProof::new(input.clone());
    assert_eq!(p.len(), input.len());
    let mut expected = input;
    expected.sort();
    assert_eq!(p.into_iter_nodes(), expected);
}

#[test]
fn iteration_is_lexicographic() {
    let p = StorageProof::new(nodes(&[b"zz", b"a", b"ab", b"", b"z"]));
    let got = p.into_iter_nodes();
    assert_eq!(got, nodes(&[b"", b"a", b"ab", b"z", b"zz"]));
}

#[test]
fn duplicate_check_accepts_distinct_nodes() {
    let input = nodes(&[b"one", b"two", b"three"]);
    let checked = StorageProof::new_with_duplicate_nodes_check(input.clone()).unwrap();
    let unchecked = StorageProof::new(input);
    assert_eq!(checked, unchecked);
}

#[test]
fn duplicate_check_rejects_duplicates() {
    let r = StorageProof::new_with_duplicate_nodes_check(nodes(&[b"one", b"two", b"one"]));
    assert!(matches!(r, Err(StorageProofError::DuplicateNodes)));
    // The unchecked constructor still accepts the same input, deduplicating.
    let p = StorageProof::new(nodes(&[b"one", b"two", b"one"]));
    assert_eq!(p.len(), 2);
}

#[test]
fn empty_proof_is_empty() {
    let p = StorageProof::empty();
    assert!(p.is_empty());
    assert_eq!(p.len(), 0);
    assert_eq!(p.into_nodes(), Vec::<Vec<u8>>::new());
}

#[test]
fn merge_is_commutative_on_node_content() {
    let a = StorageProof::new(nodes(&[b"x", b"y"]));
    let b = StorageProof::new(nodes(&[b"y", b"z"]));
    let ab = StorageProof::merge(vec![a.clone(), b.clone()]);
    let ba = StorageProof::merge(vec![b, a]);
    assert_eq!(ab, ba);
    assert_eq!(ab.len(), 3);
}

#[test]
fn merge_is_idempotent_on_node_content() {
    let a = StorageProof::new(nodes(&[b"x", b"y"]));
    let aa = StorageProof::merge(vec![a.clone(), a.clone()]);
    assert_eq!(aa, a);
}

#[test]
fn merge_deduplicates_shared_nodes() {
    let a = StorageProof::new(nodes(&[b"shared", b"only-a"]));
    let b = StorageProof::new(nodes(&[b"shared", b"only-b"]));
    let merged = StorageProof::merge(vec![a.clone(), b.clone()]);
    assert!(merged.len() <= a.len() + b.len());
    assert_eq!(merged.len(), 3);
    assert_eq!(
        merged.into_iter_nodes(),
        nodes(&[b"only-a", b"only-b", b"shared"])
    );
}

#[test]
fn iter_nodes_matches_into_iter_nodes() {
    let p = StorageProof::new(nodes(&[b"b", b"a"]));
    let borrowed: Vec<Vec<u8>> = p.iter_nodes().clone();
    assert_eq!(borrowed, p.into_iter_nodes());
}
