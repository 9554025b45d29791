//! The decompaction engine: rebuilding a node store from a compact proof.
//!
//! The entries of a compact proof are consumed in order. An entry is decoded
//! as a trie node; each of its omitted child slots is resolved by first
//! reconstructing the child from the entries that follow, depth first and in
//! slot order, and filling the slot with the child's recomputed digest. The
//! node is then re-encoded in full, its digest is computed, and the full
//! encoding is stored under that digest. The node reconstructed by the first
//! entry completes last, and its digest is the trie root.

use vstd::prelude::*;
use crate::compact::{
    db_of_nodes, lemma_compact_children_shape, reachable_children, reachable_nodes, spec_compact,
    spec_compact_children, spec_into_compact, CompactProof, CompactProofError,
};
use crate::db::{keyed_by_content_hash, MemoryDb};
use crate::hashing::{blake2b256, hash_bytes, DIGEST_LEN};
use crate::node::{
    child_views, children_hashes_wf, children_sorted, decode_node, encode_node, lemma_decode_wf,
    lemma_decode_encode_roundtrip, lemma_decode_sound, node_wf, spec_decode_node,
    spec_encode_node, ChildRef, NodeModel, TrieNode,
};
use crate::order::{byte_views, bytes_eq, copy_bytes};
use crate::storage::StorageProof;

verus! {

/// What reconstructing one subtree from the entries at `pos` yields: the
/// full encodings of its nodes in completion order, the subtree's digest,
/// and the position after its entries. `fuel` bounds the depth; the
/// top-level call grants one unit per entry, which any stream whose
/// subtrees each consume an entry stays within.
pub open spec fn spec_reconstruct_subtree(
    entries: Seq<Seq<u8>>,
    pos: int,
    fuel: nat,
) -> Result<(Seq<Seq<u8>>, Seq<u8>, int), CompactProofError>
    decreases fuel, 0nat,
{
    if fuel == 0 || pos < 0 || pos >= entries.len() {
        Err(CompactProofError::IncompleteProof)
    } else {
        match spec_decode_node(entries[pos]) {
            None => Err(CompactProofError::MalformedNode),
            Some(m) => match m {
                NodeModel::Leaf { .. } => {
                    let full = spec_encode_node(m);
                    Ok((seq![full], blake2b256(full), pos + 1))
                },
                NodeModel::Branch { partial_key, value, children } => {
                    match spec_reconstruct_children(entries, pos + 1, children, (fuel - 1) as nat) {
                        Err(e) => Err(e),
                        Ok(rr) => {
                            let full = spec_encode_node(
                                NodeModel::Branch { partial_key, value, children: rr.1 },
                            );
                            Ok((rr.0 + seq![full], blake2b256(full), rr.2))
                        },
                    }
                },
            },
        }
    }
}

/// Resolves a list of child slots against the entries from `pos` on: a kept
/// digest stays, an omitted slot is filled with the digest of the subtree
/// reconstructed next. Yields the reconstructed nodes in completion order,
/// the resolved slots, and the position after the consumed entries.
pub open spec fn spec_reconstruct_children(
    entries: Seq<Seq<u8>>,
    pos: int,
    cs: Seq<(u8, Option<Seq<u8>>)>,
    fuel: nat,
) -> Result<(Seq<Seq<u8>>, Seq<(u8, Option<Seq<u8>>)>, int), CompactProofError>
    decreases fuel, cs.len() + 1,
{
    if cs.len() == 0 {
        Ok((Seq::empty(), Seq::empty(), pos))
    } else {
        let c = cs[0];
        match c.1 {
            Some(_) => match spec_reconstruct_children(entries, pos, cs.skip(1), fuel) {
                Err(e) => Err(e),
                Ok(rr) => Ok((rr.0, seq![c] + rr.1, rr.2)),
            },
            None => match spec_reconstruct_subtree(entries, pos, fuel) {
                Err(e) => Err(e),
                Ok(sub) => match spec_reconstruct_children(entries, sub.2, cs.skip(1), fuel) {
                    Err(e) => Err(e),
                    Ok(rr) => Ok((sub.0 + rr.0, seq![(c.0, Some(sub.1))] + rr.1, rr.2)),
                },
            },
        }
    }
}

/// What reconstructing a whole compact proof yields: the full node
/// encodings and the root digest — the digest of the node the first entry
/// carries, which completes last. An empty proof reconstructs nothing, and
/// entries beyond the first subtree are rejected.
pub open spec fn spec_reconstruct(entries: Seq<Seq<u8>>) -> Result<
    (Seq<Seq<u8>>, Seq<u8>),
    CompactProofError,
> {
    if entries.len() == 0 {
        Err(CompactProofError::IncompleteProof)
    } else {
        match spec_reconstruct_subtree(entries, 0, entries.len()) {
            Err(e) => Err(e),
            Ok(t) => if t.2 == entries.len() {
                Ok((t.0, t.1))
            } else {
                Err(CompactProofError::MalformedNode)
            },
        }
    }
}

/// What the executable engine may return: exactly what the specification
/// says, part for part.
spec fn subtree_match(
    r: Result<(Vec<Vec<u8>>, Vec<u8>, usize), CompactProofError>,
    s: Result<(Seq<Seq<u8>>, Seq<u8>, int), CompactProofError>,
) -> bool {
    match r {
        Ok(t) => s == Ok::<(Seq<Seq<u8>>, Seq<u8>, int), CompactProofError>(
            (byte_views(t.0@), t.1@, t.2 as int),
        ),
        Err(e) => s == Err::<(Seq<Seq<u8>>, Seq<u8>, int), CompactProofError>(e),
    }
}

/// As [`subtree_match`], for the child-slot stage of the engine.
spec fn resolved_match(
    r: Result<(Vec<Vec<u8>>, Vec<ChildRef>, usize), CompactProofError>,
    s: Result<(Seq<Seq<u8>>, Seq<(u8, Option<Seq<u8>>)>, int), CompactProofError>,
) -> bool {
    match r {
        Ok(t) => s == Ok::<(Seq<Seq<u8>>, Seq<(u8, Option<Seq<u8>>)>, int), CompactProofError>(
            (byte_views(t.0@), child_views(t.1@), t.2 as int),
        ),
        Err(e) => s == Err::<(Seq<Seq<u8>>, Seq<(u8, Option<Seq<u8>>)>, int), CompactProofError>(
            e,
        ),
    }
}

/// Resolved child slots keep the indices and order of the slots they come
/// from, and every slot they carry holds a digest of full width.
proof fn lemma_reconstruct_children_shape(
    entries: Seq<Seq<u8>>,
    pos: int,
    cs: Seq<(u8, Option<Seq<u8>>)>,
    fuel: nat,
)
    requires
        spec_reconstruct_children(entries, pos, cs, fuel) is Ok,
    ensures
        ({
            let rs = spec_reconstruct_children(entries, pos, cs, fuel).unwrap().1;
            rs.len() == cs.len() && forall|i: int|
                0 <= i < cs.len() ==> (#[trigger] rs[i]).0 == cs[i].0 && (cs[i].1 is Some
                    ==> rs[i].1 == cs[i].1)
        }),
    decreases cs.len(),
{
    if cs.len() > 0 {
        let rs = spec_reconstruct_children(entries, pos, cs, fuel).unwrap().1;
        let c = cs[0];
        let rest_pos = if c.1 is Some {
            pos
        } else {
            spec_reconstruct_subtree(entries, pos, fuel).unwrap().2
        };
        let rest = spec_reconstruct_children(entries, rest_pos, cs.skip(1), fuel).unwrap().1;
        lemma_reconstruct_children_shape(entries, rest_pos, cs.skip(1), fuel);
        assert forall|i: int| 0 <= i < cs.len() implies (#[trigger] rs[i]).0 == cs[i].0 && (
        cs[i].1 is Some ==> rs[i].1 == cs[i].1) by {
            if i > 0 {
                assert(rs[i] == rest[i - 1]);
                assert(cs.skip(1)[i - 1] == cs[i]);
            }
        }
    }
}

/// Reconstructs one subtree, exactly as [`spec_reconstruct_subtree`] says.
#[verifier::rlimit(100)]
fn reconstruct_subtree(entries: &Vec<Vec<u8>>, pos: usize, fuel: usize) -> (r: Result<
    (Vec<Vec<u8>>, Vec<u8>, usize),
    CompactProofError,
>)
    ensures
        subtree_match(r, spec_reconstruct_subtree(byte_views(entries@), pos as int, fuel as nat)),
        r matches Ok(t) ==> pos < t.2 <= entries@.len() && t.1@.len() == DIGEST_LEN,
    decreases fuel as nat, 0nat,
{
    let ghost ev = byte_views(entries@);
    if fuel == 0 || pos >= entries.len() {
        return Err(CompactProofError::IncompleteProof);
    }
    let node = match decode_node(&entries[pos]) {
        None => {
            return Err(CompactProofError::MalformedNode);
        },
        Some(n) => n,
    };
    let ghost m = node@;
    proof {
        lemma_decode_wf(ev[pos as int]);
    }
    match node {
        TrieNode::Leaf { partial_key, value } => {
            let rebuilt = TrieNode::Leaf { partial_key, value };
            proof {
                assert(rebuilt@ == m);
            }
            let full = encode_node(&rebuilt);
            let digest = hash_bytes(&full);
            let ghost fv = full@;
            let mut nodes: Vec<Vec<u8>> = Vec::new();
            nodes.push(full);
            proof {
                assert(byte_views(nodes@) =~= seq![fv]);
            }
            Ok((nodes, digest, pos + 1))
        },
        TrieNode::Branch { partial_key, value, children } => {
            let ghost cviews = child_views(children@);
            proof {
                assert(cviews.skip(0) =~= cviews);
            }
            match reconstruct_children(entries, pos + 1, &children, 0, fuel - 1) {
                Err(e) => Err(e),
                Ok((nodes, resolved, next)) => {
                    let ghost spec_rr = spec_reconstruct_children(
                        ev,
                        pos + 1,
                        cviews,
                        (fuel - 1) as nat,
                    ).unwrap();
                    proof {
                        lemma_reconstruct_children_shape(ev, pos + 1, cviews, (fuel - 1) as nat);
                        let rcv = child_views(resolved@);
                        assert(children_sorted(rcv)) by {
                            assert forall|i: int| 0 <= i < rcv.len() - 1 implies
                                (#[trigger] rcv[i].0) < rcv[i + 1].0 by {
                                assert(rcv[i].0 == cviews[i].0);
                                assert(rcv[i + 1].0 == cviews[i + 1].0);
                            }
                        }
                    }
                    let rebuilt = TrieNode::Branch { partial_key, value, children: resolved };
                    proof {
                        assert(m matches NodeModel::Branch { partial_key: mpk, value: mv, .. }
                            ==> rebuilt@ == NodeModel::Branch {
                            partial_key: mpk,
                            value: mv,
                            children: spec_rr.1,
                        });
                    }
                    let full = encode_node(&rebuilt);
                    let digest = hash_bytes(&full);
                    let ghost fv = full@;
                    let ghost nv = byte_views(nodes@);
                    let mut nodes = nodes;
                    nodes.push(full);
                    proof {
                        assert(byte_views(nodes@) =~= nv + seq![fv]);
                        assert(spec_reconstruct_subtree(ev, pos as int, fuel as nat) == Ok::<
                            (Seq<Seq<u8>>, Seq<u8>, int),
                            CompactProofError,
                        >((nv + seq![fv], blake2b256(fv), next as int)));
                    }
                    Ok((nodes, digest, next))
                },
            }
        },
    }
}

/// Resolves the child slots of a branch node from slot `start` on, exactly
/// as [`spec_reconstruct_children`] says of the remaining slots.
fn reconstruct_children(
    entries: &Vec<Vec<u8>>,
    pos: usize,
    children: &Vec<ChildRef>,
    start: usize,
    fuel: usize,
) -> (r: Result<(Vec<Vec<u8>>, Vec<ChildRef>, usize), CompactProofError>)
    requires
        start <= children.len(),
        pos <= entries@.len(),
        children_hashes_wf(child_views(children@)),
    ensures
        resolved_match(
            r,
            spec_reconstruct_children(
                byte_views(entries@),
                pos as int,
                child_views(children@).skip(start as int),
                fuel as nat,
            ),
        ),
        r matches Ok(t) ==> pos <= t.2 <= entries@.len() && children_hashes_wf(
            child_views(t.1@),
        ),
    decreases fuel as nat, children@.len() - start + 1,
{
    let ghost ev = byte_views(entries@);
    let ghost cs = child_views(children@).skip(start as int);
    if start == children.len() {
        let nodes: Vec<Vec<u8>> = Vec::new();
        let resolved: Vec<ChildRef> = Vec::new();
        proof {
            assert(cs =~= Seq::<(u8, Option<Seq<u8>>)>::empty());
            assert(byte_views(nodes@) =~= Seq::<Seq<u8>>::empty());
            assert(child_views(resolved@) =~= Seq::<(u8, Option<Seq<u8>>)>::empty());
        }
        return Ok((nodes, resolved, pos));
    }
    let c = &children[start];
    proof {
        assert(cs[0] == child_views(children@)[start as int]);
        assert(cs.skip(1) =~= child_views(children@).skip(start as int + 1));
    }
    match &c.hash {
        Some(h) => {
            match reconstruct_children(entries, pos, children, start + 1, fuel) {
                Err(e) => Err(e),
                Ok((nodes, rest, next)) => {
                    let ghost rv = child_views(rest@);
                    let mut resolved = rest;
                    resolved.insert(0, ChildRef { index: c.index, hash: Some(copy_bytes(h)) });
                    proof {
                        assert(child_views(resolved@) =~= seq![(c.index, Some(h@))] + rv);
                        assert(cs[0] == (c.index, Some(h@)));
                        assert(child_views(children@)[start as int].1 == Some(h@));
                    }
                    Ok((nodes, resolved, next))
                },
            }
        },
        None => {
            match reconstruct_subtree(entries, pos, fuel) {
                Err(e) => Err(e),
                Ok((sub_nodes, sub_digest, sub_next)) => {
                    match reconstruct_children(entries, sub_next, children, start + 1, fuel) {
                        Err(e) => Err(e),
                        Ok((nodes, rest, next)) => {
                            let ghost rv = child_views(rest@);
                            let ghost sdv = sub_digest@;
                            let ghost snv = byte_views(sub_nodes@);
                            let ghost nv = byte_views(nodes@);
                            let mut resolved = rest;
                            resolved.insert(
                                0,
                                ChildRef { index: c.index, hash: Some(sub_digest) },
                            );
                            let mut all_nodes = sub_nodes;
                            let mut nodes = nodes;
                            all_nodes.append(&mut nodes);
                            proof {
                                assert(child_views(resolved@) =~= seq![(c.index, Some(sdv))]
                                    + rv);
                                assert(byte_views(all_nodes@) =~= snv + nv);
                                assert(cs[0] == (c.index, Option::<Seq<u8>>::None));
                            }
                            Ok((all_nodes, resolved, next))
                        },
                    }
                },
            }
        },
    }
}

impl CompactProof {
    /// Rebuilds the node store of the proof: every reconstructed full node
    /// keyed by its recomputed digest, together with the root digest —
    /// exactly what [`spec_reconstruct`] says, and an error exactly when it
    /// says so, or when the root differs from a supplied expected root.
    pub fn to_memory_db(&self, expected_root: Option<&Vec<u8>>) -> (r: Result<
        (MemoryDb, Vec<u8>),
        CompactProofError,
    >)
        ensures
            ({
                let s = spec_reconstruct(self@);
                match s {
                    Err(e) => r == Err::<(MemoryDb, Vec<u8>), CompactProofError>(e),
                    Ok(p) => match expected_root {
                        Some(er) => if er@ != p.1 {
                            r == Err::<(MemoryDb, Vec<u8>), CompactProofError>(
                                CompactProofError::RootMismatch,
                            )
                        } else {
                            r matches Ok(out) && out.0.wf() && out.0@ == db_of_nodes(p.0)
                                && out.1@ == p.1
                        },
                        None => r matches Ok(out) && out.0.wf() && out.0@ == db_of_nodes(p.0)
                            && out.1@ == p.1,
                    },
                }
            }),
    {
        let entries = &self.encoded_nodes;
        if entries.len() == 0 {
            return Err(CompactProofError::IncompleteProof);
        }
        match reconstruct_subtree(entries, 0, entries.len()) {
            Err(e) => Err(e),
            Ok((nodes, root, next)) => {
                if next != entries.len() {
                    return Err(CompactProofError::MalformedNode);
                }
                match expected_root {
                    Some(er) => {
                        if !bytes_eq(er, &root) {
                            return Err(CompactProofError::RootMismatch);
                        }
                    },
                    None => {},
                }
                let ghost nv = byte_views(nodes@);
                let mut db = MemoryDb::new();
                let mut i: usize = 0;
                proof {
                    assert(nv.take(0) =~= Seq::<Seq<u8>>::empty());
                }
                while i < nodes.len()
                    invariant
                        i <= nodes.len(),
                        nv == byte_views(nodes@),
                        db.wf(),
                        db@ == db_of_nodes(nv.take(i as int)),
                    decreases nodes.len() - i,
                {
                    db.insert(copy_bytes(&nodes[i]));
                    proof {
                        assert(nv.take(i + 1).drop_last() =~= nv.take(i as int));
                        assert(nv.take(i + 1).last() == nv[i as int]);
                    }
                    i = i + 1;
                }
                proof {
                    assert(nv.take(nodes.len() as int) =~= nv);
                }
                Ok((db, root))
            },
        }
    }

    /// Rebuilds a full storage proof from the compact proof, together with
    /// the root digest: the proof holds exactly the reconstructed nodes the
    /// store keeps with a positive reference count. Errors exactly as
    /// [`CompactProof::to_memory_db`] does.
    pub fn to_storage_proof(&self, expected_root: Option<&Vec<u8>>) -> (r: Result<
        (StorageProof, Vec<u8>),
        CompactProofError,
    >)
        ensures
            ({
                let s = spec_reconstruct(self@);
                match s {
                    Err(e) => r == Err::<(StorageProof, Vec<u8>), CompactProofError>(e),
                    Ok(p) => match expected_root {
                        Some(er) => if er@ != p.1 {
                            r == Err::<(StorageProof, Vec<u8>), CompactProofError>(
                                CompactProofError::RootMismatch,
                            )
                        } else {
                            r matches Ok(out) && out.0.wf() && out.0@
                                == crate::db::positive_count_values(db_of_nodes(p.0)) && out.1@
                                == p.1
                        },
                        None => r matches Ok(out) && out.0.wf() && out.0@
                            == crate::db::positive_count_values(db_of_nodes(p.0)) && out.1@
                            == p.1,
                    },
                }
            }),
    {
        match self.to_memory_db(expected_root) {
            Err(e) => Err(e),
            Ok((db, root)) => {
                let kept = db.into_node_values();
                Ok((StorageProof::new(kept), root))
            },
        }
    }
}

/// `x` is an encoding the store holds.
pub open spec fn from_db(db: Map<Seq<u8>, (Seq<u8>, u64)>, x: Seq<u8>) -> bool {
    exists|k: Seq<u8>| db.contains_key(k) && x == (#[trigger] db[k]).0
}

/// Every entry of `nodes` is an encoding the store holds.
pub open spec fn all_from_db(db: Map<Seq<u8>, (Seq<u8>, u64)>, nodes: Seq<Seq<u8>>) -> bool {
    forall|j: int| 0 <= j < nodes.len() ==> from_db(db, #[trigger] nodes[j])
}

/// Whatever compaction emits is at least one entry long: the node itself
/// comes first.
proof fn lemma_compact_emits_entries(db: Map<Seq<u8>, (Seq<u8>, u64)>, h: Seq<u8>, fuel: nat)
    requires
        spec_compact(db, h, fuel) is Ok,
    ensures
        spec_compact(db, h, fuel).unwrap().len() >= 1,
{
}


/// Concatenating two sequences of stored encodings stays within the store.
proof fn lemma_all_from_db_concat(
    db: Map<Seq<u8>, (Seq<u8>, u64)>,
    a: Seq<Seq<u8>>,
    b: Seq<Seq<u8>>,
)
    requires
        all_from_db(db, a),
        all_from_db(db, b),
    ensures
        all_from_db(db, a + b),
{
    assert forall|j: int| 0 <= j < (a + b).len() implies from_db(db, #[trigger] (a + b)[j]) by {
        if j < a.len() {
            assert((a + b)[j] == a[j]);
            assert(from_db(db, a[j]));
        } else {
            assert((a + b)[j] == b[j - a.len()]);
            assert(from_db(db, b[j - a.len()]));
        }
    }
}

/// A window of a stream that holds a concatenation splits into windows that
/// hold the parts.
proof fn lemma_subrange_split(entries: Seq<Seq<u8>>, pos: int, a: Seq<Seq<u8>>, b: Seq<Seq<u8>>)
    requires
        0 <= pos,
        pos + a.len() + b.len() <= entries.len(),
        entries.subrange(pos, pos + a.len() + b.len()) =~= a + b,
    ensures
        entries.subrange(pos, pos + a.len() as int) =~= a,
        entries.subrange(pos + a.len(), pos + a.len() + b.len()) =~= b,
{
    let whole = entries.subrange(pos, pos + a.len() + b.len());
    assert forall|i: int| 0 <= i < a.len() implies #[trigger] entries.subrange(
        pos,
        pos + a.len() as int,
    )[i] == a[i] by {
        assert(whole[i] == (a + b)[i]);
    }
    assert forall|i: int| 0 <= i < b.len() implies #[trigger] entries.subrange(
        pos + a.len(),
        pos + a.len() + b.len(),
    )[i] == b[i] by {
        assert(whole[i + a.len()] == (a + b)[i + a.len()]);
    }
}

/// A compacted branch node is well formed, so its encoding decodes back to
/// it.
proof fn lemma_compact_node_wf(
    db: Map<Seq<u8>, (Seq<u8>, u64)>,
    m: NodeModel,
    fuel: nat,
)
    requires
        node_wf(m),
        m is Branch,
        spec_compact_children(db, m->Branch_children, fuel) is Ok,
    ensures
        ({
            let cc = spec_compact_children(db, m->Branch_children, fuel).unwrap().0;
            node_wf(
                NodeModel::Branch {
                    partial_key: m->Branch_partial_key,
                    value: m->Branch_value,
                    children: cc,
                },
            )
        }),
{
    let children = m->Branch_children;
    let cc = spec_compact_children(db, children, fuel).unwrap().0;
    lemma_compact_children_shape(db, children, fuel);
    assert(children_sorted(cc)) by {
        assert forall|i: int| 0 <= i < cc.len() - 1 implies (#[trigger] cc[i].0) < cc[i + 1].0 by {
            assert(cc[i].0 == children[i].0);
            assert(cc[i + 1].0 == children[i + 1].0);
        }
    }
    assert(children_hashes_wf(cc)) by {
        assert forall|i: int| 0 <= i < cc.len() implies match (#[trigger] cc[i]).1 {
            Some(hh) => hh.len() == DIGEST_LEN,
            None => true,
        } by {
            if cc[i].1 is Some {
                assert(cc[i].1 == children[i].1);
                assert(match children[i].1 {
                    Some(hh) => hh.len() == DIGEST_LEN,
                    None => true,
                });
            }
        }
    }
}

/// Reconstructing the subtree entries that compaction emitted at `pos` in a
/// stream succeeds, consumes exactly those entries, recomputes the digest
/// compaction started from, and yields only encodings the store holds.
#[verifier::rlimit(100)]
#[verifier::spinoff_prover]
proof fn lemma_reconstruct_of_compact(
    db: Map<Seq<u8>, (Seq<u8>, u64)>,
    h: Seq<u8>,
    fuel: nat,
    entries: Seq<Seq<u8>>,
    pos: int,
    rfuel: nat,
)
    requires
        keyed_by_content_hash(db),
        spec_compact(db, h, fuel) is Ok,
        0 <= pos,
        pos + spec_compact(db, h, fuel).unwrap().len() <= entries.len(),
        entries.subrange(pos, pos + spec_compact(db, h, fuel).unwrap().len() as int) =~=
            spec_compact(db, h, fuel).unwrap(),
        rfuel >= spec_compact(db, h, fuel).unwrap().len(),
    ensures
        ({
            let sub = spec_compact(db, h, fuel).unwrap();
            let r = spec_reconstruct_subtree(entries, pos, rfuel);
            r is Ok && r.unwrap().1 == h && r.unwrap().2 == pos + sub.len() && r.unwrap().0
                == reachable_nodes(db, h, fuel) && all_from_db(db, r.unwrap().0)
        }),
    decreases fuel, 0nat,
{
    let sub = spec_compact(db, h, fuel).unwrap();
    let stored = db[h].0;
    let m = spec_decode_node(stored).unwrap();
    lemma_decode_wf(stored);
    lemma_decode_sound(stored);
    assert(entries[pos] == sub[0]);
    match m {
        NodeModel::Leaf { .. } => {
            assert(sub =~= seq![stored]);
            assert(entries[pos] == stored);
            let r = spec_reconstruct_subtree(entries, pos, rfuel);
            assert(spec_encode_node(m) == stored);
            assert(r == Ok::<(Seq<Seq<u8>>, Seq<u8>, int), CompactProofError>(
                (seq![stored], blake2b256(stored), pos + 1),
            ));
            assert(blake2b256(stored) == h);
            assert(reachable_nodes(db, h, fuel) == seq![stored]);
            assert(all_from_db(db, seq![stored])) by {
                assert(from_db(db, stored)) by {
                    assert(db.contains_key(h) && stored == (#[trigger] db[h]).0);
                }
                assert(forall|j: int| 0 <= j < 1 ==> #[trigger] seq![stored][j] == stored);
            }
        },
        NodeModel::Branch { partial_key, value, children } => {
            let ccp = spec_compact_children(db, children, (fuel - 1) as nat).unwrap();
            let cc = ccp.0;
            let subs = ccp.1;
            let m_c = NodeModel::Branch { partial_key, value, children: cc };
            let e0 = spec_encode_node(m_c);
            assert(sub == seq![e0] + subs);
            assert(entries[pos] == e0);
            lemma_compact_node_wf(db, m, (fuel - 1) as nat);
            lemma_decode_encode_roundtrip(m_c);
            assert(spec_decode_node(entries[pos]) == Some(m_c));
            assert(entries.subrange(pos, pos + 1 + subs.len()) =~= seq![e0] + subs);
            lemma_subrange_split(entries, pos, seq![e0], subs);
            lemma_reconstruct_children_of_compact(
                db,
                children,
                (fuel - 1) as nat,
                entries,
                pos + 1,
                (rfuel - 1) as nat,
            );
            let rr = spec_reconstruct_children(
                entries,
                pos + 1,
                cc,
                (rfuel - 1) as nat,
            ).unwrap();
            assert(rr.1 == children);
            let full = spec_encode_node(
                NodeModel::Branch { partial_key, value, children: rr.1 },
            );
            assert(full == stored);
            assert(blake2b256(stored) == h);
            assert(reachable_nodes(db, h, fuel) == reachable_children(
                db,
                children,
                (fuel - 1) as nat,
            ) + seq![stored]);
            assert(all_from_db(db, seq![stored])) by {
                assert(from_db(db, stored)) by {
                    assert(db.contains_key(h) && stored == (#[trigger] db[h]).0);
                }
                assert(forall|j: int| 0 <= j < 1 ==> #[trigger] seq![stored][j] == stored);
            }
            lemma_all_from_db_concat(db, rr.0, seq![stored]);
        },
    }
}

/// Resolving the compacted slots of a branch against the stream that holds
/// the omitted children's entries at `pos` succeeds, consumes exactly those
/// entries, restores the original slots, and yields only encodings the
/// store holds.
#[verifier::rlimit(100)]
#[verifier::spinoff_prover]
proof fn lemma_reconstruct_children_of_compact(
    db: Map<Seq<u8>, (Seq<u8>, u64)>,
    cs: Seq<(u8, Option<Seq<u8>>)>,
    fuel: nat,
    entries: Seq<Seq<u8>>,
    pos: int,
    rfuel: nat,
)
    requires
        keyed_by_content_hash(db),
        spec_compact_children(db, cs, fuel) is Ok,
        forall|i: int| 0 <= i < cs.len() ==> (#[trigger] cs[i]).1 is Some,
        0 <= pos,
        pos + spec_compact_children(db, cs, fuel).unwrap().1.len() <= entries.len(),
        entries.subrange(
            pos,
            pos + spec_compact_children(db, cs, fuel).unwrap().1.len() as int,
        ) =~= spec_compact_children(db, cs, fuel).unwrap().1,
        rfuel >= spec_compact_children(db, cs, fuel).unwrap().1.len(),
    ensures
        ({
            let subs = spec_compact_children(db, cs, fuel).unwrap().1;
            let cc = spec_compact_children(db, cs, fuel).unwrap().0;
            let r = spec_reconstruct_children(entries, pos, cc, rfuel);
            r is Ok && r.unwrap().1 == cs && r.unwrap().2 == pos + subs.len() && r.unwrap().0
                == reachable_children(db, cs, fuel) && all_from_db(db, r.unwrap().0)
        }),
    decreases fuel, cs.len() + 1,
{
    let ccp = spec_compact_children(db, cs, fuel).unwrap();
    let cc = ccp.0;
    let subs = ccp.1;
    if cs.len() == 0 {
        assert(cc =~= Seq::<(u8, Option<Seq<u8>>)>::empty());
        assert(spec_reconstruct_children(entries, pos, cc, rfuel) == Ok::<
            (Seq<Seq<u8>>, Seq<(u8, Option<Seq<u8>>)>, int),
            CompactProofError,
        >((Seq::empty(), Seq::empty(), pos)));
        assert(ccp.1.len() == 0);
        assert(Seq::<(u8, Option<Seq<u8>>)>::empty() =~= cs);
        assert(reachable_children(db, cs, fuel) == Seq::<Seq<u8>>::empty());
    } else {
        let c = cs[0];
        let ch = c.1.unwrap();
        let rest = cs.skip(1);
        assert(forall|i: int| 0 <= i < rest.len() ==> (#[trigger] rest[i]) == cs[i + 1]);
        let restp = spec_compact_children(db, rest, fuel).unwrap();
        if db.contains_key(ch) {
            let sub0 = spec_compact(db, ch, fuel).unwrap();
            assert(cc == seq![(c.0, Option::<Seq<u8>>::None)] + restp.0);
            assert(subs == sub0 + restp.1);
            assert(entries.subrange(pos, pos + sub0.len() + restp.1.len()) =~= sub0 + restp.1);
            lemma_subrange_split(entries, pos, sub0, restp.1);
            lemma_compact_emits_entries(db, ch, fuel);
            lemma_reconstruct_of_compact(db, ch, fuel, entries, pos, rfuel);
            let sr = spec_reconstruct_subtree(entries, pos, rfuel).unwrap();
            assert(sr.1 == ch && sr.2 == pos + sub0.len());
            lemma_reconstruct_children_of_compact(
                db,
                rest,
                fuel,
                entries,
                pos + sub0.len() as int,
                rfuel,
            );
            let rr = spec_reconstruct_children(
                entries,
                pos + sub0.len() as int,
                restp.0,
                rfuel,
            ).unwrap();
            assert(cc[0] == (c.0, Option::<Seq<u8>>::None));
            assert(cc.skip(1) =~= restp.0);
            let got = spec_reconstruct_children(entries, pos, cc, rfuel).unwrap();
            assert(got.1 == seq![(c.0, Some(ch))] + rr.1);
            assert(got.1 =~= cs) by {
                assert(c == (c.0, Some(ch)));
            }
            assert(got.2 == pos + subs.len());
            assert(got.0 == sr.0 + rr.0);
            assert(reachable_children(db, cs, fuel) == reachable_nodes(db, ch, fuel)
                + reachable_children(db, rest, fuel));
            lemma_all_from_db_concat(db, sr.0, rr.0);
        } else {
            assert(cc == seq![c] + restp.0);
            assert(subs == restp.1);
            lemma_reconstruct_children_of_compact(db, rest, fuel, entries, pos, rfuel);
            let rr = spec_reconstruct_children(entries, pos, restp.0, rfuel).unwrap();
            assert(cc[0] == c && cc[0].1 is Some);
            assert(cc.skip(1) =~= restp.0);
            let got = spec_reconstruct_children(entries, pos, cc, rfuel).unwrap();
            assert(got.1 == seq![c] + rr.1);
            assert(got.1 =~= cs);
            assert(got.0 == rr.0);
            assert(reachable_children(db, cs, fuel) == reachable_children(db, rest, fuel));
        }
    }
}

/// Law: the compact transform round-trips. Reconstructing exactly what
/// compaction emitted for a content-addressed node store succeeds, yields
/// the root digest compaction started from, and yields only node encodings
/// the store holds — so a compact proof made with a root verifies against
/// that root, and the rebuilt proof holds nothing beyond the emitted nodes.
/// Every store the library builds is content-addressed in the sense of the
/// premise: [`MemoryDb::lemma_wf_facts`] derives it from the store's own
/// invariant.
pub proof fn lemma_compact_reconstruct_round_trip(
    db: Map<Seq<u8>, (Seq<u8>, u64)>,
    root: Seq<u8>,
)
    requires
        keyed_by_content_hash(db),
        spec_into_compact(db, root) is Ok,
    ensures
        ({
            let entries = spec_into_compact(db, root).unwrap();
            let r = spec_reconstruct(entries);
            r is Ok && r.unwrap().1 == root && r.unwrap().0 == reachable_nodes(
                db,
                root,
                db.dom().len(),
            ) && all_from_db(db, r.unwrap().0)
        }),
{
    let entries = spec_into_compact(db, root).unwrap();
    let fuel = db.dom().len();
    lemma_compact_emits_entries(db, root, fuel);
    assert(entries.subrange(0, entries.len() as int) =~= entries);
    lemma_reconstruct_of_compact(db, root, fuel, entries, 0, entries.len());
}

} // verus!
