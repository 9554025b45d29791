//! The compaction engine and the compact proof type.
//!
//! Compaction walks the trie from a given root over a node store built from
//! a storage proof, and emits the reachable nodes in pre-order: a node comes
//! first, then the subtrees of its children in slot order. In each emitted
//! branch node, the digest of every child that is itself part of the store
//! is omitted, because the decoder will reconstruct that child from the
//! entries that follow and can recompute the digest; the digests of children
//! outside the store stay in place.

use vstd::prelude::*;
use crate::db::{bump, MemoryDb};
use crate::hashing::blake2b256;
use crate::node::{
    child_views, children_hashes_wf, children_sorted, decode_node, encode_node, lemma_decode_wf,
    node_full, spec_decode_node, spec_encode_node, ChildRef, NodeModel, TrieNode,
};
use crate::order::{byte_views, copy_bytes};
use crate::scale::{scale_encoded_size, scale_encoded_size_exec, scale_size_check, scale_size_fits};
use crate::storage::StorageProof;

verus! {

/// Errors of the compact proof transforms.
#[derive(Clone, Copy, Debug, PartialEq, Eq)]
pub enum CompactProofError {
    /// A node the traversal needs is missing from the node set, or the
    /// traversal does not terminate within the node set's size.
    IncompleteProof,
    /// A byte string cannot be decoded as a full trie node.
    MalformedNode,
    /// The reconstructed root differs from the expected root.
    RootMismatch,
}

/// A storage proof in compact form: the nodes of the proven paths in
/// pre-order, with the digests of children reconstructible from the stream
/// omitted. The order carries the structure, so it must be preserved
/// exactly; entries need not be distinct.
#[derive(Clone, Debug, PartialEq, Eq)]
pub struct CompactProof {
    pub encoded_nodes: Vec<Vec<u8>>,
}

impl View for CompactProof {
    type V = Seq<Seq<u8>>;

    open spec fn view(&self) -> Seq<Seq<u8>> {
        byte_views(self.encoded_nodes@)
    }
}

impl CompactProof {
    /// The ordered compact node encodings.
    pub fn iter_compact_encoded_nodes(&self) -> (r: &Vec<Vec<u8>>)
        ensures
            byte_views(r@) == self@,
    {
        &self.encoded_nodes
    }
}

/// The node store a sequence of nodes builds: each node inserted under its
/// blake2b-256 digest, a repeated digest raising the count and keeping the
/// first bytes.
pub open spec fn db_of_nodes(nodes: Seq<Seq<u8>>) -> Map<Seq<u8>, (Seq<u8>, u64)>
    decreases nodes.len(),
{
    if nodes.len() == 0 {
        Map::empty()
    } else {
        let m = db_of_nodes(nodes.drop_last());
        let k = blake2b256(nodes.last());
        if m.contains_key(k) {
            m.insert(k, (m[k].0, bump(m[k].1)))
        } else {
            m.insert(k, (nodes.last(), 1u64))
        }
    }
}

/// What compacting the subtree rooted at digest `h` emits: the pre-order
/// entry sequence, or the error. `fuel` bounds the traversal depth; the
/// top-level call grants the store's size, which any acyclic reachable
/// structure stays within.
pub open spec fn spec_compact(
    db: Map<Seq<u8>, (Seq<u8>, u64)>,
    h: Seq<u8>,
    fuel: nat,
) -> Result<Seq<Seq<u8>>, CompactProofError>
    decreases fuel, 0nat,
{
    if fuel == 0 {
        Err(CompactProofError::IncompleteProof)
    } else if !db.contains_key(h) {
        Err(CompactProofError::IncompleteProof)
    } else {
        match spec_decode_node(db[h].0) {
            None => Err(CompactProofError::MalformedNode),
            Some(m) => if !node_full(m) {
                Err(CompactProofError::MalformedNode)
            } else {
                match m {
                    NodeModel::Leaf { .. } => Ok(seq![db[h].0]),
                    NodeModel::Branch { partial_key, value, children } => {
                        match spec_compact_children(db, children, (fuel - 1) as nat) {
                            Err(e) => Err(e),
                            Ok(cc) => Ok(
                                seq![
                                    spec_encode_node(
                                        NodeModel::Branch { partial_key, value, children: cc.0 },
                                    ),
                                ] + cc.1,
                            ),
                        }
                    },
                }
            },
        }
    }
}

/// What compacting a list of child slots emits: the compacted slots — a
/// digest held in the store becomes an omitted slot — and the concatenated
/// pre-order entries of the omitted children's subtrees, in slot order.
pub open spec fn spec_compact_children(
    db: Map<Seq<u8>, (Seq<u8>, u64)>,
    cs: Seq<(u8, Option<Seq<u8>>)>,
    fuel: nat,
) -> Result<(Seq<(u8, Option<Seq<u8>>)>, Seq<Seq<u8>>), CompactProofError>
    decreases fuel, cs.len() + 1,
{
    if cs.len() == 0 {
        Ok((Seq::empty(), Seq::empty()))
    } else {
        let c = cs[0];
        match c.1 {
            None => match spec_compact_children(db, cs.skip(1), fuel) {
                Err(e) => Err(e),
                Ok(rr) => Ok((seq![c] + rr.0, rr.1)),
            },
            Some(ch) => if db.contains_key(ch) {
                match spec_compact(db, ch, fuel) {
                    Err(e) => Err(e),
                    Ok(subs) => match spec_compact_children(db, cs.skip(1), fuel) {
                        Err(e) => Err(e),
                        Ok(rr) => Ok(
                            (seq![(c.0, Option::<Seq<u8>>::None)] + rr.0, subs + rr.1),
                        ),
                    },
                }
            } else {
                match spec_compact_children(db, cs.skip(1), fuel) {
                    Err(e) => Err(e),
                    Ok(rr) => Ok((seq![c] + rr.0, rr.1)),
                }
            },
        }
    }
}


/// The full node encodings that compaction starting at digest `h` walks, in
/// post-order: a node's children's subtrees first, then the node itself —
/// the order in which the decompaction engine completes them.
pub open spec fn reachable_nodes(
    db: Map<Seq<u8>, (Seq<u8>, u64)>,
    h: Seq<u8>,
    fuel: nat,
) -> Seq<Seq<u8>>
    decreases fuel, 0nat,
{
    if fuel == 0 || !db.contains_key(h) {
        Seq::empty()
    } else {
        match spec_decode_node(db[h].0) {
            None => Seq::empty(),
            Some(m) => match m {
                NodeModel::Leaf { .. } => seq![db[h].0],
                NodeModel::Branch { children, .. } => reachable_children(
                    db,
                    children,
                    (fuel - 1) as nat,
                ) + seq![db[h].0],
            },
        }
    }
}

/// The full node encodings the subtrees of a child-slot list cover, in slot
/// order: only children whose digest the store holds are walked.
pub open spec fn reachable_children(
    db: Map<Seq<u8>, (Seq<u8>, u64)>,
    cs: Seq<(u8, Option<Seq<u8>>)>,
    fuel: nat,
) -> Seq<Seq<u8>>
    decreases fuel, cs.len() + 1,
{
    if cs.len() == 0 {
        Seq::empty()
    } else {
        match cs[0].1 {
            None => reachable_children(db, cs.skip(1), fuel),
            Some(ch) => if db.contains_key(ch) {
                reachable_nodes(db, ch, fuel) + reachable_children(db, cs.skip(1), fuel)
            } else {
                reachable_children(db, cs.skip(1), fuel)
            },
        }
    }
}

/// Compacted child slots keep the indices, the order and the width of the
/// kept digests of the slots they come from.
pub proof fn lemma_compact_children_shape(
    db: Map<Seq<u8>, (Seq<u8>, u64)>,
    cs: Seq<(u8, Option<Seq<u8>>)>,
    fuel: nat,
)
    requires
        spec_compact_children(db, cs, fuel) is Ok,
    ensures
        ({
            let cc = spec_compact_children(db, cs, fuel).unwrap().0;
            cc.len() == cs.len() && forall|i: int|
                0 <= i < cs.len() ==> (#[trigger] cc[i]).0 == cs[i].0 && (cc[i].1 is Some
                    ==> cc[i].1 == cs[i].1)
        }),
    decreases cs.len(),
{
    if cs.len() > 0 {
        let cc = spec_compact_children(db, cs, fuel).unwrap().0;
        let rest = spec_compact_children(db, cs.skip(1), fuel).unwrap().0;
        lemma_compact_children_shape(db, cs.skip(1), fuel);
        assert forall|i: int| 0 <= i < cs.len() implies (#[trigger] cc[i]).0 == cs[i].0 && (
        cc[i].1 is Some ==> cc[i].1 == cs[i].1) by {
            if i > 0 {
                assert(cc[i] == rest[i - 1]);
                assert(cs.skip(1)[i - 1] == cs[i]);
            }
        }
    }
}

/// What the executable engine may return: exactly what the specification
/// says, entry for entry.
pub open spec fn entries_match(
    r: Result<Vec<Vec<u8>>, CompactProofError>,
    s: Result<Seq<Seq<u8>>, CompactProofError>,
) -> bool {
    match r {
        Ok(v) => s == Ok::<Seq<Seq<u8>>, CompactProofError>(byte_views(v@)),
        Err(e) => s == Err::<Seq<Seq<u8>>, CompactProofError>(e),
    }
}

/// As [`entries_match`], for the child-slot stage of the engine.
spec fn children_match(
    r: Result<(Vec<ChildRef>, Vec<Vec<u8>>), CompactProofError>,
    s: Result<(Seq<(u8, Option<Seq<u8>>)>, Seq<Seq<u8>>), CompactProofError>,
) -> bool {
    match r {
        Ok(p) => s == Ok::<(Seq<(u8, Option<Seq<u8>>)>, Seq<Seq<u8>>), CompactProofError>(
            (child_views(p.0@), byte_views(p.1@)),
        ),
        Err(e) => s == Err::<(Seq<(u8, Option<Seq<u8>>)>, Seq<Seq<u8>>), CompactProofError>(e),
    }
}

/// Reports whether the node encodes no omitted child slot.
fn node_full_exec(n: &TrieNode) -> (r: bool)
    ensures
        r == node_full(n@),
{
    match n {
        TrieNode::Leaf { .. } => true,
        TrieNode::Branch { children, .. } => {
            let r = all_children_kept(children);
            proof {
                let cv = child_views(children@);
                assert(node_full(n@) == (forall|j: int|
                    0 <= j < cv.len() ==> (#[trigger] cv[j]).1 is Some));
            }
            r
        },
    }
}

/// Reports whether every child slot carries a digest.
fn all_children_kept(children: &Vec<ChildRef>) -> (r: bool)
    ensures
        r == (forall|j: int| 0 <= j < children@.len() ==> (#[trigger] child_views(
            children@,
        )[j]).1 is Some),
{
    let mut i: usize = 0;
    while i < children.len()
        invariant
            i <= children.len(),
            forall|j: int| 0 <= j < i ==> (#[trigger] child_views(children@)[j]).1 is Some,
        decreases children.len() - i,
    {
        if children[i].hash.is_none() {
            proof {
                assert(child_views(children@)[i as int].1 is None);
            }
            return false;
        }
        proof {
            assert(child_views(children@)[i as int].1 is Some);
        }
        i = i + 1;
    }
    true
}

/// Compacts the subtree rooted at digest `h`, exactly as [`spec_compact`]
/// says.
#[verifier::rlimit(100)]
fn compact_node(db: &MemoryDb, h: &Vec<u8>, fuel: usize) -> (r: Result<
    Vec<Vec<u8>>,
    CompactProofError,
>)
    requires
        db.wf(),
    ensures
        entries_match(r, spec_compact(db@, h@, fuel as nat)),
    decreases fuel as nat, 0nat,
{
    if fuel == 0 {
        return Err(CompactProofError::IncompleteProof);
    }
    let bytes = match db.get(h) {
        None => {
            return Err(CompactProofError::IncompleteProof);
        },
        Some(b) => b,
    };
    let node = match decode_node(bytes) {
        None => {
            return Err(CompactProofError::MalformedNode);
        },
        Some(n) => n,
    };
    if !node_full_exec(&node) {
        return Err(CompactProofError::MalformedNode);
    }
    let ghost m = node@;
    proof {
        lemma_decode_wf(db@[h@].0);
    }
    match node {
        TrieNode::Leaf { .. } => {
            let mut out: Vec<Vec<u8>> = Vec::new();
            out.push(copy_bytes(bytes));
            proof {
                assert(byte_views(out@) =~= seq![db@[h@].0]);
            }
            Ok(out)
        },
        TrieNode::Branch { partial_key, value, children } => {
            let ghost cviews = child_views(children@);
            proof {
                assert(cviews.skip(0) =~= cviews);
            }
            match compact_children(db, &children, 0, fuel - 1) {
                Err(e) => Err(e),
                Ok((cc, subs)) => {
                    proof {
                        lemma_compact_children_shape(db@, cviews, (fuel - 1) as nat);
                        let ncv = child_views(cc@);
                        assert(children_sorted(ncv)) by {
                            assert forall|i: int| 0 <= i < ncv.len() - 1 implies
                                (#[trigger] ncv[i].0) < ncv[i + 1].0 by {
                                assert(ncv[i].0 == cviews[i].0);
                                assert(ncv[i + 1].0 == cviews[i + 1].0);
                            }
                        }
                        assert(children_hashes_wf(ncv)) by {
                            assert forall|i: int| 0 <= i < ncv.len() implies match (
                            #[trigger] ncv[i]).1 {
                                Some(hh) => hh.len() == crate::hashing::DIGEST_LEN,
                                None => true,
                            } by {
                                if ncv[i].1 is Some {
                                    assert(ncv[i].1 == cviews[i].1);
                                }
                            }
                        }
                    }
                    let new_node = TrieNode::Branch { partial_key, value, children: cc };
                    let encoded = encode_node(&new_node);
                    let mut subs = subs;
                    let ghost subs_views = byte_views(subs@);
                    let mut out: Vec<Vec<u8>> = Vec::new();
                    out.push(encoded);
                    out.append(&mut subs);
                    proof {
                        assert(byte_views(out@) =~= seq![spec_encode_node(new_node@)]
                            + subs_views);
                        let scc = spec_compact_children(db@, cviews, (fuel - 1) as nat);
                        assert(scc == Ok::<
                            (Seq<(u8, Option<Seq<u8>>)>, Seq<Seq<u8>>),
                            CompactProofError,
                        >((child_views(cc@), subs_views)));
                        assert(m is Branch);
                        assert(m matches NodeModel::Branch { partial_key: mpk, value: mv, .. }
                            ==> new_node@ == NodeModel::Branch {
                            partial_key: mpk,
                            value: mv,
                            children: child_views(cc@),
                        });
                        assert(spec_compact(db@, h@, fuel as nat) == Ok::<
                            Seq<Seq<u8>>,
                            CompactProofError,
                        >(seq![spec_encode_node(new_node@)] + subs_views));
                    }
                    Ok(out)
                },
            }
        },
    }
}

/// Compacts the child slots of a branch node from slot `start` on, exactly
/// as [`spec_compact_children`] says of the remaining slots.
fn compact_children(db: &MemoryDb, children: &Vec<ChildRef>, start: usize, fuel: usize) -> (r:
    Result<(Vec<ChildRef>, Vec<Vec<u8>>), CompactProofError>)
    requires
        db.wf(),
        start <= children.len(),
    ensures
        children_match(
            r,
            spec_compact_children(db@, child_views(children@).skip(start as int), fuel as nat),
        ),
    decreases fuel as nat, children@.len() - start + 1,
{
    let ghost cs = child_views(children@).skip(start as int);
    if start == children.len() {
        let cc: Vec<ChildRef> = Vec::new();
        let subs: Vec<Vec<u8>> = Vec::new();
        proof {
            assert(cs =~= Seq::<(u8, Option<Seq<u8>>)>::empty());
            assert(child_views(cc@) =~= Seq::<(u8, Option<Seq<u8>>)>::empty());
            assert(byte_views(subs@) =~= Seq::<Seq<u8>>::empty());
        }
        return Ok((cc, subs));
    }
    let c = &children[start];
    proof {
        assert(cs[0] == child_views(children@)[start as int]);
        assert(cs.skip(1) =~= child_views(children@).skip(start as int + 1));
    }
    match &c.hash {
        None => {
            match compact_children(db, children, start + 1, fuel) {
                Err(e) => Err(e),
                Ok((rest, rsubs)) => {
                    let ghost rv = child_views(rest@);
                    let mut cc = rest;
                    cc.insert(0, ChildRef { index: c.index, hash: None });
                    proof {
                        assert(child_views(cc@) =~= seq![(c.index, Option::<Seq<u8>>::None)]
                            + rv);
                        assert(cs[0] == (c.index, Option::<Seq<u8>>::None));
                    }
                    Ok((cc, rsubs))
                },
            }
        },
        Some(ch) => {
            if db.contains_key(ch) {
                match compact_node(db, ch, fuel) {
                    Err(e) => Err(e),
                    Ok(subs) => {
                        match compact_children(db, children, start + 1, fuel) {
                            Err(e) => Err(e),
                            Ok((rest, rsubs)) => {
                                let ghost rv = child_views(rest@);
                                let ghost sv = byte_views(subs@);
                                let ghost rsv = byte_views(rsubs@);
                                let mut cc = rest;
                                cc.insert(0, ChildRef { index: c.index, hash: None });
                                let mut subs = subs;
                                let mut rsubs = rsubs;
                                subs.append(&mut rsubs);
                                proof {
                                    assert(child_views(cc@) =~= seq![
                                        (c.index, Option::<Seq<u8>>::None),
                                    ] + rv);
                                    assert(byte_views(subs@) =~= sv + rsv);
                                }
                                Ok((cc, subs))
                            },
                        }
                    },
                }
            } else {
                match compact_children(db, children, start + 1, fuel) {
                    Err(e) => Err(e),
                    Ok((rest, rsubs)) => {
                        let ghost rv = child_views(rest@);
                        let mut cc = rest;
                        cc.insert(0, ChildRef { index: c.index, hash: Some(copy_bytes(ch)) });
                        proof {
                            assert(child_views(cc@) =~= seq![(c.index, Some(ch@))] + rv);
                            assert(cs[0] == (c.index, Some(ch@)));
                        }
                        Ok((cc, rsubs))
                    },
                }
            }
        },
    }
}

/// What converting a storage proof to compact form yields: compaction from
/// the root over the proof's node store, with traversal depth allowance
/// equal to the store's size.
pub open spec fn spec_into_compact(
    db: Map<Seq<u8>, (Seq<u8>, u64)>,
    root: Seq<u8>,
) -> Result<Seq<Seq<u8>>, CompactProofError> {
    spec_compact(db, root, db.dom().len())
}

impl StorageProof {
    /// Builds the in-memory node store of the proof: every node keyed by its
    /// blake2b-256 digest.
    pub fn to_memory_db(&self) -> (r: MemoryDb)
        ensures
            r.wf(),
            r@ == db_of_nodes(self.nodes_seq()),
    {
        let nodes = self.iter_nodes();
        let mut db = MemoryDb::new();
        let mut i: usize = 0;
        proof {
            assert(self.nodes_seq().take(0) =~= Seq::<Seq<u8>>::empty());
        }
        while i < nodes.len()
            invariant
                i <= nodes.len(),
                byte_views(nodes@) == self.nodes_seq(),
                db.wf(),
                db@ == db_of_nodes(self.nodes_seq().take(i as int)),
            decreases nodes.len() - i,
        {
            let node = copy_bytes(&nodes[i]);
            let ghost pre = db@;
            db.insert(node);
            proof {
                let ns = self.nodes_seq();
                assert(ns.take(i + 1).drop_last() =~= ns.take(i as int));
                assert(ns.take(i + 1).last() == ns[i as int]);
            }
            i = i + 1;
        }
        proof {
            assert(self.nodes_seq().take(self.nodes_seq().len() as int) =~= self.nodes_seq());
        }
        db
    }

    /// As [`StorageProof::to_memory_db`], consuming the proof.
    pub fn into_memory_db(self) -> (r: MemoryDb)
        ensures
            r.wf(),
            r@ == db_of_nodes(self.nodes_seq()),
    {
        self.to_memory_db()
    }

    /// Encodes the proof as a compact proof for the trie rooted at `root`:
    /// exactly what [`spec_into_compact`] says of the proof's node store,
    /// and an error exactly when it says so — when the root or a needed
    /// node is missing from the proof, or a node is no full encoding.
    pub fn to_compact_proof(&self, root: &Vec<u8>) -> (r: Result<
        CompactProof,
        CompactProofError,
    >)
        ensures
            r matches Ok(c) ==> spec_into_compact(db_of_nodes(self.nodes_seq()), root@) == Ok::<
                Seq<Seq<u8>>,
                CompactProofError,
            >(c@),
            r matches Err(e) ==> spec_into_compact(db_of_nodes(self.nodes_seq()), root@) == Err::<
                Seq<Seq<u8>>,
                CompactProofError,
            >(e),
    {
        let db = self.to_memory_db();
        let fuel = db.len();
        match compact_node(&db, root, fuel) {
            Err(e) => Err(e),
            Ok(entries) => Ok(CompactProof { encoded_nodes: entries }),
        }
    }

    /// As [`StorageProof::to_compact_proof`], consuming the proof.
    pub fn into_compact_proof(self, root: &Vec<u8>) -> (r: Result<
        CompactProof,
        CompactProofError,
    >)
        ensures
            r matches Ok(c) ==> spec_into_compact(db_of_nodes(self.nodes_seq()), root@) == Ok::<
                Seq<Seq<u8>>,
                CompactProofError,
            >(c@),
            r matches Err(e) ==> spec_into_compact(db_of_nodes(self.nodes_seq()), root@) == Err::<
                Seq<Seq<u8>>,
                CompactProofError,
            >(e),
    {
        self.to_compact_proof(root)
    }

    /// The SCALE-encoded size of the proof's compact form, or nothing
    /// exactly when conversion to compact form fails. Running this builds
    /// the whole compact proof, so it is slow and not for hot paths.
    pub fn encoded_compact_size(self, root: &Vec<u8>) -> (r: Option<usize>)
        ensures
            ({
                let compacted = spec_into_compact(db_of_nodes(self.nodes_seq()), root@);
                match compacted {
                    Err(_) => r is None,
                    Ok(c) => if scale_size_fits(c) {
                        r == Some(scale_encoded_size(c) as usize)
                    } else {
                        r is None
                    },
                }
            }),
    {
        match self.to_compact_proof(root) {
            Err(_) => None,
            Ok(c) => {
                match scale_size_check(&c.encoded_nodes) {
                    None => None,
                    Some(sz) => {
                        if sz <= usize::MAX as u128 {
                            Some(scale_encoded_size_exec(&c.encoded_nodes))
                        } else {
                            None
                        }
                    },
                }
            },
        }
    }
}

} // verus!
