//! The storage proof facade: a deduplicated set of encoded trie nodes.

use vstd::prelude::*;
use crate::order::{
    byte_views, bytes_eq, bytes_lt, copy_bytes, lemma_lex_irreflexive, lemma_lex_total,
    lemma_lex_transitive, lemma_sorted_unique_representation, lemma_strictly_sorted_no_duplicates,
    lex_lt, strictly_sorted,
};

verus! {

/// Errors a storage proof constructor can report.
#[derive(Clone, Copy, Debug, PartialEq, Eq)]
pub enum StorageProofError {
    /// The input collection of nodes holds two byte-identical entries.
    DuplicateNodes,
}

/// A proof that a set of key-value pairs is included in a storage trie.
///
/// The proof holds the set of serialized nodes of the trie that a lookup of
/// the proven keys touches, so a verifier that only trusts the root hash can
/// rebuild the relevant part of the trie and re-run the lookups. The nodes
/// are kept deduplicated and in lexicographic order of their raw bytes, so a
/// proof is a canonical value of its node set.
#[derive(Clone, Debug, PartialEq, Eq)]
pub struct StorageProof {
    trie_nodes: Vec<Vec<u8>>,
}

impl View for StorageProof {
    type V = Set<Seq<u8>>;

    closed spec fn view(&self) -> Set<Seq<u8>> {
        byte_views(self.trie_nodes@).to_set()
    }
}

/// Inserts `node` into a strictly sorted vector, keeping it strictly sorted;
/// reports whether the vector grew (that is, whether `node` was new).
fn insert_sorted(nodes: &mut Vec<Vec<u8>>, node: Vec<u8>) -> (inserted: bool)
    requires
        strictly_sorted(byte_views(old(nodes)@)),
    ensures
        strictly_sorted(byte_views(final(nodes)@)),
        byte_views(final(nodes)@).to_set() == byte_views(old(nodes)@).to_set().insert(node@),
        inserted == !byte_views(old(nodes)@).to_set().contains(node@),
        inserted ==> final(nodes)@.len() == old(nodes)@.len() + 1,
        !inserted ==> final(nodes)@ == old(nodes)@,
{
    let ghost orig = byte_views(nodes@);
    let mut i: usize = 0;
    while i < nodes.len() && bytes_lt(&nodes[i], &node)
        invariant
            i <= nodes.len(),
            nodes@ == old(nodes)@,
            strictly_sorted(orig),
            orig == byte_views(nodes@),
            forall|k: int| 0 <= k < i ==> lex_lt(#[trigger] orig[k], node@),
        decreases nodes.len() - i,
    {
        i = i + 1;
    }
    if i < nodes.len() && bytes_eq(&nodes[i], &node) {
        proof {
            assert(orig[i as int] == node@);
            assert(orig.to_set().contains(node@));
            assert(orig.to_set().insert(node@) =~= orig.to_set());
        }
        return false;
    }
    proof {
        // `node` is strictly above everything before `i` and strictly below
        // everything from `i` on, so it is new and insertion keeps the order.
        assert forall|k: int| i <= k < orig.len() implies lex_lt(node@, #[trigger] orig[k]) by {
            lemma_lex_total(node@, orig[i as int]);
            if k > i {
                lemma_lex_transitive(node@, orig[i as int], orig[k]);
            }
        }
        assert(!orig.to_set().contains(node@)) by {
            if orig.to_set().contains(node@) {
                let k = choose|k: int| 0 <= k < orig.len() && orig[k] == node@;
                lemma_lex_irreflexive(node@);
            }
        }
    }
    let ghost pre = nodes@;
    nodes.insert(i, node);
    proof {
        let now = byte_views(nodes@);
        assert(nodes@ == pre.insert(i as int, node));
        assert(now.len() == orig.len() + 1);
        assert(forall|k: int| 0 <= k < i ==> #[trigger] now[k] == orig[k]);
        assert(now[i as int] == node@);
        assert(forall|k: int| i < k < now.len() ==> #[trigger] now[k] == orig[k - 1]);
        assert forall|p: int, q: int| 0 <= p < q < now.len() implies lex_lt(now[p], now[q]) by {
            if q < i {
            } else if p < i && q == i {
            } else if p < i && q > i {
                assert(now[q] == orig[q - 1]);
            } else if p == i {
                assert(now[q] == orig[q - 1]);
            } else {
                assert(now[p] == orig[p - 1] && now[q] == orig[q - 1]);
            }
        }
        assert(now.to_set() =~= orig.to_set().insert(node@)) by {
            assert forall|x: Seq<u8>| now.to_set().contains(x) implies
                orig.to_set().insert(node@).contains(x) by {
                let k = choose|k: int| 0 <= k < now.len() && now[k] == x;
                if k < i {
                    assert(orig[k] == x);
                } else if k > i {
                    assert(orig[k - 1] == x);
                }
            }
            assert forall|x: Seq<u8>| orig.to_set().insert(node@).contains(x) implies
                now.to_set().contains(x) by {
                if x == node@ {
                    assert(now[i as int] == x);
                } else {
                    let k = choose|k: int| 0 <= k < orig.len() && orig[k] == x;
                    if k < i {
                        assert(now[k] == x);
                    } else {
                        assert(now[k + 1] == x);
                    }
                }
            }
        }
    }
    true
}

impl StorageProof {
    /// The nodes of the proof in their canonical (lexicographic) order.
    pub closed spec fn nodes_seq(self) -> Seq<Seq<u8>> {
        byte_views(self.trie_nodes@)
    }

    /// The proof's node sequence is strictly sorted; every constructor
    /// establishes this, so the sequence is canonical for the node set.
    pub closed spec fn wf(self) -> bool {
        strictly_sorted(self.nodes_seq())
    }

    /// What the set view of a proof is: the element set of its canonical node
    /// sequence, a finite set with one element per node.
    pub proof fn lemma_view_characterization(self)
        ensures
            self@ == self.nodes_seq().to_set(),
            self@.finite(),
            self.wf() ==> strictly_sorted(self.nodes_seq()),
            self.wf() ==> self@.len() == self.nodes_seq().len(),
    {
        broadcast use vstd::seq_lib::seq_to_set_is_finite;

        if self.wf() {
            lemma_strictly_sorted_no_duplicates(self.nodes_seq());
            self.nodes_seq().unique_seq_to_set();
        }
    }

    /// A well-formed proof is a canonical value of its node set: two
    /// well-formed proofs over equal node sets carry equal node sequences.
    pub proof fn lemma_canonical_form(a: StorageProof, b: StorageProof)
        requires
            a.wf(),
            b.wf(),
            a@ == b@,
        ensures
            a.nodes_seq() == b.nodes_seq(),
    {
        lemma_sorted_unique_representation(a.nodes_seq(), b.nodes_seq());
    }

    /// Constructs a storage proof from encoded trie nodes, silently
    /// deduplicating them.
    pub fn new(trie_nodes: Vec<Vec<u8>>) -> (r: Self)
        ensures
            r.wf(),
            r@ == byte_views(trie_nodes@).to_set(),
    {
        let mut nodes: Vec<Vec<u8>> = Vec::new();
        let mut i: usize = 0;
        while i < trie_nodes.len()
            invariant
                i <= trie_nodes.len(),
                strictly_sorted(byte_views(nodes@)),
                byte_views(nodes@).to_set() =~=
                    byte_views(trie_nodes@.subrange(0, i as int)).to_set(),
            decreases trie_nodes.len() - i,
        {
            let ghost before = byte_views(trie_nodes@.subrange(0, i as int)).to_set();
            insert_sorted(&mut nodes, copy_bytes(&trie_nodes[i]));
            proof {
                let next = byte_views(trie_nodes@.subrange(0, i + 1));
                assert forall|x: Seq<u8>| next.to_set().contains(x) implies
                    before.insert(trie_nodes@[i as int]@).contains(x) by {
                    let k = choose|k: int| 0 <= k < next.len() && next[k] == x;
                    if k < i {
                        assert(byte_views(trie_nodes@.subrange(0, i as int))[k] == x);
                    }
                }
                assert forall|x: Seq<u8>| before.insert(trie_nodes@[i as int]@).contains(x)
                    implies next.to_set().contains(x) by {
                    if x == trie_nodes@[i as int]@ {
                        assert(next[i as int] == x);
                    } else {
                        let k = choose|k: int|
                            0 <= k < i && byte_views(trie_nodes@.subrange(0, i as int))[k] == x;
                        assert(next[k] == x);
                    }
                }
                assert(next.to_set() =~= before.insert(trie_nodes@[i as int]@));
            }
            i = i + 1;
        }
        proof {
            assert(trie_nodes@.subrange(0, trie_nodes.len() as int) =~= trie_nodes@);
        }
        StorageProof { trie_nodes: nodes }
    }

    /// Constructs a storage proof from encoded trie nodes, reporting
    /// [`StorageProofError::DuplicateNodes`] exactly when two byte-identical
    /// entries appear; on success the proof holds exactly the given nodes.
    pub fn new_with_duplicate_nodes_check(trie_nodes: Vec<Vec<u8>>) -> (r: Result<
        Self,
        StorageProofError,
    >)
        ensures
            r is Ok <==> byte_views(trie_nodes@).no_duplicates(),
            r matches Ok(p) ==> p.wf() && p@ == byte_views(trie_nodes@).to_set(),
            r is Err ==> r == Err::<Self, _>(StorageProofError::DuplicateNodes),
    {
        let mut nodes: Vec<Vec<u8>> = Vec::new();
        let mut i: usize = 0;
        while i < trie_nodes.len()
            invariant
                i <= trie_nodes.len(),
                strictly_sorted(byte_views(nodes@)),
                byte_views(nodes@).to_set() =~=
                    byte_views(trie_nodes@.subrange(0, i as int)).to_set(),
                byte_views(trie_nodes@).subrange(0, i as int).no_duplicates(),
                nodes@.len() == i,
            decreases trie_nodes.len() - i,
        {
            let ghost views = byte_views(trie_nodes@);
            let ghost before = byte_views(trie_nodes@.subrange(0, i as int));
            proof {
                assert(before =~= views.subrange(0, i as int));
            }
            let inserted = insert_sorted(&mut nodes, copy_bytes(&trie_nodes[i]));
            if !inserted {
                proof {
                    // The node repeats one of the first `i` entries.
                    let k = choose|k: int| 0 <= k < before.len() && before[k] == views[i as int];
                    assert(views[k] == views[i as int]);
                    assert(!views.no_duplicates());
                }
                return Err(StorageProofError::DuplicateNodes);
            }
            proof {
                let next = views.subrange(0, i + 1);
                assert forall|p: int, q: int|
                    0 <= p < next.len() && 0 <= q < next.len() && p != q implies
                    next[p] != next[q] by {
                    if p < i && q < i {
                        assert(before[p] == next[p] && before[q] == next[q]);
                    } else if q == i as int {
                        assert(before[p] == next[p]);
                        assert(!before.to_set().contains(views[i as int]));
                    } else {
                        assert(before[q] == next[q]);
                        assert(!before.to_set().contains(views[i as int]));
                    }
                }
                let nxt = byte_views(trie_nodes@.subrange(0, i + 1));
                assert forall|x: Seq<u8>| nxt.to_set().contains(x) implies
                    before.to_set().insert(views[i as int]).contains(x) by {
                    let k = choose|k: int| 0 <= k < nxt.len() && nxt[k] == x;
                    if k < i {
                        assert(before[k] == x);
                    }
                }
                assert forall|x: Seq<u8>| before.to_set().insert(views[i as int]).contains(x)
                    implies nxt.to_set().contains(x) by {
                    if x == views[i as int] {
                        assert(nxt[i as int] == x);
                    } else {
                        let k = choose|k: int| 0 <= k < before.len() && before[k] == x;
                        assert(nxt[k] == x);
                    }
                }
                assert(nxt.to_set() =~= before.to_set().insert(views[i as int]));
            }
            i = i + 1;
        }
        proof {
            assert(byte_views(trie_nodes@).subrange(0, trie_nodes.len() as int) =~=
                byte_views(trie_nodes@));
            assert(trie_nodes@.subrange(0, trie_nodes.len() as int) =~= trie_nodes@);
        }
        Ok(StorageProof { trie_nodes: nodes })
    }

    /// Returns a new empty proof.
    ///
    /// An empty proof can only prove that an empty set of key-value pairs
    /// exists in storage.
    pub fn empty() -> (r: Self)
        ensures
            r.wf(),
            r@ == Set::<Seq<u8>>::empty(),
            r.nodes_seq() == Seq::<Seq<u8>>::empty(),
    {
        proof {
            assert(byte_views(Seq::<Vec<u8>>::empty()) =~= Seq::<Seq<u8>>::empty());
            assert(byte_views(Seq::<Vec<u8>>::empty()).to_set() =~= Set::<Seq<u8>>::empty());
        }
        StorageProof { trie_nodes: Vec::new() }
    }

    /// Returns whether this is an empty proof.
    pub fn is_empty(&self) -> (r: bool)
        ensures
            r == (self@ =~= Set::<Seq<u8>>::empty()),
    {
        proof {
            self.nodes_seq().lemma_cardinality_of_empty_set_is_0();
            if self.nodes_seq().to_set().len() == 0 {
                broadcast use vstd::seq_lib::seq_to_set_is_finite;

                vstd::set_lib::lemma_set_empty_equivalency_len(self.nodes_seq().to_set());
            }
        }
        self.trie_nodes.len() == 0
    }

    /// Returns the number of distinct nodes in the proof.
    pub fn len(&self) -> (r: usize)
        requires
            self.wf(),
        ensures
            r == self@.len(),
    {
        proof {
            self.lemma_view_characterization();
        }
        self.trie_nodes.len()
    }

    /// Converts the proof into its encoded trie nodes, in lexicographic order.
    pub fn into_iter_nodes(self) -> (r: Vec<Vec<u8>>)
        ensures
            byte_views(r@) == self.nodes_seq(),
    {
        self.trie_nodes
    }

    /// The encoded trie nodes of the proof, in lexicographic order.
    pub fn iter_nodes(&self) -> (r: &Vec<Vec<u8>>)
        ensures
            byte_views(r@) == self.nodes_seq(),
    {
        &self.trie_nodes
    }

    /// Converts the proof into its plain node vector, in lexicographic order.
    pub fn into_nodes(self) -> (r: Vec<Vec<u8>>)
        ensures
            byte_views(r@) == self.nodes_seq(),
    {
        self.trie_nodes
    }

    /// Merges multiple storage proofs into one proof covering all their
    /// nodes. The merged proof holds the deduplicated union of the input
    /// node sets, so it may be smaller than the inputs together.
    pub fn merge(proofs: Vec<StorageProof>) -> (r: Self)
        ensures
            r.wf(),
            r@ == merged_node_set(proofs@),
    {
        let mut nodes: Vec<Vec<u8>> = Vec::new();
        let mut i: usize = 0;
        while i < proofs.len()
            invariant
                i <= proofs.len(),
                strictly_sorted(byte_views(nodes@)),
                byte_views(nodes@).to_set() =~= merged_node_set(proofs@.subrange(0, i as int)),
            decreases proofs.len() - i,
        {
            let p = &proofs[i];
            let mut j: usize = 0;
            while j < p.trie_nodes.len()
                invariant
                    j <= p.trie_nodes.len(),
                    p == proofs@[i as int],
                    i < proofs.len(),
                    strictly_sorted(byte_views(nodes@)),
                    byte_views(nodes@).to_set() =~= merged_node_set(
                        proofs@.subrange(0, i as int),
                    ).union(byte_views(p.trie_nodes@.subrange(0, j as int)).to_set()),
                decreases p.trie_nodes.len() - j,
            {
                let ghost before = byte_views(nodes@).to_set();
                insert_sorted(&mut nodes, copy_bytes(&p.trie_nodes[j]));
                proof {
                    let pv = byte_views(p.trie_nodes@);
                    let prev = byte_views(p.trie_nodes@.subrange(0, j as int));
                    let next = byte_views(p.trie_nodes@.subrange(0, j + 1));
                    assert forall|x: Seq<u8>| next.to_set().contains(x) implies
                        prev.to_set().insert(pv[j as int]).contains(x) by {
                        let k = choose|k: int| 0 <= k < next.len() && next[k] == x;
                        if k < j {
                            assert(prev[k] == x);
                        }
                    }
                    assert forall|x: Seq<u8>| prev.to_set().insert(pv[j as int]).contains(x)
                        implies next.to_set().contains(x) by {
                        if x == pv[j as int] {
                            assert(next[j as int] == x);
                        } else {
                            let k = choose|k: int| 0 <= k < prev.len() && prev[k] == x;
                            assert(next[k] == x);
                        }
                    }
                    assert(next.to_set() =~= prev.to_set().insert(pv[j as int]));
                }
                j = j + 1;
            }
            proof {
                assert(p.trie_nodes@.subrange(0, p.trie_nodes.len() as int) =~= p.trie_nodes@);
                assert(proofs@.subrange(0, i + 1).drop_last() =~= proofs@.subrange(0, i as int));
                assert(proofs@.subrange(0, i + 1).last() == proofs@[i as int]);
            }
            i = i + 1;
        }
        proof {
            assert(proofs@.subrange(0, proofs.len() as int) =~= proofs@);
        }
        StorageProof { trie_nodes: nodes }
    }
}

/// Merging exactly two proofs yields the union of their node sets.
pub proof fn lemma_merged_pair(a: StorageProof, b: StorageProof)
    ensures
        merged_node_set(seq![a, b]) == a@.union(b@),
{
    let s = seq![a, b];
    let s1 = s.drop_last();
    assert(s.last() == b);
    assert(s1 =~= seq![a]);
    assert(merged_node_set(s) == merged_node_set(s1).union(b@));
    let s0 = s1.drop_last();
    assert(s1.last() == a);
    assert(s0 =~= Seq::<StorageProof>::empty());
    assert(merged_node_set(s1) == merged_node_set(s0).union(a@));
    assert(merged_node_set(s0) == Set::<Seq<u8>>::empty());
    assert(merged_node_set(s) =~= a@.union(b@));
}

/// Law: merging is commutative on node content. Any two well-formed proofs
/// whose node sets are the merge of `[a, b]` and of `[b, a]` — as
/// [`StorageProof::merge`] ensures of its result — carry the same node set
/// and the same canonical node sequence.
pub proof fn lemma_merge_commutative(
    r1: StorageProof,
    r2: StorageProof,
    a: StorageProof,
    b: StorageProof,
)
    requires
        r1.wf(),
        r2.wf(),
        r1@ == merged_node_set(seq![a, b]),
        r2@ == merged_node_set(seq![b, a]),
    ensures
        r1@ == r2@,
        r1.nodes_seq() == r2.nodes_seq(),
{
    lemma_merged_pair(a, b);
    lemma_merged_pair(b, a);
    assert(r1@ =~= r2@);
    StorageProof::lemma_canonical_form(r1, r2);
}

/// Law: merging is idempotent on node content. A well-formed proof whose
/// node set is the merge of `[a, a]` — as [`StorageProof::merge`] ensures of
/// its result — equals `a` in node set and canonical node sequence.
pub proof fn lemma_merge_idempotent(r: StorageProof, a: StorageProof)
    requires
        r.wf(),
        a.wf(),
        r@ == merged_node_set(seq![a, a]),
    ensures
        r@ == a@,
        r.nodes_seq() == a.nodes_seq(),
{
    lemma_merged_pair(a, a);
    assert(r@ =~= a@);
    StorageProof::lemma_canonical_form(r, a);
}

/// The union of the node sets of a sequence of proofs.
pub open spec fn merged_node_set(proofs: Seq<StorageProof>) -> Set<Seq<u8>>
    decreases proofs.len(),
{
    if proofs.len() == 0 {
        Set::empty()
    } else {
        merged_node_set(proofs.drop_last()).union(proofs.last()@)
    }
}

} // verus!
