//! An in-memory node store keyed by content hash.
//!
//! Conversions of a storage proof, and the decompaction engine, produce this
//! store: a map from the blake2b-256 digest of a full node encoding to that
//! encoding, together with a reference count that records how often the node
//! was inserted.

use vstd::prelude::*;
use crate::hashing::{blake2b256, hash_bytes, DIGEST_LEN};
use crate::order::{byte_views, bytes_eq};

verus! {

#[derive(Debug)]
struct DbEntry {
    key: Vec<u8>,
    value: Vec<u8>,
    count: u64,
}

/// An in-memory store of full node encodings, keyed by their blake2b-256
/// digest, each with a reference count.
#[derive(Debug)]
pub struct MemoryDb {
    entries: Vec<DbEntry>,
}

/// The count an entry carries after one more insertion.
pub open spec fn bump(c: u64) -> u64 {
    if c == u64::MAX {
        c
    } else {
        (c + 1) as u64
    }
}

/// The map held by a sequence of store entries, later entries winning.
spec fn entries_map(s: Seq<(Seq<u8>, Seq<u8>, u64)>) -> Map<Seq<u8>, (Seq<u8>, u64)>
    decreases s.len(),
{
    if s.len() == 0 {
        Map::empty()
    } else {
        entries_map(s.drop_last()).insert(s.last().0, (s.last().1, s.last().2))
    }
}

/// A key is in the map exactly when some entry carries it.
proof fn lemma_entries_map_membership(s: Seq<(Seq<u8>, Seq<u8>, u64)>, k: Seq<u8>)
    ensures
        entries_map(s).contains_key(k) <==> exists|i: int| 0 <= i < s.len() && s[i].0 == k,
    decreases s.len(),
{
    if s.len() > 0 {
        lemma_entries_map_membership(s.drop_last(), k);
        if entries_map(s).contains_key(k) {
            if s.last().0 != k {
                let i = choose|i: int| 0 <= i < s.len() - 1 && s.drop_last()[i].0 == k;
                assert(s[i].0 == k);
            }
        }
        if exists|i: int| 0 <= i < s.len() && s[i].0 == k {
            let i = choose|i: int| 0 <= i < s.len() && s[i].0 == k;
            if i < s.len() - 1 {
                assert(s.drop_last()[i].0 == k);
            }
        }
    }
}

/// With distinct keys, each entry is the map's value at its key.
proof fn lemma_entries_map_index(s: Seq<(Seq<u8>, Seq<u8>, u64)>, i: int)
    requires
        forall|p: int, q: int| 0 <= p < q < s.len() ==> (#[trigger] s[p].0) != (#[trigger] s[q].0),
        0 <= i < s.len(),
    ensures
        entries_map(s).contains_key(s[i].0),
        entries_map(s)[s[i].0] == (s[i].1, s[i].2),
    decreases s.len(),
{
    if i < s.len() - 1 {
        lemma_entries_map_index(s.drop_last(), i);
        assert(s.drop_last()[i] == s[i]);
    }
}

/// With distinct keys, the map has one element per entry.
proof fn lemma_entries_map_len(s: Seq<(Seq<u8>, Seq<u8>, u64)>)
    requires
        forall|p: int, q: int| 0 <= p < q < s.len() ==> (#[trigger] s[p].0) != (#[trigger] s[q].0),
    ensures
        entries_map(s).dom().finite(),
        entries_map(s).dom().len() == s.len(),
    decreases s.len(),
{
    if s.len() > 0 {
        lemma_entries_map_len(s.drop_last());
        lemma_entries_map_membership(s.drop_last(), s.last().0);
        assert(forall|i: int| 0 <= i < s.len() - 1 ==> (#[trigger] s.drop_last()[i].0) == s[i].0);
        assert(!entries_map(s.drop_last()).contains_key(s.last().0));
    }
}

impl DbEntry {
    spec fn triple(&self) -> (Seq<u8>, Seq<u8>, u64) {
        (self.key@, self.value@, self.count)
    }
}

/// The triples carried by a vector of store entries.
spec fn entry_triples(s: Seq<DbEntry>) -> Seq<(Seq<u8>, Seq<u8>, u64)> {
    Seq::new(s.len(), |i: int| s[i].triple())
}

impl View for MemoryDb {
    type V = Map<Seq<u8>, (Seq<u8>, u64)>;

    closed spec fn view(&self) -> Map<Seq<u8>, (Seq<u8>, u64)> {
        entries_map(entry_triples(self.entries@))
    }
}

/// The node encodings a store holds with a positive reference count.
pub open spec fn positive_count_values(m: Map<Seq<u8>, (Seq<u8>, u64)>) -> Set<Seq<u8>> {
    Set::new(|v: Seq<u8>| exists|k: Seq<u8>| m.contains_key(k) && m[k].1 > 0 && (#[trigger] m[k]).0 == v)
}

/// Every key of a store is the blake2b-256 digest of the encoding it carries.
pub open spec fn keyed_by_content_hash(m: Map<Seq<u8>, (Seq<u8>, u64)>) -> bool {
    forall|k: Seq<u8>| m.contains_key(k) ==> k == blake2b256((#[trigger] m[k]).0) && k.len() == DIGEST_LEN
}

impl MemoryDb {
    /// The store keeps one entry per key, and keys its contents by their
    /// blake2b-256 digest.
    pub closed spec fn wf(self) -> bool {
        let t = entry_triples(self.entries@);
        &&& forall|p: int, q: int| 0 <= p < q < t.len() ==> (#[trigger] t[p].0) != (#[trigger] t[q].0)
        &&& forall|i: int| 0 <= i < t.len() ==> (#[trigger] t[i].0) == blake2b256(t[i].1)
            && t[i].0.len() == DIGEST_LEN && t[i].2 > 0
    }

    /// A well-formed store is keyed by content hash, its counts are positive,
    /// and its domain is finite.
    pub proof fn lemma_wf_facts(self)
        requires
            self.wf(),
        ensures
            keyed_by_content_hash(self@),
            forall|k: Seq<u8>| self@.contains_key(k) ==> (#[trigger] self@[k]).1 > 0,
            self@.dom().finite(),
    {
        let t = entry_triples(self.entries@);
        assert forall|k: Seq<u8>| self@.contains_key(k) implies
            k == blake2b256((#[trigger] self@[k]).0) && k.len() == DIGEST_LEN
            && self@[k].1 > 0 by {
            lemma_entries_map_membership(t, k);
            let i = choose|i: int| 0 <= i < t.len() && t[i].0 == k;
            lemma_entries_map_index(t, i);
        }
        lemma_entries_map_len(t);
    }

    /// Returns a new empty store.
    pub fn new() -> (r: Self)
        ensures
            r.wf(),
            r@ == Map::<Seq<u8>, (Seq<u8>, u64)>::empty(),
    {
        proof {
            assert(entry_triples(Seq::<DbEntry>::empty()) =~= Seq::empty());
        }
        MemoryDb { entries: Vec::new() }
    }

    /// The number of distinct nodes in the store.
    pub fn len(&self) -> (r: usize)
        requires
            self.wf(),
        ensures
            r == self@.dom().len(),
    {
        proof {
            lemma_entries_map_len(entry_triples(self.entries@));
        }
        self.entries.len()
    }

    /// Looks a full node encoding up by its digest.
    pub fn get(&self, key: &Vec<u8>) -> (r: Option<&Vec<u8>>)
        requires
            self.wf(),
        ensures
            match r {
                Some(v) => self@.contains_key(key@) && v@ == self@[key@].0,
                None => !self@.contains_key(key@),
            },
    {
        let ghost t = entry_triples(self.entries@);
        let mut i: usize = 0;
        while i < self.entries.len()
            invariant
                i <= self.entries.len(),
                t == entry_triples(self.entries@),
                self.wf(),
                forall|j: int| 0 <= j < i ==> (#[trigger] t[j].0) != key@,
            decreases self.entries.len() - i,
        {
            if bytes_eq(&self.entries[i].key, key) {
                proof {
                    lemma_entries_map_index(t, i as int);
                }
                return Some(&self.entries[i].value);
            }
            i = i + 1;
        }
        proof {
            lemma_entries_map_membership(t, key@);
        }
        None
    }

    /// Returns whether the store holds a node with the given digest.
    pub fn contains_key(&self, key: &Vec<u8>) -> (r: bool)
        requires
            self.wf(),
        ensures
            r == self@.contains_key(key@),
    {
        match self.get(key) {
            Some(_) => true,
            None => false,
        }
    }

    /// Inserts a full node encoding, keyed by its blake2b-256 digest, and
    /// returns that digest. A repeated insertion leaves the stored bytes as
    /// they were and raises the reference count.
    pub fn insert(&mut self, value: Vec<u8>) -> (key: Vec<u8>)
        requires
            old(self).wf(),
        ensures
            final(self).wf(),
            key@ == blake2b256(value@),
            key@.len() == DIGEST_LEN,
            old(self)@.contains_key(key@) ==> final(self)@ == old(self)@.insert(
                key@,
                (old(self)@[key@].0, bump(old(self)@[key@].1)),
            ),
            !old(self)@.contains_key(key@) ==> final(self)@ == old(self)@.insert(
                key@,
                (value@, 1u64),
            ),
    {
        let key = hash_bytes(&value);
        let ghost t = entry_triples(self.entries@);
        let mut i: usize = 0;
        while i < self.entries.len()
            invariant
                i <= self.entries.len(),
                t == entry_triples(self.entries@),
                old(self) == self,
                self.wf(),
                key@ == blake2b256(value@),
                key@.len() == DIGEST_LEN,
                forall|j: int| 0 <= j < i ==> (#[trigger] t[j].0) != key@,
            decreases self.entries.len() - i,
        {
            if bytes_eq(&self.entries[i].key, &key) {
                proof {
                    lemma_entries_map_index(t, i as int);
                }
                let c = self.entries[i].count;
                let bumped = if c == u64::MAX {
                    c
                } else {
                    c + 1
                };
                let ghost pre = self.entries@;
                self.entries[i].count = bumped;
                proof {
                    let t2 = entry_triples(self.entries@);
                    assert(forall|j: int| 0 <= j < t2.len() && j != i ==>
                        (#[trigger] t2[j]) == t[j]);
                    assert(t2[i as int] == (t[i as int].0, t[i as int].1, bump(t[i as int].2)));
                    assert forall|p: int, q: int| 0 <= p < q < t2.len() implies
                        (#[trigger] t2[p].0) != (#[trigger] t2[q].0) by {
                        if p != i {
                            assert(t2[p] == t[p]);
                        }
                        if q != i {
                            assert(t2[q] == t[q]);
                        }
                    }
                    assert forall|j: int| 0 <= j < t2.len() implies
                        (#[trigger] t2[j].0) == blake2b256(t2[j].1)
                        && t2[j].0.len() == DIGEST_LEN && t2[j].2 > 0 by {
                        if j != i {
                            assert(t2[j] == t[j]);
                        }
                        assert(t[j].0 == blake2b256(t[j].1) && t[j].0.len() == DIGEST_LEN
                            && t[j].2 > 0);
                    }
                    lemma_replace_entry_count(t, t2, i as int);
                    lemma_entries_map_index(t2, i as int);
                    assert(self@ =~= old(self)@.insert(
                        key@,
                        (old(self)@[key@].0, bump(old(self)@[key@].1)),
                    ));
                }
                return key;
            }
            i = i + 1;
        }
        proof {
            lemma_entries_map_membership(t, key@);
        }
        let ghost kv = key@;
        let ghost vv = value@;
        self.entries.push(DbEntry { key: copy_key(&key), value, count: 1 });
        proof {
            let t2 = entry_triples(self.entries@);
            assert(t2.drop_last() =~= t);
            assert(forall|j: int| 0 <= j < t.len() ==> (#[trigger] t2[j]) == t[j]);
            assert(t2.last() == (kv, vv, 1u64));
            assert(self@ == entries_map(t).insert(kv, (vv, 1u64)));
            assert forall|p: int, q: int| 0 <= p < q < t2.len() implies
                (#[trigger] t2[p].0) != (#[trigger] t2[q].0) by {
                assert(t2[p] == t[p]);
                if q < t2.len() - 1 {
                    assert(t2[q] == t[q]);
                }
            }
        }
        key
    }

    /// Consumes the store and returns the node encodings it holds with a
    /// positive reference count.
    pub fn into_node_values(self) -> (r: Vec<Vec<u8>>)
        requires
            self.wf(),
        ensures
            byte_views(r@).to_set() == positive_count_values(self@),
    {
        let ghost t = entry_triples(self.entries@);
        let mut r: Vec<Vec<u8>> = Vec::new();
        let mut i: usize = 0;
        while i < self.entries.len()
            invariant
                i <= self.entries.len(),
                t == entry_triples(self.entries@),
                self.wf(),
                byte_views(r@) =~= Seq::new(i as nat, |j: int| t[j].1),
            decreases self.entries.len() - i,
        {
            proof {
                assert(t[i as int].2 > 0) by {
                    assert(entry_triples(self.entries@)[i as int].0 == t[i as int].0);
                }
                assert(byte_views(r@).len() == i as nat);
            }
            if self.entries[i].count > 0 {
                let ghost r0 = r@;
                let v = copy_key(&self.entries[i].value);
                r.push(v);
                proof {
                    assert(v@ == t[i as int].1);
                    assert(r@.len() == i + 1);
                    assert(forall|j: int| 0 <= j < i ==> r@[j] == r0[j]);
                    assert forall|j: int| 0 <= j < i + 1 implies
                        byte_views(r@)[j] == t[j].1 by {
                        if j < i {
                            assert(byte_views(r@)[j] == r0[j]@);
                            assert(byte_views(r0)[j] == t[j].1);
                        } else {
                            assert(byte_views(r@)[j] == v@);
                        }
                    }
                    assert(byte_views(r@) =~= Seq::new((i + 1) as nat, |j: int| t[j].1));
                }
            }
            i = i + 1;
        }
        proof {
            let vs = byte_views(r@);
            assert forall|v: Seq<u8>| vs.to_set().contains(v) implies
                positive_count_values(self@).contains(v) by {
                let j = choose|j: int| 0 <= j < vs.len() && vs[j] == v;
                lemma_entries_map_index(t, j);
                assert(self@.contains_key(t[j].0) && self@[t[j].0].1 > 0 && self@[t[j].0].0 == v);
            }
            assert forall|v: Seq<u8>| positive_count_values(self@).contains(v) implies
                vs.to_set().contains(v) by {
                let k = choose|k: Seq<u8>| self@.contains_key(k) && self@[k].1 > 0
                    && (#[trigger] self@[k]).0 == v;
                lemma_entries_map_membership(t, k);
                let j = choose|j: int| 0 <= j < t.len() && t[j].0 == k;
                lemma_entries_map_index(t, j);
                assert(vs[j] == v);
            }
            assert(vs.to_set() =~= positive_count_values(self@));
        }
        r
    }
}

/// Replacing one entry's count, keys and values unchanged, updates the map at
/// that key alone.
proof fn lemma_replace_entry_count(
    t: Seq<(Seq<u8>, Seq<u8>, u64)>,
    t2: Seq<(Seq<u8>, Seq<u8>, u64)>,
    i: int,
)
    requires
        forall|p: int, q: int| 0 <= p < q < t.len() ==> (#[trigger] t[p].0) != (#[trigger] t[q].0),
        t2.len() == t.len(),
        0 <= i < t.len(),
        forall|j: int| 0 <= j < t.len() && j != i ==> (#[trigger] t2[j]) == t[j],
        t2[i].0 == t[i].0,
        t2[i].1 == t[i].1,
    ensures
        entries_map(t2) == entries_map(t).insert(t[i].0, (t2[i].1, t2[i].2)),
{
    assert forall|p: int, q: int| 0 <= p < q < t2.len() implies
        (#[trigger] t2[p].0) != (#[trigger] t2[q].0) by {
        assert(t2[p].0 == t[p].0 && t2[q].0 == t[q].0);
    }
    let m1 = entries_map(t);
    let m2 = entries_map(t2);
    assert forall|k: Seq<u8>| m2.contains_key(k) <==>
        m1.insert(t[i].0, (t2[i].1, t2[i].2)).contains_key(k) by {
        lemma_entries_map_membership(t, k);
        lemma_entries_map_membership(t2, k);
        if m2.contains_key(k) {
            let j = choose|j: int| 0 <= j < t2.len() && t2[j].0 == k;
            if j != i {
                assert(t[j] == t2[j]);
            }
        }
        if m1.insert(t[i].0, (t2[i].1, t2[i].2)).contains_key(k) {
            if k != t[i].0 {
                let j = choose|j: int| 0 <= j < t.len() && t[j].0 == k;
                assert(j != i);
                assert(t2[j] == t[j]);
            }
        }
    }
    assert forall|k: Seq<u8>| #[trigger] m2.contains_key(k) implies
        m2[k] == m1.insert(t[i].0, (t2[i].1, t2[i].2))[k] by {
        lemma_entries_map_membership(t2, k);
        let j = choose|j: int| 0 <= j < t2.len() && t2[j].0 == k;
        lemma_entries_map_index(t2, j);
        if j != i {
            lemma_entries_map_index(t, j);
        }
    }
    assert(m2 =~= m1.insert(t[i].0, (t2[i].1, t2[i].2)));
}

/// Copies a byte vector.
fn copy_key(v: &Vec<u8>) -> (r: Vec<u8>)
    ensures
        r@ == v@,
{
    crate::order::copy_bytes(v)
}

} // verus!
