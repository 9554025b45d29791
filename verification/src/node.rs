//! The trie node wire format.
//!
//! A node is either a leaf (a partial key and a value) or a branch (a partial
//! key, an optional value, and up to 255 children listed by strictly
//! ascending index byte). A child slot either carries the 32-byte digest of
//! the child node, or is omitted: an omitted slot is the compact form's mark
//! that the child's full encoding follows in the proof stream and its digest
//! is to be recomputed by the decoder. A full encoding is one with no
//! omitted slot.
//!
//! The byte layout is fixed: a tag byte (1 leaf, 2 branch); the partial key
//! as a 32-bit little-endian length and the key bytes; for a leaf the value
//! the same way; for a branch a value marker byte (0 absent, 1 present,
//! followed by the value as for a leaf), then a child-count byte and the
//! child entries, each an index byte and a marker byte (0 omitted, 1
//! followed by the 32 digest bytes). Nothing may follow the last field, and
//! decoding rejects any byte string that this layout does not produce.

use vstd::prelude::*;
use crate::hashing::DIGEST_LEN;

verus! {

/// Tag byte of a leaf node encoding.
pub const LEAF_TAG: u8 = 1;

/// Tag byte of a branch node encoding.
pub const BRANCH_TAG: u8 = 2;

/// A child slot of a branch node: the child's index byte, and its digest or
/// nothing when the digest is omitted in compact form.
pub struct ChildRef {
    pub index: u8,
    pub hash: Option<Vec<u8>>,
}

/// A trie node.
pub enum TrieNode {
    Leaf { partial_key: Vec<u8>, value: Vec<u8> },
    Branch { partial_key: Vec<u8>, value: Option<Vec<u8>>, children: Vec<ChildRef> },
}

/// The mathematical model of a trie node.
pub enum NodeModel {
    Leaf { partial_key: Seq<u8>, value: Seq<u8> },
    Branch { partial_key: Seq<u8>, value: Option<Seq<u8>>, children: Seq<(u8, Option<Seq<u8>>)> },
}

impl View for ChildRef {
    type V = (u8, Option<Seq<u8>>);

    open spec fn view(&self) -> (u8, Option<Seq<u8>>) {
        (
            self.index,
            match self.hash {
                Some(h) => Some(h@),
                None => None,
            },
        )
    }
}

/// The models of a sequence of child slots.
pub open spec fn child_views(s: Seq<ChildRef>) -> Seq<(u8, Option<Seq<u8>>)> {
    Seq::new(s.len(), |i: int| s[i]@)
}

impl View for TrieNode {
    type V = NodeModel;

    open spec fn view(&self) -> NodeModel {
        match self {
            TrieNode::Leaf { partial_key, value } => NodeModel::Leaf {
                partial_key: partial_key@,
                value: value@,
            },
            TrieNode::Branch { partial_key, value, children } => NodeModel::Branch {
                partial_key: partial_key@,
                value: match value {
                    Some(v) => Some(v@),
                    None => None,
                },
                children: child_views(children@),
            },
        }
    }
}

/// The 32-bit little-endian encoding of a length.
pub open spec fn le32(n: nat) -> Seq<u8> {
    seq![
        (n % 256) as u8,
        ((n / 256) % 256) as u8,
        ((n / 65536) % 256) as u8,
        ((n / 16777216) % 256) as u8,
    ]
}

/// The length read back from four little-endian bytes.
pub open spec fn read_le32(b: Seq<u8>, pos: int) -> nat {
    b[pos] as nat + 256 * (b[pos + 1] as nat) + 65536 * (b[pos + 2] as nat) + 16777216 * (b[pos
        + 3] as nat)
}

/// Writing a length below 2^32 and reading it back is the identity, and the
/// reading of any four bytes stays below 2^32.
pub proof fn lemma_le32_roundtrip(n: nat)
    requires
        n < 0x1_0000_0000,
    ensures
        le32(n).len() == 4,
        read_le32(le32(n), 0) == n,
{
    assert(n % 256 + 256 * ((n / 256) % 256) + 65536 * ((n / 65536) % 256) + 16777216 * ((n
        / 16777216) % 256) == n) by (nonlinear_arith)
        requires
            n < 0x1_0000_0000,
    ;
}

/// The four bytes at `pos` are the little-endian encoding of the length they
/// spell.
pub proof fn lemma_le32_digits(b: Seq<u8>, pos: int)
    requires
        0 <= pos,
        pos + 4 <= b.len(),
    ensures
        le32(read_le32(b, pos)) =~= b.subrange(pos, pos + 4),
        read_le32(b, pos) < 0x1_0000_0000,
{
    let d0 = b[pos] as nat;
    let d1 = b[pos + 1] as nat;
    let d2 = b[pos + 2] as nat;
    let d3 = b[pos + 3] as nat;
    let n = d0 + 256 * d1 + 65536 * d2 + 16777216 * d3;
    assert(n % 256 == d0 && (n / 256) % 256 == d1 && (n / 65536) % 256 == d2 && (n / 16777216)
        % 256 == d3 && n < 0x1_0000_0000) by (nonlinear_arith)
        requires
            d0 < 256 && d1 < 256 && d2 < 256 && d3 < 256 && n == d0 + 256 * d1 + 65536 * d2
                + 16777216 * d3,
    ;
}

/// The child slots are listed by strictly ascending index byte.
pub open spec fn children_sorted(cs: Seq<(u8, Option<Seq<u8>>)>) -> bool {
    forall|i: int| 0 <= i < cs.len() - 1 ==> (#[trigger] cs[i].0) < cs[i + 1].0
}

/// Every digest a child slot carries has the digest width.
pub open spec fn children_hashes_wf(cs: Seq<(u8, Option<Seq<u8>>)>) -> bool {
    forall|i: int| 0 <= i < cs.len() ==> match (#[trigger] cs[i]).1 {
        Some(h) => h.len() == DIGEST_LEN,
        None => true,
    }
}

/// A node the wire format can carry: lengths fit in 32 bits, a branch has at
/// most 255 children, listed by strictly ascending index, and each digest it
/// carries is 32 bytes wide.
pub open spec fn node_wf(m: NodeModel) -> bool {
    match m {
        NodeModel::Leaf { partial_key, value } => partial_key.len() < 0x1_0000_0000
            && value.len() < 0x1_0000_0000,
        NodeModel::Branch { partial_key, value, children } => {
            &&& partial_key.len() < 0x1_0000_0000
            &&& match value {
                Some(v) => v.len() < 0x1_0000_0000,
                None => true,
            }
            &&& children.len() <= 255
            &&& children_sorted(children)
            &&& children_hashes_wf(children)
        },
    }
}

/// A full node encodes no omitted child slot.
pub open spec fn node_full(m: NodeModel) -> bool {
    match m {
        NodeModel::Leaf { .. } => true,
        NodeModel::Branch { children, .. } => forall|i: int|
            0 <= i < children.len() ==> (#[trigger] children[i]).1 is Some,
    }
}

/// The encoding of an optional branch value.
pub open spec fn enc_opt_value(v: Option<Seq<u8>>) -> Seq<u8> {
    match v {
        None => seq![0u8],
        Some(s) => seq![1u8] + le32(s.len()) + s,
    }
}

/// The encoding of one child slot.
pub open spec fn enc_child(c: (u8, Option<Seq<u8>>)) -> Seq<u8> {
    match c.1 {
        None => seq![c.0, 0u8],
        Some(h) => seq![c.0, 1u8] + h,
    }
}

/// The encoding of a list of child slots.
pub open spec fn enc_children(cs: Seq<(u8, Option<Seq<u8>>)>) -> Seq<u8>
    decreases cs.len(),
{
    if cs.len() == 0 {
        Seq::empty()
    } else {
        enc_child(cs[0]) + enc_children(cs.skip(1))
    }
}

/// The encoding of a trie node.
pub open spec fn spec_encode_node(m: NodeModel) -> Seq<u8> {
    match m {
        NodeModel::Leaf { partial_key, value } => seq![LEAF_TAG] + le32(partial_key.len())
            + partial_key + le32(value.len()) + value,
        NodeModel::Branch { partial_key, value, children } => seq![BRANCH_TAG] + le32(
            partial_key.len(),
        ) + partial_key + enc_opt_value(value) + seq![children.len() as u8] + enc_children(
            children,
        ),
    }
}

/// Extending a child list on the right extends its encoding on the right.
pub proof fn lemma_enc_children_push(cs: Seq<(u8, Option<Seq<u8>>)>, c: (u8, Option<Seq<u8>>))
    ensures
        enc_children(cs.push(c)) == enc_children(cs) + enc_child(c),
    decreases cs.len(),
{
    if cs.len() == 0 {
        assert(cs.push(c)[0] == c);
        assert(cs.push(c).skip(1) =~= Seq::<(u8, Option<Seq<u8>>)>::empty());
        assert(enc_children(Seq::<(u8, Option<Seq<u8>>)>::empty()) =~= Seq::<u8>::empty());
        assert(enc_children(cs) =~= Seq::<u8>::empty());
        assert(enc_children(cs.push(c)) =~= enc_child(c));
        assert(enc_children(cs) + enc_child(c) =~= enc_child(c));
    } else {
        assert(cs.push(c).skip(1) =~= cs.skip(1).push(c));
        lemma_enc_children_push(cs.skip(1), c);
        assert(cs.push(c)[0] == cs[0]);
        assert(enc_children(cs.push(c)) =~= enc_children(cs) + enc_child(c));
    }
}

/// The decoding of `count` child slots starting at `pos`: the slots and the
/// position after them, or nothing when the bytes do not fit the layout.
pub open spec fn dec_children(b: Seq<u8>, pos: int, count: nat) -> Option<
    (Seq<(u8, Option<Seq<u8>>)>, int),
>
    decreases count,
{
    if count == 0 {
        Some((Seq::empty(), pos))
    } else if pos + 2 > b.len() {
        None
    } else if b[pos + 1] == 0 {
        match dec_children(b, pos + 2, (count - 1) as nat) {
            None => None,
            Some((rest, end)) => Some((seq![(b[pos], Option::<Seq<u8>>::None)] + rest, end)),
        }
    } else if b[pos + 1] == 1 {
        if pos + 2 + DIGEST_LEN > b.len() {
            None
        } else {
            match dec_children(b, pos + 2 + DIGEST_LEN, (count - 1) as nat) {
                None => None,
                Some((rest, end)) => Some(
                    (
                        seq![(b[pos], Some(b.subrange(pos + 2, pos + 2 + DIGEST_LEN)))] + rest,
                        end,
                    ),
                ),
            }
        }
    } else {
        None
    }
}

/// The decoding of the tail of a branch node, from the value marker on.
pub open spec fn dec_branch_tail(b: Seq<u8>, pk: Seq<u8>, p: int) -> Option<NodeModel> {
    if p >= b.len() {
        None
    } else if b[p] == 0 {
        dec_branch_children(b, pk, Option::<Seq<u8>>::None, p + 1)
    } else if b[p] == 1 {
        if p + 5 > b.len() {
            None
        } else {
            let vlen = read_le32(b, p + 1) as int;
            if p + 5 + vlen > b.len() {
                None
            } else {
                dec_branch_children(b, pk, Some(b.subrange(p + 5, p + 5 + vlen)), p + 5 + vlen)
            }
        }
    } else {
        None
    }
}

/// The decoding of a branch node's child-count byte and child entries.
pub open spec fn dec_branch_children(
    b: Seq<u8>,
    pk: Seq<u8>,
    value: Option<Seq<u8>>,
    q: int,
) -> Option<NodeModel> {
    if q >= b.len() {
        None
    } else {
        match dec_children(b, q + 1, b[q] as nat) {
            None => None,
            Some((cs, end)) => if end == b.len() && children_sorted(cs) {
                Some(NodeModel::Branch { partial_key: pk, value, children: cs })
            } else {
                None
            },
        }
    }
}

/// The decoding of a trie node: the node whose encoding the bytes are, or
/// nothing when they are no node's encoding.
pub open spec fn spec_decode_node(b: Seq<u8>) -> Option<NodeModel> {
    if b.len() < 1 {
        None
    } else if b[0] == LEAF_TAG {
        if b.len() < 9 {
            None
        } else {
            let klen = read_le32(b, 1) as int;
            if 9 + klen > b.len() {
                None
            } else {
                let vlen = read_le32(b, 5 + klen) as int;
                if b.len() != 9 + klen + vlen {
                    None
                } else {
                    Some(
                        NodeModel::Leaf {
                            partial_key: b.subrange(5, 5 + klen),
                            value: b.subrange(9 + klen, 9 + klen + vlen),
                        },
                    )
                }
            }
        }
    } else if b[0] == BRANCH_TAG {
        if b.len() < 5 {
            None
        } else {
            let klen = read_le32(b, 1) as int;
            if 5 + klen > b.len() {
                None
            } else {
                dec_branch_tail(b, b.subrange(5, 5 + klen), 5 + klen)
            }
        }
    } else {
        None
    }
}

/// A decoded list of child slots is well formed: as many slots as asked,
/// the end position lies in the buffer, and every digest is 32 bytes.
pub proof fn lemma_dec_children_wf(b: Seq<u8>, pos: int, count: nat)
    requires
        0 <= pos <= b.len(),
        dec_children(b, pos, count) is Some,
    ensures
        ({
            let (cs, end) = dec_children(b, pos, count).unwrap();
            cs.len() == count && pos <= end <= b.len() && children_hashes_wf(cs)
        }),
    decreases count,
{
    if count > 0 {
        let (cs, end) = dec_children(b, pos, count).unwrap();
        if b[pos + 1] == 0 {
            lemma_dec_children_wf(b, pos + 2, (count - 1) as nat);
            let (rest, _) = dec_children(b, pos + 2, (count - 1) as nat).unwrap();
            assert(cs[0] == (b[pos], Option::<Seq<u8>>::None));
            assert forall|i: int| 0 <= i < cs.len() implies match (#[trigger] cs[i]).1 {
                Some(h) => h.len() == DIGEST_LEN,
                None => true,
            } by {
                if i > 0 {
                    assert(cs[i] == rest[i - 1]);
                }
            }
        } else {
            lemma_dec_children_wf(b, pos + 2 + DIGEST_LEN, (count - 1) as nat);
            let (rest, _) = dec_children(b, pos + 2 + DIGEST_LEN, (count - 1) as nat).unwrap();
            assert(cs[0] == (b[pos], Some(b.subrange(pos + 2, pos + 2 + DIGEST_LEN))));
            assert forall|i: int| 0 <= i < cs.len() implies match (#[trigger] cs[i]).1 {
                Some(h) => h.len() == DIGEST_LEN,
                None => true,
            } by {
                if i > 0 {
                    assert(cs[i] == rest[i - 1]);
                }
            }
        }
    }
}

/// Appends the bytes of `v` to `out`.
fn append_bytes(out: &mut Vec<u8>, v: &Vec<u8>)
    ensures
        final(out)@ == old(out)@ + v@,
{
    let mut i: usize = 0;
    while i < v.len()
        invariant
            i <= v.len(),
            out@ =~= old(out)@ + v@.subrange(0, i as int),
        decreases v.len() - i,
    {
        out.push(v[i]);
        proof {
            assert(out@ =~= old(out)@ + v@.subrange(0, i + 1));
        }
        i = i + 1;
    }
    proof {
        assert(v@.subrange(0, v.len() as int) =~= v@);
    }
}

/// Appends the 32-bit little-endian encoding of `n` to `out`.
fn push_le32(out: &mut Vec<u8>, n: usize)
    requires
        n < 0x1_0000_0000,
    ensures
        final(out)@ == old(out)@ + le32(n as nat),
{
    out.push((n % 256) as u8);
    out.push(((n / 256) % 256) as u8);
    out.push(((n / 65536) % 256) as u8);
    out.push(((n / 16777216) % 256) as u8);
    proof {
        assert(out@ =~= old(out)@ + le32(n as nat));
    }
}

/// Copies `b[from..to]` into a fresh vector.
pub(crate) fn copy_range(b: &Vec<u8>, from: usize, to: usize) -> (r: Vec<u8>)
    requires
        from <= to <= b@.len(),
    ensures
        r@ == b@.subrange(from as int, to as int),
{
    let mut r: Vec<u8> = Vec::new();
    let mut i: usize = from;
    while i < to
        invariant
            from <= i <= to <= b@.len(),
            r@ =~= b@.subrange(from as int, i as int),
        decreases to - i,
    {
        r.push(b[i]);
        proof {
            assert(r@ =~= b@.subrange(from as int, i + 1));
        }
        i = i + 1;
    }
    r
}

/// Encodes a trie node in the wire format.
pub fn encode_node(node: &TrieNode) -> (r: Vec<u8>)
    requires
        node_wf(node@),
    ensures
        r@ == spec_encode_node(node@),
{
    let mut out: Vec<u8> = Vec::new();
    match node {
        TrieNode::Leaf { partial_key, value } => {
            out.push(LEAF_TAG);
            push_le32(&mut out, partial_key.len());
            append_bytes(&mut out, partial_key);
            push_le32(&mut out, value.len());
            append_bytes(&mut out, value);
            proof {
                assert(out@ =~= spec_encode_node(node@));
            }
        },
        TrieNode::Branch { partial_key, value, children } => {
            out.push(BRANCH_TAG);
            push_le32(&mut out, partial_key.len());
            append_bytes(&mut out, partial_key);
            match value {
                None => {
                    out.push(0u8);
                },
                Some(v) => {
                    out.push(1u8);
                    push_le32(&mut out, v.len());
                    append_bytes(&mut out, v);
                },
            }
            proof {
                let m = node@;
                assert(child_views(children@) == m->Branch_children);
                assert(child_views(children@).len() <= 255);
            }
            out.push(children.len() as u8);
            let ghost head = out@;
            let ghost cviews = child_views(children@);
            let mut i: usize = 0;
            while i < children.len()
                invariant
                    i <= children.len(),
                    cviews == child_views(children@),
                    children_hashes_wf(cviews),
                    out@ =~= head + enc_children(cviews.take(i as int)),
                decreases children.len() - i,
            {
                let c = &children[i];
                out.push(c.index);
                match &c.hash {
                    None => {
                        out.push(0u8);
                    },
                    Some(h) => {
                        out.push(1u8);
                        append_bytes(&mut out, h);
                    },
                }
                proof {
                    lemma_enc_children_push(cviews.take(i as int), cviews[i as int]);
                    assert(cviews.take(i as int).push(cviews[i as int]) =~= cviews.take(i + 1));
                    assert(out@ =~= head + enc_children(cviews.take(i + 1)));
                }
                i = i + 1;
            }
            proof {
                assert(cviews.take(children.len() as int) =~= cviews);
                assert(out@ =~= spec_encode_node(node@));
            }
        },
    }
    out
}

/// Reads a 32-bit little-endian length.
fn read_le32_exec(b: &Vec<u8>, pos: usize) -> (r: usize)
    requires
        pos + 4 <= b@.len(),
    ensures
        r == read_le32(b@, pos as int),
        r < 0x1_0000_0000,
{
    let n = b.len();
    proof {
        assert(pos + 4 <= n);
    }
    b[pos] as usize + 256 * (b[pos + 1] as usize) + 65536 * (b[pos + 2] as usize) + 16777216 * (
    b[pos + 3] as usize)
}

/// Reports whether the child slots are listed by strictly ascending index.
fn children_sorted_exec(cs: &Vec<ChildRef>) -> (r: bool)
    ensures
        r == children_sorted(child_views(cs@)),
{
    let mut i: usize = 0;
    while i + 1 < cs.len()
        invariant
            cs.len() > 0 ==> i < cs.len(),
            cs.len() == 0 ==> i == 0,
            forall|j: int| 0 <= j < i ==> (#[trigger] child_views(cs@)[j].0) < child_views(
                cs@,
            )[j + 1].0,
        decreases cs.len() - i,
    {
        if cs[i].index >= cs[i + 1].index {
            proof {
                let cv = child_views(cs@);
                assert(cv[i as int].0 == cs@[i as int].index);
                assert(cv[i as int + 1].0 == cs@[i as int + 1].index);
                assert(!children_sorted(cv)) by {
                    if children_sorted(cv) {
                        assert(cv[i as int].0 < cv[i as int + 1].0);
                    }
                }
            }
            return false;
        }
        i = i + 1;
    }
    true
}

/// Decodes `count` child slots starting at `pos`, exactly as
/// [`dec_children`] reads them.
fn dec_children_exec(b: &Vec<u8>, pos: usize, count: u8) -> (r: Option<(Vec<ChildRef>, usize)>)
    requires
        pos <= b@.len(),
    ensures
        match r {
            Some(ce) => dec_children(b@, pos as int, count as nat) == Some(
                (child_views(ce.0@), ce.1 as int),
            ) && pos <= ce.1 <= b@.len(),
            None => dec_children(b@, pos as int, count as nat) is None,
        },
    decreases count,
{
    if count == 0 {
        let cs: Vec<ChildRef> = Vec::new();
        proof {
            assert(child_views(cs@) =~= Seq::<(u8, Option<Seq<u8>>)>::empty());
        }
        return Some((cs, pos));
    }
    if b.len() - pos < 2 {
        return None;
    }
    let idx = b[pos];
    let marker = b[pos + 1];
    if marker == 0 {
        match dec_children_exec(b, pos + 2, count - 1) {
            None => None,
            Some((rest, end)) => {
                let ghost rv = child_views(rest@);
                let mut cs = rest;
                cs.insert(0, ChildRef { index: idx, hash: None });
                proof {
                    assert(child_views(cs@) =~= seq![(idx, Option::<Seq<u8>>::None)] + rv);
                }
                Some((cs, end))
            },
        }
    } else if marker == 1 {
        if b.len() - pos < 2 + DIGEST_LEN {
            return None;
        }
        let h = copy_range(b, pos + 2, pos + 2 + DIGEST_LEN);
        match dec_children_exec(b, pos + 2 + DIGEST_LEN, count - 1) {
            None => None,
            Some((rest, end)) => {
                let ghost rv = child_views(rest@);
                let mut cs = rest;
                cs.insert(0, ChildRef { index: idx, hash: Some(h) });
                proof {
                    assert(child_views(cs@) =~= seq![
                        (idx, Some(b@.subrange(pos + 2, pos + 2 + DIGEST_LEN))),
                    ] + rv);
                }
                Some((cs, end))
            },
        }
    } else {
        None
    }
}

/// Decodes a trie node from the wire format: returns the node the bytes
/// encode, or nothing exactly when the bytes are no node's encoding.
#[verifier::rlimit(100)]
pub fn decode_node(b: &Vec<u8>) -> (r: Option<TrieNode>)
    ensures
        match r {
            Some(n) => spec_decode_node(b@) == Some(n@),
            None => spec_decode_node(b@) is None,
        },
{
    if b.len() < 1 {
        return None;
    }
    let tag = b[0];
    if tag == LEAF_TAG {
        if b.len() < 9 {
            return None;
        }
        let klen = read_le32_exec(b, 1);
        if b.len() - 9 < klen {
            return None;
        }
        let vlen = read_le32_exec(b, 5 + klen);
        if b.len() - 9 - klen != vlen {
            return None;
        }
        let partial_key = copy_range(b, 5, 5 + klen);
        let value = copy_range(b, 9 + klen, 9 + klen + vlen);
        Some(TrieNode::Leaf { partial_key, value })
    } else if tag == BRANCH_TAG {
        if b.len() < 5 {
            return None;
        }
        let klen = read_le32_exec(b, 1);
        if b.len() - 5 < klen {
            return None;
        }
        let partial_key = copy_range(b, 5, 5 + klen);
        let p = 5 + klen;
        if p >= b.len() {
            return None;
        }
        let vm = b[p];
        let mut value: Option<Vec<u8>> = None;
        let q: usize;
        if vm == 0 {
            q = p + 1;
        } else if vm == 1 {
            if b.len() - p < 5 {
                return None;
            }
            let vlen = read_le32_exec(b, p + 1);
            if b.len() - p - 5 < vlen {
                return None;
            }
            value = Some(copy_range(b, p + 5, p + 5 + vlen));
            q = p + 5 + vlen;
        } else {
            return None;
        }
        if q >= b.len() {
            return None;
        }
        let c = b[q];
        match dec_children_exec(b, q + 1, c) {
            None => None,
            Some((cs, end)) => {
                if end != b.len() {
                    return None;
                }
                if !children_sorted_exec(&cs) {
                    return None;
                }
                Some(TrieNode::Branch { partial_key, value, children: cs })
            },
        }
    } else {
        None
    }
}

/// Decoding the encoding of a list of child slots placed at the end of a
/// buffer yields the slots back.
proof fn lemma_dec_enc_children(b: Seq<u8>, pos: int, cs: Seq<(u8, Option<Seq<u8>>)>)
    requires
        0 <= pos <= b.len(),
        b.subrange(pos, b.len() as int) =~= enc_children(cs),
        children_hashes_wf(cs),
    ensures
        dec_children(b, pos, cs.len()) == Some((cs, b.len() as int)),
    decreases cs.len(),
{
    if cs.len() == 0 {
        assert(enc_children(cs).len() == 0);
        assert(pos == b.len());
        assert(dec_children(b, pos, 0) == Some((Seq::<(u8, Option<Seq<u8>>)>::empty(), pos)));
        assert(cs =~= Seq::<(u8, Option<Seq<u8>>)>::empty());
    } else {
        let c = cs[0];
        let rest = cs.skip(1);
        assert(children_hashes_wf(rest)) by {
            assert(forall|i: int| 0 <= i < rest.len() ==> (#[trigger] rest[i]) == cs[i + 1]);
        }
        let e = enc_children(cs);
        assert(e == enc_child(c) + enc_children(rest));
        let suffix = b.subrange(pos, b.len() as int);
        assert(suffix == e);
        match c.1 {
            None => {
                assert(enc_child(c) =~= seq![c.0, 0u8]);
                assert(e.len() == 2 + enc_children(rest).len());
                assert(e[0] == c.0 && e[1] == 0u8);
                assert(b[pos] == suffix[0] && b[pos + 1] == suffix[1]);
                assert(b[pos] == c.0 && b[pos + 1] == 0u8);
                assert(b.subrange(pos + 2, b.len() as int) =~= enc_children(rest)) by {
                    assert(forall|i: int| 0 <= i < enc_children(rest).len() ==>
                        #[trigger] b.subrange(pos + 2, b.len() as int)[i] == suffix[i + 2]);
                }
                lemma_dec_enc_children(b, pos + 2, rest);
                assert(seq![(b[pos], Option::<Seq<u8>>::None)] + rest =~= cs);
            },
            Some(h) => {
                assert(h.len() == DIGEST_LEN);
                assert(enc_child(c) =~= seq![c.0, 1u8] + h);
                assert(e.len() == 2 + DIGEST_LEN + enc_children(rest).len());
                assert(e[0] == c.0 && e[1] == 1u8);
                assert(b[pos] == suffix[0] && b[pos + 1] == suffix[1]);
                assert(b[pos] == c.0 && b[pos + 1] == 1u8);
                assert(b.subrange(pos + 2, pos + 2 + DIGEST_LEN) =~= h) by {
                    assert(forall|i: int| 0 <= i < DIGEST_LEN ==>
                        #[trigger] b.subrange(pos + 2, pos + 2 + DIGEST_LEN)[i] == suffix[i + 2]);
                    assert(forall|i: int| 0 <= i < DIGEST_LEN ==> #[trigger] e[i + 2] == h[i]);
                }
                assert(b.subrange(pos + 2 + DIGEST_LEN, b.len() as int) =~= enc_children(rest))
                    by {
                    assert(forall|i: int| 0 <= i < enc_children(rest).len() ==>
                        #[trigger] b.subrange(pos + 2 + DIGEST_LEN, b.len() as int)[i] == suffix[
                        i + 2 + DIGEST_LEN]);
                }
                lemma_dec_enc_children(b, pos + 2 + DIGEST_LEN, rest);
                assert(seq![(b[pos], Some(b.subrange(pos + 2, pos + 2 + DIGEST_LEN)))] + rest
                    =~= cs);
            },
        }
    }
}

/// Law: decoding the encoding of any well-formed node yields that node. So
/// encoding is injective, and the decoder rejects no encoding the encoder
/// produces.
#[verifier::rlimit(100)]
#[verifier::spinoff_prover]
pub proof fn lemma_decode_encode_roundtrip(m: NodeModel)
    requires
        node_wf(m),
    ensures
        spec_decode_node(spec_encode_node(m)) == Some(m),
{
    let b = spec_encode_node(m);
    match m {
        NodeModel::Leaf { partial_key, value } => {
            let klen = partial_key.len() as int;
            let vlen = value.len() as int;
            lemma_le32_roundtrip(partial_key.len());
            lemma_le32_roundtrip(value.len());
            assert(b.len() == 9 + klen + vlen);
            assert(b[0] == LEAF_TAG);
            assert(b.subrange(1, 5) =~= le32(partial_key.len()));
            assert(read_le32(b, 1) == read_le32(le32(partial_key.len()), 0)) by {
                assert(forall|i: int| 0 <= i < 4 ==> #[trigger] b.subrange(1, 5)[i] == b[1 + i]);
            }
            assert(b.subrange(5 + klen, 9 + klen) =~= le32(value.len()));
            assert(read_le32(b, 5 + klen) == read_le32(le32(value.len()), 0)) by {
                assert(forall|i: int| 0 <= i < 4 ==> #[trigger] b.subrange(5 + klen, 9 + klen)[i]
                    == b[5 + klen + i]);
            }
            assert(b.subrange(5, 5 + klen) =~= partial_key);
            assert(b.subrange(9 + klen, 9 + klen + vlen) =~= value);
        },
        NodeModel::Branch { partial_key, value, children } => {
            let klen = partial_key.len() as int;
            let vpart = enc_opt_value(value);
            let tail = seq![children.len() as u8] + enc_children(children);
            lemma_le32_roundtrip(partial_key.len());
            assert(b.len() == 5 + klen + vpart.len() + tail.len());
            assert(b[0] == BRANCH_TAG);
            assert(b.subrange(1, 5) =~= le32(partial_key.len()));
            assert(read_le32(b, 1) == read_le32(le32(partial_key.len()), 0)) by {
                assert(forall|i: int| 0 <= i < 4 ==> #[trigger] b.subrange(1, 5)[i] == b[1 + i]);
            }
            assert(b.subrange(5, 5 + klen) =~= partial_key);
            let p = 5 + klen;
            let q: int = match value {
                None => p + 1,
                Some(v) => p + 5 + v.len(),
            };
            match value {
                None => {
                    assert(vpart =~= seq![0u8]);
                    assert(b[p] == 0u8);
                },
                Some(v) => {
                    let vlen = v.len() as int;
                    lemma_le32_roundtrip(v.len());
                    assert(vpart =~= seq![1u8] + le32(v.len()) + v);
                    assert(b[p] == 1u8);
                    assert(b.subrange(p + 1, p + 5) =~= le32(v.len()));
                    assert(read_le32(b, p + 1) == read_le32(le32(v.len()), 0)) by {
                        assert(forall|i: int| 0 <= i < 4 ==> #[trigger] b.subrange(p + 1, p + 5)[i]
                            == b[p + 1 + i]);
                    }
                    assert(b.subrange(p + 5, p + 5 + vlen) =~= v);
                },
            }
            assert(b[q] == children.len() as u8);
            assert(b.subrange(q + 1, b.len() as int) =~= enc_children(children));
            lemma_dec_enc_children(b, q + 1, children);
            assert(dec_children(b, q + 1, b[q] as nat) == Some((children, b.len() as int)));
        },
    }
}

/// The bytes a decoded child list came from are its slots' encoding.
proof fn lemma_dec_children_sound(b: Seq<u8>, pos: int, count: nat)
    requires
        0 <= pos <= b.len(),
        dec_children(b, pos, count) is Some,
    ensures
        ({
            let (cs, end) = dec_children(b, pos, count).unwrap();
            enc_children(cs) =~= b.subrange(pos, end)
        }),
    decreases count,
{
    lemma_dec_children_wf(b, pos, count);
    if count > 0 {
        let (cs, end) = dec_children(b, pos, count).unwrap();
        if b[pos + 1] == 0 {
            lemma_dec_children_sound(b, pos + 2, (count - 1) as nat);
            lemma_dec_children_wf(b, pos + 2, (count - 1) as nat);
            let (rest, _) = dec_children(b, pos + 2, (count - 1) as nat).unwrap();
            assert(cs[0] == (b[pos], Option::<Seq<u8>>::None));
            assert(cs.skip(1) =~= rest);
            assert(enc_child(cs[0]) =~= b.subrange(pos, pos + 2));
            assert(enc_children(cs) =~= b.subrange(pos, end));
        } else {
            lemma_dec_children_sound(b, pos + 2 + DIGEST_LEN, (count - 1) as nat);
            lemma_dec_children_wf(b, pos + 2 + DIGEST_LEN, (count - 1) as nat);
            let (rest, _) = dec_children(b, pos + 2 + DIGEST_LEN, (count - 1) as nat).unwrap();
            assert(cs[0] == (b[pos], Some(b.subrange(pos + 2, pos + 2 + DIGEST_LEN))));
            assert(cs.skip(1) =~= rest);
            assert(enc_child(cs[0]) =~= b.subrange(pos, pos + 2 + DIGEST_LEN));
            assert(enc_children(cs) =~= b.subrange(pos, end));
        }
    }
}

/// Law: decoding is exact — a byte string that decodes to a node is that
/// node's encoding. With the round-trip law, decoding succeeds on precisely
/// the encodings of well-formed nodes and inverts the encoder there.
#[verifier::rlimit(100)]
#[verifier::spinoff_prover]
pub proof fn lemma_decode_sound(b: Seq<u8>)
    requires
        spec_decode_node(b) is Some,
    ensures
        spec_encode_node(spec_decode_node(b).unwrap()) == b,
{
    let m = spec_decode_node(b).unwrap();
    if b[0] == LEAF_TAG {
        let klen = read_le32(b, 1) as int;
        let vlen = read_le32(b, 5 + klen) as int;
        lemma_le32_digits(b, 1);
        lemma_le32_digits(b, 5 + klen);
        assert(spec_encode_node(m) =~= b);
    } else {
        let klen = read_le32(b, 1) as int;
        let pk = b.subrange(5, 5 + klen);
        let p = 5 + klen;
        lemma_le32_digits(b, 1);
        if b[p] == 0 {
            let q = p + 1;
            let (cs, end) = dec_children(b, q + 1, b[q] as nat).unwrap();
            lemma_dec_children_sound(b, q + 1, b[q] as nat);
            lemma_dec_children_wf(b, q + 1, b[q] as nat);
            assert(m == NodeModel::Branch {
                partial_key: pk,
                value: Option::<Seq<u8>>::None,
                children: cs,
            });
            assert(end == b.len());
            assert(spec_encode_node(m) =~= b);
        } else {
            let vlen = read_le32(b, p + 1) as int;
            lemma_le32_digits(b, p + 1);
            let v = b.subrange(p + 5, p + 5 + vlen);
            let q = p + 5 + vlen;
            let (cs, end) = dec_children(b, q + 1, b[q] as nat).unwrap();
            lemma_dec_children_sound(b, q + 1, b[q] as nat);
            lemma_dec_children_wf(b, q + 1, b[q] as nat);
            assert(m == NodeModel::Branch { partial_key: pk, value: Some(v), children: cs });
            assert(end == b.len());
            assert(spec_encode_node(m) =~= b);
        }
    }
}

/// A decoded node is well formed in the sense of [`node_wf`].
pub proof fn lemma_decode_wf(b: Seq<u8>)
    requires
        spec_decode_node(b) is Some,
    ensures
        node_wf(spec_decode_node(b).unwrap()),
{
    let m = spec_decode_node(b).unwrap();
    if b[0] == BRANCH_TAG {
        let klen = read_le32(b, 1) as int;
        let pk = b.subrange(5, 5 + klen);
        let p = 5 + klen;
        if b[p] == 0 {
            lemma_dec_children_wf(b, p + 2, b[p + 1] as nat);
        } else {
            let vlen = read_le32(b, p + 1) as int;
            let q = p + 5 + vlen;
            lemma_dec_children_wf(b, q + 1, b[q] as nat);
        }
    }
}

} // verus!
