//! Wire size of a proof under the SCALE codec.
//!
//! A compact proof travels as a SCALE-encoded vector of byte strings: a
//! compact length prefix for the vector, then each string behind its own
//! compact length prefix. Only the size of that encoding is needed here.

use vstd::prelude::*;
use crate::order::byte_views;

verus! {

/// The byte length of the SCALE compact encoding of a length below 2^32.
pub open spec fn compact_prefix_size(n: nat) -> nat {
    if n < 64 {
        1
    } else if n < 16384 {
        2
    } else if n < 1073741824 {
        4
    } else {
        5
    }
}

/// The SCALE-encoded sizes of the byte strings of `s`, added up: each string
/// costs its own length prefix and its bytes.
pub open spec fn scale_items_size(s: Seq<Seq<u8>>) -> nat
    decreases s.len(),
{
    if s.len() == 0 {
        0
    } else {
        scale_items_size(s.drop_last()) + compact_prefix_size(s.last().len()) + s.last().len()
    }
}

/// The byte length of the SCALE encoding of a sequence of byte strings.
pub open spec fn scale_encoded_size(s: Seq<Seq<u8>>) -> nat {
    compact_prefix_size(s.len()) + scale_items_size(s)
}

/// The encoding exists and its size is measurable: every length fits the
/// compact length prefix, and the total fits the machine.
pub open spec fn scale_size_fits(s: Seq<Seq<u8>>) -> bool {
    &&& s.len() <= u32::MAX
    &&& forall|i: int| 0 <= i < s.len() ==> (#[trigger] s[i]).len() <= u32::MAX
    &&& scale_encoded_size(s) <= usize::MAX
}

/// Relies on `parity_scale_codec::Encode::encoded_size` for `Vec<Vec<u8>>`:
/// it counts the bytes of the SCALE encoding, a compact length prefix for
/// the vector followed by each inner vector as a compact length prefix and
/// its raw bytes. Lengths above `u32::MAX` cannot be length-prefixed and
/// make the codec panic, so they are excluded here.
#[verifier::external_body]
pub(crate) fn scale_encoded_size_exec(nodes: &Vec<Vec<u8>>) -> (r: usize)
    requires
        scale_size_fits(byte_views(nodes@)),
    ensures
        r == scale_encoded_size(byte_views(nodes@)),
{
    parity_scale_codec::Encode::encoded_size(nodes)
}

/// The byte length of the SCALE compact encoding of `n`.
fn compact_prefix_size_exec(n: usize) -> (r: u64)
    ensures
        r == compact_prefix_size(n as nat),
{
    if n < 64 {
        1
    } else if n < 16384 {
        2
    } else if n < 1073741824 {
        4
    } else {
        5
    }
}

/// Measures the SCALE encoding of `nodes`, as a number too wide to overflow,
/// so that [`scale_size_fits`] can be decided before the codec runs.
pub(crate) fn scale_size_check(nodes: &Vec<Vec<u8>>) -> (r: Option<u128>)
    ensures
        match r {
            Some(sz) => scale_size_fits(byte_views(nodes@)) == (sz <= usize::MAX)
                && sz == scale_encoded_size(byte_views(nodes@)),
            None => !scale_size_fits(byte_views(nodes@)),
        },
{
    let ghost s = byte_views(nodes@);
    if nodes.len() > u32::MAX as usize {
        return None;
    }
    let mut total: u128 = compact_prefix_size_exec(nodes.len()) as u128;
    let mut i: usize = 0;
    while i < nodes.len()
        invariant
            i <= nodes.len(),
            nodes@.len() <= u32::MAX,
            s == byte_views(nodes@),
            forall|j: int| 0 <= j < i ==> (#[trigger] s[j]).len() <= u32::MAX,
            total == compact_prefix_size(s.len()) + scale_items_size(s.take(i as int)),
            total <= 5 + i * 0x1_0000_0005,
            i <= u32::MAX,
        decreases nodes.len() - i,
    {
        if nodes[i].len() > u32::MAX as usize {
            proof {
                assert(!scale_size_fits(s)) by {
                    if scale_size_fits(s) {
                        assert(s[i as int].len() <= u32::MAX);
                    }
                }
            }
            return None;
        }
        proof {
            assert(s.take(i + 1).drop_last() =~= s.take(i as int));
            assert(s.take(i + 1).last() == s[i as int]);
            assert((i + 1) * 0x1_0000_0005 == i * 0x1_0000_0005 + 0x1_0000_0005)
                by (nonlinear_arith);
            assert(5 + (i + 1) * 0x1_0000_0005 <= u128::MAX) by (nonlinear_arith)
                requires
                    0 <= i < 0x1_0000_0000,
            ;
        }
        total = total + compact_prefix_size_exec(nodes[i].len()) as u128 + nodes[i].len() as u128;
        i = i + 1;
    }
    proof {
        assert(s.take(nodes.len() as int) =~= s);
    }
    Some(total)
}

} // verus!
