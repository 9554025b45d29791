//! The hash capability.
//!
//! Every trie node is content-addressed by the 256-bit blake2b digest of its
//! full encoding; the trie root is the digest of the top node. The digest
//! itself comes from an outside implementation and is only named here.

use vstd::prelude::*;

verus! {

/// The number of bytes in a node digest.
pub const DIGEST_LEN: usize = 32;

/// The blake2b-256 digest of a byte sequence: 32 bytes determined by the
/// input bytes alone.
pub uninterp spec fn blake2b256(data: Seq<u8>) -> Seq<u8>;

/// Relies on `blake2b_simd::Params::hash`: with `hash_length(32)` it returns
/// the 32-byte blake2b-256 digest of the input, a deterministic function of
/// the input bytes alone.
#[verifier::external_body]
pub(crate) fn hash_bytes(data: &Vec<u8>) -> (r: Vec<u8>)
    ensures
        r@ == blake2b256(data@),
        r@.len() == DIGEST_LEN,
{
    blake2b_simd::Params::new().hash_length(32).hash(data.as_slice()).as_bytes().to_vec()
}

} // verus!
