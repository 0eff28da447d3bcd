//! The canonical node encoding for a radix-16 Merkle Patricia Trie, a
//! streaming root builder over sorted key/value pairs, and compact proofs
//! of key inclusion and non-inclusion against a root digest.
//!
//! The wire format is the public contract: a one-byte header whose top two
//! bits pick the node variant, nibble packing two per byte, a
//! self-describing compact length encoding, and a sixteen-bit child
//! bitmap. Encoding and decoding are proved inverse to one another, the
//! builder is proved equal to the canonical encoding of its input, and the
//! root of the empty trie is pinned to the digest of the single zero byte.

use vstd::prelude::*;

pub mod compact;
pub mod error;
pub mod hashing;
pub mod nibble;
pub mod node;
pub mod proof_protocol;
pub mod store;
pub mod trie_build;

use crate::compact::{spec_compact, compact_encode_to};
use crate::hashing::{blake2_256, blake2_256_of};
use crate::store::NodeStore;
use crate::trie_build::{
    pairs_wf, pairs_sorted, pairs_view, spec_trie_unhashed, build_trie,
};

verus! {

/// The trie layout: the node codec, the nibble-based radix-16 shape, and
/// the hash capability, tied together under one name.
pub struct Layout;

impl Layout {
    /// Serializes the whole trie over sorted, unique-by-key pairs: the
    /// exact byte form whose digest is the trie root.
    pub fn trie_root_unhashed(input: &Vec<(Vec<u8>, Vec<u8>)>) -> (r: Vec<u8>)
        requires
            pairs_wf(pairs_view(input)),
            pairs_sorted(pairs_view(input)),
        ensures
            r@ == spec_trie_unhashed(pairs_view(input)),
    {
        let mut db = NodeStore::new();
        build_trie(input, &mut db)
    }

    /// The trie root digest over sorted, unique-by-key pairs: the hash of
    /// the serialized root node. Zero pairs give the digest of the single
    /// byte zero, the canonical empty-trie root.
    pub fn trie_root(input: &Vec<(Vec<u8>, Vec<u8>)>) -> (r: Vec<u8>)
        requires
            pairs_wf(pairs_view(input)),
            pairs_sorted(pairs_view(input)),
        ensures
            r@ == blake2_256_of(spec_trie_unhashed(pairs_view(input))),
            r@.len() == 32,
            input@.len() == 0 ==> r@ == blake2_256_of(seq![0u8]),
    {
        let enc = Self::trie_root_unhashed(input);
        proof {
            if input@.len() == 0 {
                assert(pairs_view(input).len() == 0);
                lemma_empty_trie_unhashed(pairs_view(input));
            }
        }
        blake2_256(&enc)
    }

    /// Encodes a child index in the compact integer form.
    pub fn encode_index(input: u32) -> (r: Vec<u8>)
        ensures
            r@ == spec_compact(input as nat),
    {
        let mut out: Vec<u8> = Vec::new();
        compact_encode_to(&mut out, input);
        out
    }
}

/// The empty trie serializes to the single byte zero, so its root is the
/// fixed digest of that byte.
pub proof fn lemma_empty_trie_unhashed(pairs: Seq<(Seq<u8>, Seq<u8>)>)
    requires
        pairs.len() == 0,
    ensures
        spec_trie_unhashed(pairs) == seq![0u8],
{
}

} // verus!
