//! The hash that makes a parent of two nodes: Keccak-256.

use vstd::prelude::*;

verus! {

/// Number of bytes in a digest.
pub const HASHSIZE: usize = 32;

/// The Keccak-256 digest of `input`, as `tiny_keccak::keccak256` computes it.
pub uninterp spec fn keccak256(input: Seq<u8>) -> [u8; 32];

/// The digest of `input` as a sequence of 32 bytes.
pub open spec fn digest(input: Seq<u8>) -> Seq<u8> {
    keccak256(input)@
}

/// The digest of two nodes side by side: the parent of `left` and `right`.
pub open spec fn hash_pair(left: Seq<u8>, right: Seq<u8>) -> Seq<u8> {
    digest(left + right)
}

/// Calls `tiny_keccak::keccak256`, which absorbs the whole input into a fresh
/// Keccak-256 sponge and squeezes 32 bytes out of it. The digest depends on
/// the input bytes alone; nothing else is claimed of it.
#[verifier::external_body]
fn keccak256_digest(input: &[u8]) -> (out: [u8; 32])
    ensures
        out == keccak256(input@),
{
    tiny_keccak::keccak256(input)
}

/// Hashes `input` to a digest of `HASHSIZE` bytes.
pub fn hash(input: &[u8]) -> (out: Vec<u8>)
    ensures
        out@ == digest(input@),
        out@.len() == HASHSIZE,
{
    let d = keccak256_digest(input);
    let mut out: Vec<u8> = Vec::with_capacity(HASHSIZE);
    let mut i: usize = 0;
    while i < HASHSIZE
        invariant
            i <= HASHSIZE,
            out@ == d@.subrange(0, i as int),
        decreases HASHSIZE - i,
    {
        out.push(d[i]);
        i += 1;
    }
    out
}

} // verus!
