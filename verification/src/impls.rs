//! The tree of a `u64`: one chunk.

use vstd::prelude::*;
use vstd::std_specs::cmp::PartialEqSpec;
use crate::cache::{lemma_splice_one_chunk, TreeHashCache};
use crate::encoding::{int_to_bytes8, le_bytes, lemma_le_bytes_len};
use crate::error::Error;
use crate::hashing::HASHSIZE;
use crate::merkle::{lemma_single_leaf, merkle_tree, merkleize, pad_zeros, zeros};
use crate::pow2::next_pow2;
use crate::tree_hash::{chunks_of, fits, CachedTreeHash, ItemKind};

verus! {

/// The one chunk that holds a `u64`: its eight bytes, then zeros.
pub open spec fn u64_chunk(value: u64) -> Seq<u8> {
    le_bytes(value) + zeros(24)
}

/// The leaf that `merkleize` makes of the eight bytes of a `u64` is
/// `u64_chunk`.
pub proof fn lemma_u64_chunk(value: u64)
    ensures
        u64_chunk(value).len() == 32,
        merkle_tree(pad_zeros(le_bytes(value))) == u64_chunk(value),
{
    lemma_le_bytes_len(value as nat, 8);
    assert(next_pow2(1) == 1);
    assert(pad_zeros(le_bytes(value)) =~= u64_chunk(value));
    lemma_single_leaf(u64_chunk(value));
}

/// What the tree of a `u64` is: one chunk, which holds its eight bytes.
pub proof fn lemma_u64_facts(value: &u64)
    ensures
        value.encoding() == le_bytes(*value),
        value.encoding().len() == 8,
        value.tree() == u64_chunk(*value),
        value.tree().len() == 32,
        chunks_of(value.tree()) == 1,
        fits(value.tree()),
        value.leaf_lengths() is None,
        value.packable_len() == 8,
        forall|other: &u64| #[trigger] value.eq_spec(other) == (*value == *other),
{
    lemma_u64_chunk(*value);
    lemma_le_bytes_len(*value as nat, 8);
}

impl CachedTreeHash for u64 {
    open spec fn spec_item_kind() -> ItemKind {
        ItemKind::Packed
    }

    open spec fn encoding(&self) -> Seq<u8> {
        le_bytes(*self)
    }

    open spec fn tree(&self) -> Seq<u8> {
        u64_chunk(*self)
    }

    open spec fn leaf_lengths(&self) -> Option<Seq<usize>> {
        None
    }

    open spec fn packable_len(&self) -> nat {
        8
    }

    open spec fn spec_packing_factor() -> nat {
        4
    }

    proof fn lemma_tree_shape(&self) {
        lemma_u64_facts(self);
    }

    proof fn lemma_equal_values(&self, other: &Self) {
        lemma_u64_facts(self);
        lemma_u64_facts(other);
    }

    fn item_kind() -> (kind: ItemKind) {
        ItemKind::Packed
    }

    fn packing_factor() -> (factor: usize) {
        HASHSIZE / 8
    }

    fn encode(&self) -> (bytes: Vec<u8>) {
        assert(self.encoding() == le_bytes(*self));
        int_to_bytes8(*self)
    }

    fn build_tree_hash_cache(&self) -> (res: Result<TreeHashCache, Error>) {
        proof {
            lemma_u64_chunk(*self);
            lemma_u64_facts(self);
        }
        let single_leaf = match merkleize(self.encode()) {
            Ok(leaf) => leaf,
            Err(e) => {
                return Err(e);
            },
        };
        TreeHashCache::from_bytes(single_leaf)
    }

    fn num_bytes(&self) -> (n: usize) {
        proof {
            lemma_u64_facts(self);
        }
        8
    }

    fn offsets(&self) -> (res: Result<Vec<usize>, Error>) {
        proof {
            lemma_u64_facts(self);
        }
        Err(Error::ShouldNotProduceBTreeOverlay)
    }

    fn num_packable_bytes(&self) -> (n: usize) {
        proof {
            lemma_u64_facts(self);
        }
        8
    }

    fn num_child_nodes(&self) -> (n: usize) {
        proof {
            lemma_u64_facts(self);
        }
        0
    }

    fn update_cache(&self, other: &Self, cache: &mut TreeHashCache, cache_offset: usize) -> (res:
        Result<usize, Error>) {
        proof {
            lemma_u64_chunk(*self);
            lemma_u64_facts(self);
            lemma_u64_facts(other);
        }
        if *self != *other {
            let leaf = match merkleize(self.encode()) {
                Ok(leaf) => leaf,
                Err(e) => {
                    return Err(e);
                },
            };
            match cache.modify_chunk(cache_offset, leaf.as_slice()) {
                Ok(_) => {},
                Err(e) => {
                    return Err(e);
                },
            }
            proof {
                if cache_offset < old(cache)@.num_chunks() {
                    lemma_splice_one_chunk(old(cache)@, cache_offset as int, leaf@);
                    let after = cache@;
                    let before = old(cache)@;
                    assert(after.modified.subrange(0, cache_offset as int)
                        =~= before.modified.subrange(0, cache_offset as int));
                    assert(after.modified.subrange(cache_offset + 1, after.modified.len() as int)
                        =~= before.modified.subrange(
                        cache_offset + 1,
                        before.modified.len() as int,
                    ));
                    assert(after.bytes.subrange(0, 32 * cache_offset) =~= before.bytes.subrange(
                        0,
                        32 * cache_offset,
                    ));
                    assert(after.bytes.subrange(32 * (cache_offset + 1), after.bytes.len() as int)
                        =~= before.bytes.subrange(
                        32 * (cache_offset + 1),
                        before.bytes.len() as int,
                    ));
                }
            }
        }
        Ok(cache_offset + 1)
    }
}

} // verus!
