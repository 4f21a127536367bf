//! Updating in place the tree of a list whose items are packed into leaves.

use vstd::prelude::*;
use crate::cache::TreeHashCache;
use crate::error::Error;
use crate::list::{
    build_vec_leaves, in_place, lemma_list_layout, lemma_list_shape, list_encoding,
    list_leaf_lengths, list_num_bytes, list_tree, unmixed_tree,
};
use crate::merkle::{
    chunk_at, chunks_for, lemma_merkle_tree_shape, lemma_pad_zeros, lemma_padding_chunk,
    merkle_tree, num_unsanitized_leaves, pad_zeros, tree_node,
};
use crate::overlay::{lemma_padded_lengths, BTreeOverlay, OverlayView};
use crate::region::{lemma_bytes_of_chunks, lemma_chunk_of_region};
use crate::tree_hash::{chunks_of, fits, holds_below_root, CachedTreeHash, ItemKind};
use crate::update::{
    is_internal_chunk, leaf_status, leaf_updated, leaf_value, lemma_rehashed_node, node_rehashed,
    rehash_internal_nodes, update_packed_leaves,
};

verus! {

/// Updates in place the tree of a list of packed items that fill as many
/// leaves as before: writes the leaves that have changed and rehashes what
/// lies above them, the root in any case.
pub fn update_packed_in_place<T: CachedTreeHash>(
    list: &Vec<T>,
    other: &Vec<T>,
    cache: &mut TreeHashCache,
    overlay: &BTreeOverlay,
    cache_offset: usize,
) -> (res: Result<(), Error>)
    requires
        T::spec_item_kind() == ItemKind::Packed,
        old(cache)@.wf(),
        fits(list_tree(list@)),
        fits(list_tree(other@)),
        list_leaf_lengths(list@) == list_leaf_lengths(other@),
        overlay@ == OverlayView::from_lengths(cache_offset as nat, list_leaf_lengths(list@)),
        overlay@.laid_out(),
        overlay@.offsets[0] == cache_offset,
        overlay@.next_node == cache_offset + chunks_of(list_tree(list@)),
        overlay@.next_node == cache_offset + overlay@.total_nodes(),
        overlay@.next_node <= old(cache)@.num_chunks(),
    ensures
        res is Ok,
        in_place(
            old(cache)@,
            final(cache)@,
            cache_offset as int,
            list_tree(other@),
            unmixed_tree(list@),
        ),
{
    let ghost before = cache@;
    let ghost ov = overlay@;
    let ghost new_bytes = list_encoding(list@);
    let ghost old_bytes = list_encoding(other@);
    let ghost new_padded = pad_zeros(new_bytes);
    let ghost old_padded = pad_zeros(old_bytes);
    let ghost leaves = ov.num_leaf_nodes as int;
    proof {
        lemma_list_shape(list@);
        lemma_list_shape(other@);
        lemma_list_layout(list@);
        lemma_list_layout(other@);
        lemma_pad_zeros(new_bytes);
        lemma_pad_zeros(old_bytes);
        lemma_padded_lengths(list_leaf_lengths(list@));
        assert(list_leaf_lengths(list@).len() == chunks_for(new_bytes.len()));
        assert(list_leaf_lengths(other@).len() == chunks_for(old_bytes.len()));
        lemma_merkle_tree_shape(new_padded);
        lemma_merkle_tree_shape(old_padded);
    }
    let new_leaves = match build_vec_leaves(list) {
        Ok(leaves) => leaves,
        Err(e) => {
            return Err(e);
        },
    };
    if overlay.num_internal_nodes() == 0 {
        // The one leaf is the root.
        let leaf = vstd::slice::slice_subrange(new_leaves.as_slice(), 0, 32);
        match cache.modify_chunk(overlay.root(), leaf) {
            Ok(_) => {},
            Err(e) => {
                return Err(e);
            },
        }
        proof {
            crate::cache::lemma_splice_one_chunk(before, cache_offset as int, leaf@);
            assert(leaf@ =~= new_padded);
            crate::merkle::lemma_single_leaf(new_padded);
            assert(cache@.bytes.subrange(0, 32 * cache_offset) =~= before.bytes.subrange(
                0,
                32 * cache_offset,
            ));
            assert(cache@.bytes.subrange(32 * (cache_offset + 1), cache@.bytes.len() as int)
                =~= before.bytes.subrange(32 * (cache_offset + 1), before.bytes.len() as int));
            assert(cache@.bytes =~= before.bytes.subrange(0, 32 * cache_offset) + unmixed_tree(
                list@,
            ) + before.bytes.subrange(
                32 * cache_offset + unmixed_tree(list@).len(),
                before.bytes.len() as int,
            ));
        }
        return Ok(());
    }
    let old_leaves = match build_vec_leaves(other) {
        Ok(leaves) => leaves,
        Err(e) => {
            return Err(e);
        },
    };
    let values = num_unsanitized_leaves(list_num_bytes(list));
    match update_packed_leaves(
        cache,
        overlay,
        new_leaves.as_slice(),
        values,
        old_leaves.as_slice(),
        values,
    ) {
        Ok(_) => {},
        Err(e) => {
            return Err(e);
        },
    }
    let ghost mid = cache@;
    match rehash_internal_nodes(cache, overlay, true) {
        Ok(_) => {},
        Err(e) => {
            return Err(e);
        },
    }
    proof {
        let after = cache@;
        let offset = cache_offset as int;
        let total = 2 * leaves - 1;
        assert forall|q: int| 0 <= q < total implies #[trigger] ov.offsets[q] == offset + q by {
            crate::update::lemma_packed_offsets(ov, q);
        }
        assert(ov.leaf(0) == offset + leaves - 1);
        assert forall|c: int|
            0 <= c < before.num_chunks() && !(offset <= c < offset + total) implies (#[trigger] after.modified[c])
            == before.modified[c] by {
            assert(mid.modified[c] == before.modified[c]);
            assert(!is_internal_chunk(ov, c));
        }
        assert forall|c: int|
            0 <= c < before.num_chunks() && !(offset <= c < offset + total) implies (#[trigger] after.chunk(c))
            == before.chunk(c) by {
            assert(mid.chunk(c) == before.chunk(c));
            assert(!is_internal_chunk(ov, c));
        }
        assert forall|c: int|
            0 <= c < before.bytes.len() / 32 && !(offset <= c < offset + total) implies #[trigger] chunk_at(
            after.bytes,
            c,
        ) == chunk_at(before.bytes, c) by {
            assert(after.chunk(c) == before.chunk(c));
        }
        crate::region::lemma_chunks_around(after.bytes, before.bytes, offset, total);
        assert forall|c: int| offset <= c < offset + total && !after.modified[c] implies c
            < before.num_chunks() && #[trigger] after.chunk(c) == before.chunk(c) by {
            let q = c - offset;
            assert(ov.offsets[q] == c);
            if q >= leaves - 1 {
                let i = q - (leaves - 1);
                assert(ov.leaf(i) == c);
                assert(!is_internal_chunk(ov, c));
                assert(after.chunk(c) == mid.chunk(c));
                assert(after.modified[c] == mid.modified[c]);
                assert(leaf_updated(
                    before,
                    mid,
                    ov.leaf(i) as int,
                    leaf_status(
                        leaf_value(new_padded, values as int, i),
                        leaf_value(old_padded, values as int, i),
                    ),
                    chunk_at(new_padded, i),
                ));
            } else {
                assert(node_rehashed(mid, after, ov, true, q));
                assert(ov.internal_node(q).0 == c);
                assert(mid.chunk(c) == before.chunk(c));
            }
        }
        if holds_below_root(before, offset, list_tree(other@)) {
            let old_tree = list_tree(other@);
            assert forall|q: int| 1 <= q < total implies #[trigger] before.chunk(offset + q)
                == tree_node(old_padded, q as nat) by {
                lemma_chunk_of_region(before.bytes, offset, old_tree, q);
                assert(chunk_at(old_tree, q) =~= chunk_at(merkle_tree(old_padded), q));
                crate::merkle::lemma_merkle_tree_chunk(old_padded, q as nat);
            }
            assert forall|i: int| 0 <= i < leaves implies mid.chunk(#[trigger] ov.leaf(i) as int)
                == chunk_at(new_padded, i) && (!mid.modified[ov.leaf(i) as int] ==> chunk_at(
                new_padded,
                i,
            ) == chunk_at(old_padded, i)) by {
                let c = ov.leaf(i) as int;
                assert(c == ov.offsets[leaves - 1 + i]);
                assert(before.chunk(offset + (leaves - 1 + i)) == tree_node(
                    old_padded,
                    (leaves - 1 + i) as nat,
                ));
                assert(before.chunk(c) == chunk_at(old_padded, i));
                if i >= values {
                    lemma_padding_chunk(new_bytes, old_bytes, i);
                }
                assert(leaf_updated(
                    before,
                    mid,
                    c,
                    leaf_status(
                        leaf_value(new_padded, values as int, i),
                        leaf_value(old_padded, values as int, i),
                    ),
                    chunk_at(new_padded, i),
                ));
            }
            assert forall|p: int| 1 <= p < ov.num_internal_nodes implies mid.chunk(
                #[trigger] ov.offsets[p] as int,
            ) == tree_node(old_padded, p as nat) by {
                assert(ov.offsets[p] == offset + p);
                assert(before.chunk(offset + p) == tree_node(old_padded, p as nat));
                assert(mid.chunk(offset + p) == before.chunk(offset + p));
            }
            assert forall|q: int| 0 <= q < unmixed_tree(list@).len() / 32 implies #[trigger] chunk_at(
                after.bytes,
                offset + q,
            ) == chunk_at(unmixed_tree(list@), q) by {
                lemma_rehashed_node(mid, after, ov, new_padded, old_padded, q);
                assert(ov.offsets[q] == offset + q);
                crate::merkle::lemma_merkle_tree_chunk(new_padded, q as nat);
            }
            lemma_bytes_of_chunks(after.bytes, before.bytes, offset, unmixed_tree(list@));
        }
    }
    Ok(())
}

} // verus!
