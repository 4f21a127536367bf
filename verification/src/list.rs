//! The tree of a list: what it is, how it is built, and how it is brought up
//! to date from the list before.

use vstd::prelude::*;
use vstd::std_specs::cmp::PartialEqSpec;
use crate::cache::{cache_trees, CacheView, TreeHashCache};
use crate::error::Error;
use crate::list_composite::update_composite_in_place;
use crate::list_packed::update_packed_in_place;
use crate::merkle::{
    chunks_for, lemma_merkle_tree_shape, lemma_pad_zeros, merkle_tree, merkleize,
    num_sanitized_leaves, num_unsanitized_leaves, pad_leaves, pad_zeros, padded_len,
};
use crate::overlay::{
    lemma_padded_lengths, padded_lengths, sum_lengths, total_chunks, BTreeOverlay, OverlayView,
};
use crate::pow2::{lemma_next_pow2_bounds, next_pow2};
use crate::subtrees::{
    all_trees, assemble, concat, lemma_assemble_len, lemma_concat_part, lemma_concat_push,
    lemma_roots_len, mix_root, part_start,
};
use crate::tree_hash::{
    chunks_of, fits, holds_below_root, marks_cover_changes, same_around, updated, CachedTreeHash,
    ItemKind,
};

verus! {

/// The raw bytes of each of the items.
pub open spec fn encodings_of<T: CachedTreeHash>(items: Seq<T>) -> Seq<Seq<u8>> {
    Seq::new(items.len(), |i: int| items[i].encoding())
}

/// The tree of each of the items.
pub open spec fn trees_of<T: CachedTreeHash>(items: Seq<T>) -> Seq<Seq<u8>> {
    Seq::new(items.len(), |i: int| items[i].tree())
}

/// The raw bytes of a list: those of its items one after another.
pub open spec fn list_encoding<T: CachedTreeHash>(items: Seq<T>) -> Seq<u8> {
    concat(encodings_of(items))
}

/// The tree of a list before its length is mixed in. Packed items are
/// hashed as the leaves that their raw bytes fill, padded with zeros;
/// composite items hang with their own trees from the leaves.
pub open spec fn unmixed_tree<T: CachedTreeHash>(items: Seq<T>) -> Seq<u8> {
    match T::spec_item_kind() {
        ItemKind::Packed => merkle_tree(pad_zeros(list_encoding(items))),
        ItemKind::Composite => assemble(trees_of(items)),
    }
}

/// The tree of a list: its root commits to the number of items.
pub open spec fn list_tree<T: CachedTreeHash>(items: Seq<T>) -> Seq<u8> {
    mix_root(unmixed_tree(items), items.len() as u64)
}

/// The lengths of a list's leaves: a chunk for each leaf that packed items
/// fill, and for a composite item the chunks of its tree.
pub open spec fn list_leaf_lengths<T: CachedTreeHash>(items: Seq<T>) -> Seq<usize> {
    match T::spec_item_kind() {
        ItemKind::Packed => Seq::new(chunks_for(list_encoding(items).len()), |i: int| 1usize),
        ItemKind::Composite => Seq::new(
            items.len(),
            |i: int| chunks_of(items[i].tree()) as usize,
        ),
    }
}

/// The trees of items are trees: whole chunks with a root.
pub proof fn lemma_trees_of<T: CachedTreeHash>(items: Seq<T>)
    ensures
        all_trees(trees_of(items)),
        forall|i: int|
            0 <= i < items.len() ==> (#[trigger] encodings_of(items)[i]).len() <= trees_of(
                items,
            )[i].len(),
{
    assert forall|i: int| 0 <= i < items.len() implies (#[trigger] trees_of(items)[i]).len() % 32
        == 0 && trees_of(items)[i].len() >= 32 by {
        items[i].lemma_tree_shape();
    }
    assert forall|i: int| 0 <= i < items.len() implies (#[trigger] encodings_of(items)[i]).len()
        <= trees_of(items)[i].len() by {
        items[i].lemma_tree_shape();
    }
}

/// Parts that are no longer than other parts are no longer together.
pub proof fn lemma_concat_len_le(short: Seq<Seq<u8>>, long: Seq<Seq<u8>>)
    requires
        short.len() == long.len(),
        forall|i: int| 0 <= i < short.len() ==> (#[trigger] short[i]).len() <= long[i].len(),
    ensures
        concat(short).len() <= concat(long).len(),
    decreases short.len(),
{
    if short.len() > 0 {
        lemma_concat_len_le(short.drop_last(), long.drop_last());
    }
}

/// The sum of lengths that are all one chunk is their number.
pub proof fn lemma_sum_of_ones(lengths: Seq<nat>, count: int)
    requires
        0 <= count <= lengths.len(),
        forall|i: int| 0 <= i < lengths.len() ==> lengths[i] == 1,
    ensures
        sum_lengths(lengths, count) == count,
    decreases count,
{
    if count > 0 {
        lemma_sum_of_ones(lengths, count - 1);
    }
}

/// The lengths of the leaves add up, in bytes, to the trees that hang from
/// them; the padding leaves behind them add a chunk each.
pub proof fn lemma_sum_of_trees(trees: Seq<Seq<u8>>, lengths: Seq<nat>, count: int)
    requires
        all_trees(trees),
        trees.len() <= lengths.len(),
        forall|i: int| 0 <= i < trees.len() ==> #[trigger] lengths[i] == trees[i].len() / 32,
        forall|i: int| trees.len() <= i < lengths.len() ==> #[trigger] lengths[i] == 1,
        0 <= count <= lengths.len(),
    ensures
        count <= trees.len() ==> 32 * sum_lengths(lengths, count) == part_start(trees, count),
        count >= trees.len() ==> 32 * sum_lengths(lengths, count) == concat(trees).len() + 32 * (
        count - trees.len()),
    decreases count,
{
    if count > 0 {
        lemma_sum_of_trees(trees, lengths, count - 1);
        if count <= trees.len() {
            lemma_concat_part(trees, count - 1);
        }
    }
    if count == trees.len() {
        assert(trees.subrange(0, count) =~= trees);
    }
    if count == 0 {
        assert(trees.subrange(0, 0) =~= Seq::<Seq<u8>>::empty());
    }
}

/// The shape of a list's tree. It is whole chunks with a root and no
/// shorter than the list's raw bytes, and a composite item's tree lies whole
/// within it.
pub proof fn lemma_list_shape<T: CachedTreeHash>(items: Seq<T>)
    ensures
        unmixed_tree(items).len() % 32 == 0,
        unmixed_tree(items).len() >= 32,
        list_tree(items).len() == unmixed_tree(items).len(),
        list_encoding(items).len() <= unmixed_tree(items).len(),
        T::spec_item_kind() == ItemKind::Packed ==> unmixed_tree(items).len() == 2 * padded_len(
            list_encoding(items).len(),
        ) - 32,
        T::spec_item_kind() == ItemKind::Composite ==> unmixed_tree(items).len() == (2 * next_pow2(
            items.len(),
        ) - 1 - items.len()) * 32 + concat(trees_of(items)).len(),
        T::spec_item_kind() == ItemKind::Composite ==> forall|i: int|
            0 <= i < items.len() ==> (#[trigger] items[i]).tree().len() <= concat(
                trees_of(items),
            ).len(),
        next_pow2(items.len()) >= items.len(),
{
    lemma_next_pow2_bounds(items.len());
    match T::spec_item_kind() {
        ItemKind::Packed => {
            let leaves = pad_zeros(list_encoding(items));
            lemma_pad_zeros(list_encoding(items));
            lemma_merkle_tree_shape(leaves);
        },
        ItemKind::Composite => {
            let trees = trees_of(items);
            lemma_trees_of(items);
            lemma_assemble_len(trees);
            lemma_roots_len(trees);
            lemma_concat_len_le(encodings_of(items), trees);
            assert forall|i: int| 0 <= i < items.len() implies (#[trigger] items[i]).tree().len()
                <= concat(trees).len() by {
                lemma_concat_part(trees, i);
                assert(trees[i] == items[i].tree());
            }
        },
    }
}

/// The layout of a list's tree, where the tree is small enough to have
/// one: the overlay of the list's leaves lays out exactly the chunks of the
/// tree, and every leaf takes a chunk or more. A composite item's tree
/// starts where its leaf lies.
pub proof fn lemma_list_layout<T: CachedTreeHash>(items: Seq<T>)
    requires
        unmixed_tree(items).len() <= usize::MAX,
    ensures
        32 * total_chunks(padded_lengths(list_leaf_lengths(items))) == unmixed_tree(items).len(),
        32 * next_pow2(list_leaf_lengths(items).len()) <= unmixed_tree(items).len(),
        forall|i: int|
            0 <= i < list_leaf_lengths(items).len() ==> #[trigger] list_leaf_lengths(items)[i]
                >= 1,
        T::spec_item_kind() == ItemKind::Composite ==> forall|i: int|
            0 <= i <= items.len() ==> 32 * #[trigger] sum_lengths(
                padded_lengths(list_leaf_lengths(items)),
                i,
            ) == part_start(trees_of(items), i),
        T::spec_item_kind() == ItemKind::Composite ==> forall|i: int|
            0 <= i < items.len() ==> (#[trigger] list_leaf_lengths(items)[i]) == chunks_of(
                items[i].tree(),
            ),
{
    let lengths = list_leaf_lengths(items);
    let all = padded_lengths(lengths);
    lemma_padded_lengths(lengths);
    lemma_next_pow2_bounds(lengths.len());
    lemma_list_shape(items);
    match T::spec_item_kind() {
        ItemKind::Packed => {
            lemma_pad_zeros(list_encoding(items));
            lemma_sum_of_ones(all, all.len() as int);
        },
        ItemKind::Composite => {
            let trees = trees_of(items);
            lemma_trees_of(items);
            lemma_roots_len(trees);
            assert forall|i: int| 0 <= i < trees.len() implies #[trigger] all[i] == trees[i].len()
                / 32 by {
                assert(trees[i] == items[i].tree());
                assert(lengths[i] == chunks_of(items[i].tree()) as usize);
                assert(all[i] == lengths[i] as nat);
            }
            lemma_sum_of_trees(trees, all, all.len() as int);
            assert forall|i: int| 0 <= i <= items.len() implies 32 * #[trigger] sum_lengths(
                all,
                i,
            ) == part_start(trees, i) by {
                lemma_sum_of_trees(trees, all, i);
            }
            assert forall|i: int| 0 <= i < lengths.len() implies #[trigger] lengths[i] >= 1 by {
                assert(trees[i].len() >= 32);
                assert(all[i] == trees[i].len() / 32);
            }
        },
    }
}

/// Lists that compare equal have the same items, as far as bytes and trees
/// can tell.
pub proof fn lemma_equal_lists<T: CachedTreeHash>(a: &Vec<T>, b: &Vec<T>)
    ensures
        T::obeys_eq_spec(),
        <Vec<T> as PartialEqSpec<Vec<T>>>::obeys_eq_spec(),
        a.eq_spec(b) ==> {
            &&& a@.len() == b@.len()
            &&& encodings_of(a@) == encodings_of(b@)
            &&& trees_of(a@) == trees_of(b@)
            &&& list_tree(a@) == list_tree(b@)
            &&& unmixed_tree(a@) == unmixed_tree(b@)
            &&& list_encoding(a@) == list_encoding(b@)
            &&& list_leaf_lengths(a@) == list_leaf_lengths(b@)
        },
{
    let item: T = arbitrary();
    item.lemma_equal_values(&item);
    if a.eq_spec(b) {
        assert forall|i: int| 0 <= i < a@.len() implies encodings_of(a@)[i] == encodings_of(b@)[i]
            && trees_of(a@)[i] == trees_of(b@)[i] by {
            a@[i].lemma_equal_values(&b@[i]);
        }
        assert(encodings_of(a@) =~= encodings_of(b@));
        assert(trees_of(a@) =~= trees_of(b@));
        assert forall|i: int| 0 <= i < a@.len() implies a@[i].tree() == b@[i].tree() by {
            assert(trees_of(a@)[i] == trees_of(b@)[i]);
        }
        assert(list_leaf_lengths(a@) =~= list_leaf_lengths(b@));
    }
}

/// The raw bytes of the items of a list one after another.
pub fn encode_list<T: CachedTreeHash>(list: &Vec<T>) -> (bytes: Vec<u8>)
    ensures
        bytes@ == list_encoding(list@),
{
    let mut bytes: Vec<u8> = Vec::new();
    let mut i: usize = 0;
    while i < list.len()
        invariant
            i <= list@.len(),
            bytes@ == concat(encodings_of(list@).subrange(0, i as int)),
        decreases list@.len() - i,
    {
        proof {
            lemma_concat_push(encodings_of(list@), i as int);
        }
        let mut item_bytes = list[i].encode();
        bytes.append(&mut item_bytes);
        i += 1;
    }
    assert(encodings_of(list@).subrange(0, i as int) =~= encodings_of(list@));
    bytes
}

/// Number of raw bytes of a list: those of its items together.
pub fn list_num_bytes<T: CachedTreeHash>(list: &Vec<T>) -> (n: usize)
    requires
        list_encoding(list@).len() <= usize::MAX,
    ensures
        n == list_encoding(list@).len(),
{
    let mut total: usize = 0;
    let mut i: usize = 0;
    while i < list.len()
        invariant
            i <= list@.len(),
            list_encoding(list@).len() <= usize::MAX,
            total == part_start(encodings_of(list@), i as int),
        decreases list@.len() - i,
    {
        proof {
            lemma_concat_part(encodings_of(list@), i as int);
        }
        total = total + list[i].num_bytes();
        i += 1;
    }
    assert(encodings_of(list@).subrange(0, i as int) =~= encodings_of(list@));
    total
}

/// The raw bytes of the items of `vec` one after another, padded with zeros
/// to a power-of-two number of chunks: the leaves of a list of packed items.
pub fn build_vec_leaves<T: CachedTreeHash>(vec: &Vec<T>) -> (res: Result<Vec<u8>, Error>)
    requires
        padded_len(list_encoding(vec@).len()) <= usize::MAX,
    ensures
        res matches Ok(leaves) && leaves@ == pad_zeros(list_encoding(vec@)),
{
    let mut leaves = encode_list(vec);

    // Ensure the leaves are a power-of-two number of chunks
    pad_leaves(&mut leaves);

    Ok(leaves)
}

/// Number of bytes in the leaves of a list of packed items.
pub fn leaves_byte_len<T: CachedTreeHash>(vec: &Vec<T>) -> (len: usize)
    requires
        padded_len(list_encoding(vec@).len()) <= usize::MAX,
    ensures
        len == padded_len(list_encoding(vec@).len()),
{
    proof {
        lemma_pad_zeros(list_encoding(vec@));
    }
    let num_packed_bytes = list_num_bytes(vec);
    let num_leaves = num_sanitized_leaves(num_packed_bytes);
    num_leaves * 32
}

/// The lengths of a list's leaves in chunks.
pub fn list_offsets<T: CachedTreeHash>(list: &Vec<T>) -> (lengths: Vec<usize>)
    requires
        fits(list_tree(list@)),
    ensures
        lengths@ == list_leaf_lengths(list@),
{
    proof {
        lemma_list_shape(list@);
        lemma_list_layout(list@);
    }
    let offsets: Vec<usize> = match T::item_kind() {
        ItemKind::Packed => {
            let num_packed_bytes = list_num_bytes(list);
            let num_leaves = num_unsanitized_leaves(num_packed_bytes);
            vec![1; num_leaves]
        },
        ItemKind::Composite => {
            let mut lengths: Vec<usize> = Vec::new();
            let mut i: usize = 0;
            while i < list.len()
                invariant
                    i <= list@.len(),
                    T::spec_item_kind() == ItemKind::Composite,
                    fits(list_tree(list@)),
                    lengths@.len() == i,
                    forall|k: int|
                        0 <= k < i ==> #[trigger] lengths@[k] == chunks_of(list@[k].tree()),
                decreases list@.len() - i,
            {
                proof {
                    lemma_list_shape(list@);
                }
                lengths.push(list[i].num_child_nodes() + 1);
                i += 1;
            }
            lengths
        },
    };
    assert(offsets@ =~= list_leaf_lengths(list@));
    offsets
}

/// The overlay of a list's tree from chunk `offset` on.
pub fn list_overlay<T: CachedTreeHash>(list: &Vec<T>, offset: usize) -> (overlay: BTreeOverlay)
    requires
        fits(list_tree(list@)),
        offset + chunks_of(list_tree(list@)) <= usize::MAX,
    ensures
        overlay@ == OverlayView::from_lengths(offset as nat, list_leaf_lengths(list@)),
        overlay@.laid_out(),
        overlay@.offsets[0] == offset,
        overlay@.next_node == offset + chunks_of(list_tree(list@)),
        overlay@.num_leaf_nodes == next_pow2(list_leaf_lengths(list@).len()),
        T::spec_item_kind() == ItemKind::Packed ==> overlay@.next_node == offset
            + overlay@.total_nodes(),
{
    proof {
        lemma_list_shape(list@);
        lemma_list_layout(list@);
        lemma_padded_lengths(list_leaf_lengths(list@));
        crate::overlay::lemma_from_lengths_laid_out(offset as nat, list_leaf_lengths(list@));
        if T::spec_item_kind() == ItemKind::Packed {
            let all = padded_lengths(list_leaf_lengths(list@));
            lemma_sum_of_ones(all, all.len() as int);
        }
    }
    BTreeOverlay::with_lengths(offset, list_offsets(list))
}

/// Number of chunks in a list's tree below its root.
pub fn list_num_child_nodes<T: CachedTreeHash>(list: &Vec<T>) -> (n: usize)
    requires
        fits(list_tree(list@)),
    ensures
        n + 1 == chunks_of(list_tree(list@)),
{
    proof {
        lemma_list_shape(list@);
    }
    list_overlay(list, 0).next_node() - 1
}

/// Builds the whole tree of a list: hashes its leaves, mixes the number of
/// items into the root, and marks nothing as modified.
pub fn build_list<T: CachedTreeHash>(list: &Vec<T>) -> (res: Result<TreeHashCache, Error>)
    requires
        fits(list_tree(list@)),
    ensures
        res matches Ok(cache) && cache@ == CacheView::from_bytes(list_tree(list@)) && cache@.wf(),
{
    proof {
        lemma_list_shape(list@);
        lemma_list_layout(list@);
        lemma_pad_zeros(list_encoding(list@));
        lemma_pad_zeros(pad_zeros(list_encoding(list@)));
    }
    let mut cache = match T::item_kind() {
        ItemKind::Packed => {
            let leaves = match build_vec_leaves(list) {
                Ok(leaves) => leaves,
                Err(e) => {
                    return Err(e);
                },
            };
            let merkle_tree = match merkleize(leaves) {
                Ok(tree) => tree,
                Err(e) => {
                    return Err(e);
                },
            };
            match TreeHashCache::from_bytes(merkle_tree) {
                Ok(cache) => cache,
                Err(e) => {
                    return Err(e);
                },
            }
        },
        ItemKind::Composite => {
            let mut subtrees: Vec<TreeHashCache> = Vec::new();
            let mut i: usize = 0;
            while i < list.len()
                invariant
                    i <= list@.len(),
                    T::spec_item_kind() == ItemKind::Composite,
                    fits(list_tree(list@)),
                    subtrees@.len() == i,
                    forall|k: int|
                        0 <= k < i ==> (#[trigger] subtrees@[k])@.wf() && subtrees@[k]@.bytes
                            == list@[k].tree(),
                decreases list@.len() - i,
            {
                proof {
                    lemma_list_shape(list@);
                }
                let subtree = match TreeHashCache::new(&list[i]) {
                    Ok(subtree) => subtree,
                    Err(e) => {
                        return Err(e);
                    },
                };
                subtrees.push(subtree);
                i += 1;
            }
            proof {
                assert(cache_trees(subtrees@) =~= trees_of(list@));
                lemma_trees_of(list@);
            }
            let offset_handler = list_overlay(list, 0);
            match TreeHashCache::from_subtrees(&offset_handler, subtrees) {
                Ok(cache) => cache,
                Err(e) => {
                    return Err(e);
                },
            }
        },
    };
    assert(cache@.bytes == unmixed_tree(list@));
    match cache.mix_in_length(0, list.len()) {
        Ok(_) => {},
        Err(e) => {
            return Err(e);
        },
    }
    assert(cache@.bytes =~= list_tree(list@));
    TreeHashCache::from_bytes(cache.into_merkle_tree())
}

/// What an update in place has done to a cache, before the length is mixed
/// in: no flag and no byte but those of the tree has changed; a chunk of
/// the tree that is not marked as modified holds what it held; and if the
/// cache held the old tree below its root, it now holds the new tree
/// without the length in its root.
pub open spec fn in_place(
    before: CacheView,
    after: CacheView,
    offset: int,
    old_tree: Seq<u8>,
    new_unmixed: Seq<u8>,
) -> bool {
    &&& after.wf()
    &&& after.num_chunks() == before.num_chunks()
    &&& forall|c: int|
        0 <= c < before.num_chunks() && !(offset <= c < offset + chunks_of(new_unmixed))
            ==> #[trigger] after.modified[c] == before.modified[c]
    &&& same_around(
        before.bytes,
        after.bytes,
        offset,
        chunks_of(new_unmixed),
        chunks_of(new_unmixed),
    )
    &&& marks_cover_changes(before, after, offset, chunks_of(new_unmixed))
    &&& holds_below_root(before, offset, old_tree) ==> after.bytes == before.bytes.subrange(
        0,
        32 * offset,
    ) + new_unmixed + before.bytes.subrange(
        32 * offset + new_unmixed.len(),
        before.bytes.len() as int,
    )
}

/// Whether two lists of lengths are the same.
pub fn same_lengths(a: &Vec<usize>, b: &Vec<usize>) -> (same: bool)
    ensures
        same == (a@ == b@),
{
    if a.len() != b.len() {
        return false;
    }
    let mut i: usize = 0;
    while i < a.len()
        invariant
            i <= a@.len(),
            a@.len() == b@.len(),
            a@.subrange(0, i as int) == b@.subrange(0, i as int),
        decreases a@.len() - i,
    {
        if a[i] != b[i] {
            return false;
        }
        assert(a@.subrange(0, i + 1) =~= a@.subrange(0, i as int).push(a@[i as int]));
        assert(b@.subrange(0, i + 1) =~= b@.subrange(0, i as int).push(b@[i as int]));
        i += 1;
    }
    assert(a@ =~= a@.subrange(0, i as int));
    assert(b@ =~= b@.subrange(0, i as int));
    true
}

/// Lists whose leaves have the same lengths have trees of the same size.
pub proof fn lemma_same_shape<T: CachedTreeHash>(items: Seq<T>, others: Seq<T>)
    requires
        fits(list_tree(items)),
        fits(list_tree(others)),
        list_leaf_lengths(items) == list_leaf_lengths(others),
    ensures
        list_tree(items).len() == list_tree(others).len(),
        unmixed_tree(items).len() == unmixed_tree(others).len(),
        chunks_of(list_tree(items)) == chunks_of(list_tree(others)),
        chunks_of(unmixed_tree(items)) == chunks_of(list_tree(items)),
        list_tree(items).len() % 32 == 0,
        list_tree(items).len() >= 32,
{
    lemma_list_shape(items);
    lemma_list_shape(others);
    lemma_list_layout(items);
    lemma_list_layout(others);
}

/// Mixing the length into the root of a tree that lies in bytes makes the
/// bytes hold the tree with its length mixed in.
pub proof fn lemma_mixed_in_place(
    before: Seq<u8>,
    unmixed: CacheView,
    offset: int,
    plain: Seq<u8>,
    length: u64,
)
    requires
        0 <= offset,
        plain.len() >= 32,
        plain.len() % 32 == 0,
        unmixed.wf(),
        unmixed.bytes.len() == before.len(),
        32 * offset + plain.len() <= before.len(),
        unmixed.bytes == before.subrange(0, 32 * offset) + plain + before.subrange(
            32 * offset + plain.len(),
            before.len() as int,
        ),
    ensures
        unmixed.mix_in_length(offset, length).bytes == before.subrange(0, 32 * offset) + mix_root(
            plain,
            length,
        ) + before.subrange(32 * offset + plain.len(), before.len() as int),
{
    assert(unmixed.chunk(offset) =~= plain.subrange(0, 32));
    assert(unmixed.mix_in_length(offset, length).bytes =~= before.subrange(0, 32 * offset)
        + mix_root(plain, length) + before.subrange(
        32 * offset + plain.len(),
        before.len() as int,
    ));
}

/// Updates in place the tree of a list whose leaves are as many as before
/// and take as many chunks each: brings the leaves and the nodes above them
/// up to date, and mixes the length into the new root.
pub fn update_list_in_place<T: CachedTreeHash>(
    list: &Vec<T>,
    other: &Vec<T>,
    cache: &mut TreeHashCache,
    cache_offset: usize,
) -> (res: Result<(), Error>)
    requires
        old(cache)@.wf(),
        fits(list_tree(list@)),
        fits(list_tree(other@)),
        !list.eq_spec(other),
        list_leaf_lengths(list@) == list_leaf_lengths(other@),
        cache_offset + chunks_of(list_tree(list@)) <= old(cache)@.num_chunks(),
    ensures
        res is Ok,
        final(cache)@.wf(),
        updated(
            old(cache)@,
            final(cache)@,
            cache_offset as int,
            list_tree(other@),
            list_tree(list@),
        ),
{
    let ghost before = cache@;
    proof {
        lemma_same_shape(list@, other@);
    }
    let cache_len = cache.bytes_len();
    let overlay = list_overlay(list, cache_offset);
    let updated_in_place = match T::item_kind() {
        ItemKind::Packed => update_packed_in_place(list, other, cache, &overlay, cache_offset),
        ItemKind::Composite => update_composite_in_place(
            list,
            other,
            cache,
            &overlay,
            cache_offset,
        ),
    };
    match updated_in_place {
        Ok(_) => {},
        Err(e) => {
            return Err(e);
        },
    }
    let ghost unmixed = cache@;
    match cache.mix_in_length(overlay.root(), list.len()) {
        Ok(_) => {},
        Err(e) => {
            return Err(e);
        },
    }
    proof {
        let after = cache@;
        let offset = cache_offset as int;
        let new_tree = list_tree(list@);
        let old_tree = list_tree(other@);
        let total = chunks_of(new_tree);
        let mixed = unmixed.mixed_chunk(offset, list@.len() as u64);
        crate::cache::lemma_splice_one_chunk(unmixed, offset, mixed);
        assert forall|c: int| 0 <= c < offset implies after.modified[c] == before.modified[c] by {
            assert(unmixed.modified[c] == before.modified[c]);
        }
        assert(after.modified.subrange(0, offset) =~= before.modified.subrange(0, offset));
        assert forall|c: int| offset + total <= c < before.num_chunks() implies after.modified[c]
            == before.modified[c] by {
            assert(unmixed.modified[c] == before.modified[c]);
        }
        assert(after.modified.subrange(offset + total, after.modified.len() as int)
            =~= before.modified.subrange(offset + total, before.modified.len() as int));
        assert forall|c: int| offset <= c < offset + total && !after.modified[c] implies c
            < before.num_chunks() && #[trigger] after.chunk(c) == before.chunk(c) by {
            assert(c != offset);
            assert(after.chunk(c) == unmixed.chunk(c));
            assert(unmixed.chunk(c) == before.chunk(c));
        }
        assert(after.bytes.subrange(0, 32 * offset) =~= unmixed.bytes.subrange(0, 32 * offset));
        assert(after.bytes.subrange(32 * (offset + total), after.bytes.len() as int)
            =~= unmixed.bytes.subrange(32 * (offset + total), unmixed.bytes.len() as int));
        if holds_below_root(before, offset, old_tree) {
            lemma_mixed_in_place(
                before.bytes,
                unmixed,
                offset,
                unmixed_tree(list@),
                list@.len() as u64,
            );
        }
    }
    Ok(())
}

/// Brings a cache from the tree of the list `other` to that of the list
/// `list`, as `CachedTreeHash::update_cache` asks.
///
/// Lists that are equal leave the cache alone. Where a leaf has come or
/// gone, or takes more or fewer chunks than before, the shape of the tree
/// has changed: the tree is built anew and takes the place of the old one.
/// Otherwise the tree is updated in place: the leaves that have changed are
/// written, or updated in their turn where they are trees, the nodes above
/// them are rehashed, and the length is mixed into the new root.
pub fn update_list<T: CachedTreeHash>(
    list: &Vec<T>,
    other: &Vec<T>,
    cache: &mut TreeHashCache,
    cache_offset: usize,
) -> (res: Result<usize, Error>)
    requires
        old(cache)@.wf(),
        fits(list_tree(list@)),
        fits(list_tree(other@)),
        cache_offset + chunks_of(list_tree(list@)) <= usize::MAX,
        cache_offset + chunks_of(list_tree(other@)) <= usize::MAX,
    ensures
        final(cache)@.wf(),
        list.eq_spec(other) ==> res == Ok::<usize, Error>(
            (cache_offset + chunks_of(list_tree(list@))) as usize,
        ) && final(cache)@ == old(cache)@,
        !list.eq_spec(other) ==> match res {
            Ok(next) => {
                &&& cache_offset + chunks_of(list_tree(other@)) <= old(cache)@.num_chunks()
                &&& next == cache_offset + chunks_of(list_tree(list@))
                &&& updated(
                    old(cache)@,
                    final(cache)@,
                    cache_offset as int,
                    list_tree(other@),
                    list_tree(list@),
                )
            },
            Err(e) => {
                &&& cache_offset + chunks_of(list_tree(other@)) > old(cache)@.num_chunks()
                &&& e == Error::NoBytesForChunk(
                    (cache_offset + chunks_of(list_tree(other@)) - 1) as usize,
                )
                &&& final(cache)@ == old(cache)@
            },
        },
{
    let ghost before = cache@;
    proof {
        lemma_list_shape(list@);
        lemma_list_shape(other@);
        lemma_equal_lists(list, other);
    }
    let new_chunks = list_num_child_nodes(list) + 1;
    if *list == *other {
        return Ok(cache_offset + new_chunks);
    }
    let old_chunks = list_num_child_nodes(other) + 1;
    if old_chunks > cache.bytes_len() / 32 || cache_offset > cache.bytes_len() / 32 - old_chunks {
        return Err(Error::NoBytesForChunk(cache_offset + old_chunks - 1));
    }
    let new_lengths = list_offsets(list);
    let old_lengths = list_offsets(other);
    if same_lengths(&new_lengths, &old_lengths) {
        proof {
            lemma_same_shape(list@, other@);
        }
        match update_list_in_place(list, other, cache, cache_offset) {
            Ok(_) => {},
            Err(e) => {
                return Err(e);
            },
        }
    } else {
        // The shape of the tree has changed: build it anew.
        let rebuilt = match build_list(list) {
            Ok(rebuilt) => rebuilt,
            Err(e) => {
                return Err(e);
            },
        };
        cache.chunk_splice(cache_offset..cache_offset + old_chunks, rebuilt.into_merkle_tree());
        proof {
            let after = cache@;
            assert(after.modified.subrange(0, cache_offset as int) =~= before.modified.subrange(
                0,
                cache_offset as int,
            ));
            assert(after.modified.subrange(cache_offset + new_chunks, after.modified.len() as int)
                =~= before.modified.subrange(
                cache_offset + old_chunks,
                before.modified.len() as int,
            ));
            assert forall|c: int|
                cache_offset <= c < cache_offset + new_chunks implies #[trigger] after.modified[c] by {
                assert(after.modified[c] == crate::cache::flags(new_chunks as nat, true)[c
                    - cache_offset]);
            }
            assert(after.bytes.subrange(0, 32 * cache_offset) =~= before.bytes.subrange(
                0,
                32 * cache_offset,
            ));
            assert(after.bytes.subrange(
                32 * (cache_offset + new_chunks),
                after.bytes.len() as int,
            ) =~= before.bytes.subrange(
                32 * (cache_offset + old_chunks),
                before.bytes.len() as int,
            ));
        }
    }
    Ok(cache_offset + new_chunks)
}

impl<T: CachedTreeHash> CachedTreeHash for Vec<T> {
    open spec fn spec_item_kind() -> ItemKind {
        ItemKind::Composite
    }

    open spec fn encoding(&self) -> Seq<u8> {
        list_encoding(self@)
    }

    open spec fn tree(&self) -> Seq<u8> {
        list_tree(self@)
    }

    open spec fn leaf_lengths(&self) -> Option<Seq<usize>> {
        Some(list_leaf_lengths(self@))
    }

    open spec fn packable_len(&self) -> nat {
        32
    }

    open spec fn spec_packing_factor() -> nat {
        1
    }

    proof fn lemma_tree_shape(&self) {
        lemma_list_shape(self@);
        assert(self.encoding() == list_encoding(self@));
        assert(self.tree() == list_tree(self@));
    }

    proof fn lemma_equal_values(&self, other: &Self) {
        lemma_equal_lists(self, other);
    }

    fn item_kind() -> (kind: ItemKind) {
        ItemKind::Composite
    }

    fn packing_factor() -> (factor: usize) {
        1
    }

    fn encode(&self) -> (bytes: Vec<u8>) {
        encode_list(self)
    }

    fn build_tree_hash_cache(&self) -> (res: Result<TreeHashCache, Error>) {
        build_list(self)
    }

    fn num_bytes(&self) -> (n: usize) {
        list_num_bytes(self)
    }

    fn offsets(&self) -> (res: Result<Vec<usize>, Error>) {
        Ok(list_offsets(self))
    }

    fn num_packable_bytes(&self) -> (n: usize) {
        32
    }

    fn num_child_nodes(&self) -> (n: usize) {
        list_num_child_nodes(self)
    }

    fn update_cache(&self, other: &Self, cache: &mut TreeHashCache, cache_offset: usize) -> (res:
        Result<usize, Error>) {
        update_list(self, other, cache, cache_offset)
    }
}

} // verus!
