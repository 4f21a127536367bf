//! Updating in place the tree of a list whose items have trees of their own.

use vstd::prelude::*;
use vstd::std_specs::cmp::PartialEqSpec;
use crate::cache::{CacheView, TreeHashCache};
use crate::error::Error;
use crate::list::{
    in_place, lemma_list_layout, lemma_list_shape, lemma_same_shape, lemma_sum_of_trees,
    lemma_trees_of, list_leaf_lengths, list_tree, trees_of, unmixed_tree,
};
use crate::merkle::{
    chunk_at, lemma_pad_zeros, lemma_padding_chunk, merkle_tree, pad_zeros, tree_node,
};
use crate::overlay::{lemma_padded_lengths, padded_lengths, sum_lengths, BTreeOverlay, OverlayView};
use crate::pow2::{lemma_next_pow2_bounds, next_pow2};
use crate::subtrees::{
    concat, first_leaf_byte, lemma_assemble_len, lemma_concat_part, lemma_concat_push,
    lemma_roots_len, part_start,
};
use crate::tree_hash::{
    chunks_of, fits, holds_below_root, marks_cover_changes, replaced, same_around, updated,
    CachedTreeHash, ItemKind,
};
use crate::update::{
    is_internal_chunk, lemma_rehashed_node, node_rehashed, rehash_internal_nodes, rehashed,
};

verus! {

/// Where the tree of item `i` lies in the tree of a list of composite
/// items that starts at chunk `offset`, and that it lies within it. Lists
/// whose leaves have the same lengths have their items' trees at the same
/// places.
pub proof fn lemma_item_position<T: CachedTreeHash>(
    items: Seq<T>,
    others: Seq<T>,
    offset: nat,
    i: int,
)
    requires
        T::spec_item_kind() == ItemKind::Composite,
        fits(list_tree(items)),
        fits(list_tree(others)),
        list_leaf_lengths(items) == list_leaf_lengths(others),
        0 <= i < items.len(),
    ensures
        items.len() == others.len(),
        OverlayView::from_lengths(offset, list_leaf_lengths(items)).num_leaf_nodes == next_pow2(
            items.len(),
        ),
        32 * OverlayView::from_lengths(offset, list_leaf_lengths(items)).leaf(i)
            == first_leaf_byte(offset as int, items.len()) + part_start(trees_of(items), i),
        part_start(trees_of(others), i) == part_start(trees_of(items), i),
        part_start(trees_of(others), i + 1) == part_start(trees_of(items), i + 1),
        part_start(trees_of(items), i + 1) == part_start(trees_of(items), i) + items[i].tree().len(),
        items[i].tree().len() == others[i].tree().len(),
        items[i].tree().len() % 32 == 0,
        items[i].tree().len() >= 32,
        trees_of(items)[i] == items[i].tree(),
        trees_of(others)[i] == others[i].tree(),
        first_leaf_byte(offset as int, items.len()) + part_start(trees_of(items), i + 1) <= 32
            * offset + list_tree(items).len(),
        fits(items[i].tree()),
        fits(others[i].tree()),
{
    lemma_list_shape(items);
    lemma_list_shape(others);
    lemma_list_layout(items);
    lemma_list_layout(others);
    lemma_trees_of(items);
    lemma_trees_of(others);
    lemma_padded_lengths(list_leaf_lengths(items));
    lemma_next_pow2_bounds(items.len());
    lemma_concat_part(trees_of(items), i);
    lemma_concat_part(trees_of(others), i);
    let all = padded_lengths(list_leaf_lengths(items));
    assert(32 * sum_lengths(all, i) == part_start(trees_of(items), i));
    assert(32 * sum_lengths(all, i) == part_start(trees_of(others), i));
    assert(32 * sum_lengths(all, i + 1) == part_start(trees_of(items), i + 1));
    assert(32 * sum_lengths(all, i + 1) == part_start(trees_of(others), i + 1));
    assert(list_leaf_lengths(items)[i] == chunks_of(items[i].tree()));
    assert(list_leaf_lengths(others)[i] == chunks_of(others[i].tree()));
    assert(trees_of(items)[i].len() % 32 == 0);
    assert(trees_of(others)[i].len() % 32 == 0);
}

/// Lists of one item each that differ differ in that item.
pub proof fn lemma_single_items_differ<T: CachedTreeHash>(list: &Vec<T>, other: &Vec<T>)
    requires
        list@.len() == 1,
        other@.len() == 1,
        !list.eq_spec(other),
    ensures
        !list@[0].eq_spec(&other@[0]),
{
    if list@[0].eq_spec(&other@[0]) {
        assert forall|i: int| 0 <= i < list.len() implies #[trigger] list[i].eq_spec(&other[i]) by {
            assert(i == 0);
        }
        assert(list.eq_spec(other));
    }
}

/// The flags of a cache in which the trees of the first `done` items of a
/// list are in place: only flags within those trees have changed, and the
/// root of each tree that has changed is marked as modified.
#[verifier::opaque]
pub open spec fn item_flags_in_place<T: CachedTreeHash>(
    list: &Vec<T>,
    other: &Vec<T>,
    before: CacheView,
    now: CacheView,
    offset: int,
    done: int,
) -> bool {
    let trees = trees_of(list@);
    let first = first_leaf_byte(offset, list@.len());
    let ov = OverlayView::from_lengths(offset as nat, list_leaf_lengths(list@));
    &&& forall|c: int|
        0 <= c < before.num_chunks() && !(first <= 32 * c < first + part_start(trees, done))
            ==> #[trigger] now.modified[c] == before.modified[c]
    &&& forall|j: int|
        0 <= j < done && !list@[j].eq_spec(&other@[j]) ==> now.modified[#[trigger] ov.leaf(j) as int]
}

/// The bytes of a cache in which the trees of the first `done` items of a
/// list are in place: if the cache held the old tree of the list below its
/// root, it holds the new trees of those items where the old ones were.
#[verifier::opaque]
pub open spec fn item_bytes_in_place<T: CachedTreeHash>(
    list: &Vec<T>,
    other: &Vec<T>,
    before: CacheView,
    now: CacheView,
    offset: int,
    done: int,
) -> bool {
    let trees = trees_of(list@);
    let first = first_leaf_byte(offset, list@.len());
    holds_below_root(before, offset, list_tree(other@)) ==> now.bytes == before.bytes.subrange(
        0,
        first,
    ) + concat(trees.subrange(0, done)) + before.bytes.subrange(
        first + part_start(trees, done),
        before.bytes.len() as int,
    )
}

/// The bytes around the trees of the first `done` items of a list, in a
/// cache in which those trees are in place: whatever the cache held, the
/// bytes before the first leaf and those behind the trees are as they were.
#[verifier::opaque]
pub open spec fn item_frame_in_place<T: CachedTreeHash>(
    list: &Vec<T>,
    before: CacheView,
    now: CacheView,
    offset: int,
    done: int,
) -> bool {
    let trees = trees_of(list@);
    let first = first_leaf_byte(offset, list@.len());
    &&& now.bytes.subrange(0, first) == before.bytes.subrange(0, first)
    &&& now.bytes.subrange(first + part_start(trees, done), now.bytes.len() as int)
        == before.bytes.subrange(first + part_start(trees, done), before.bytes.len() as int)
}

/// The marks on the trees of the first `done` items of a list, in a cache
/// in which those trees are in place: a chunk of them that is not marked
/// as modified holds what the cache held there before.
#[verifier::opaque]
pub open spec fn item_marks_in_place<T: CachedTreeHash>(
    list: &Vec<T>,
    before: CacheView,
    now: CacheView,
    offset: int,
    done: int,
) -> bool {
    let trees = trees_of(list@);
    let first = first_leaf_byte(offset, list@.len());
    forall|c: int|
        first <= 32 * c < first + part_start(trees, done) && !now.modified[c]
            ==> #[trigger] now.chunk(c) == before.chunk(c)
}

/// How far an update in place of a list of composite items has come when
/// the trees of the first `done` items are in place.
pub open spec fn items_in_place<T: CachedTreeHash>(
    list: &Vec<T>,
    other: &Vec<T>,
    before: CacheView,
    now: CacheView,
    offset: int,
    done: int,
) -> bool {
    &&& now.wf()
    &&& now.num_chunks() == before.num_chunks()
    &&& item_flags_in_place(list, other, before, now, offset, done)
    &&& item_bytes_in_place(list, other, before, now, offset, done)
    &&& item_frame_in_place(list, before, now, offset, done)
    &&& item_marks_in_place(list, before, now, offset, done)
}

/// What an update in place of a list of composite items starts from and
/// relies on throughout.
pub open spec fn composite_update<T: CachedTreeHash>(
    list: &Vec<T>,
    other: &Vec<T>,
    before: CacheView,
    offset: int,
) -> bool {
    let ov = OverlayView::from_lengths(offset as nat, list_leaf_lengths(list@));
    &&& T::spec_item_kind() == ItemKind::Composite
    &&& fits(list_tree(list@))
    &&& fits(list_tree(other@))
    &&& !list.eq_spec(other)
    &&& list_leaf_lengths(list@) == list_leaf_lengths(other@)
    &&& 0 <= offset
    &&& ov.next_node == offset + chunks_of(list_tree(list@))
    &&& ov.next_node <= before.num_chunks()
    &&& before.wf()
}

/// Before any item is updated, none has to be in place.
pub proof fn lemma_items_start<T: CachedTreeHash>(
    list: &Vec<T>,
    other: &Vec<T>,
    before: CacheView,
    offset: int,
)
    requires
        composite_update(list, other, before, offset),
    ensures
        items_in_place(list, other, before, before, offset, 0),
        list@.len() == other@.len(),
        list@.len() >= 1,
        list@.len() <= next_pow2(list@.len()),
        OverlayView::from_lengths(offset as nat, list_leaf_lengths(list@)).num_leaf_nodes
            == next_pow2(list@.len()),
{
    reveal(item_flags_in_place);
    reveal(item_bytes_in_place);
    reveal(item_frame_in_place);
    reveal(item_marks_in_place);
    let trees = trees_of(list@);
    let first = first_leaf_byte(offset, list@.len());
    lemma_list_shape(list@);
    lemma_list_layout(list@);
    lemma_next_pow2_bounds(list@.len());
    lemma_padded_lengths(list_leaf_lengths(list@));
    assert(list_leaf_lengths(list@).len() == list@.len());
    assert(list_leaf_lengths(other@).len() == other@.len());
    assert(trees.subrange(0, 0) =~= Seq::<Seq<u8>>::empty());
    assert(before.bytes =~= before.bytes.subrange(0, first) + concat(trees.subrange(0, 0))
        + before.bytes.subrange(first, before.bytes.len() as int));
    if list@.len() == 0 {
        assert forall|k: int| 0 <= k < list.len() implies #[trigger] list[k].eq_spec(&other[k]) by {}
        assert(list.eq_spec(other));
    }
}

/// What the update of item `i` may rely on: where the tree of the item
/// lies, that it lies within the cache, and that the cache holds the old
/// tree of the item there, below its root, if it held the old tree of the
/// list.
#[verifier::rlimit(40)]
pub proof fn lemma_item_ready<T: CachedTreeHash>(
    list: &Vec<T>,
    other: &Vec<T>,
    before: CacheView,
    now: CacheView,
    offset: int,
    i: int,
)
    requires
        composite_update(list, other, before, offset),
        items_in_place(list, other, before, now, offset, i),
        0 <= i < list@.len(),
    ensures
        now.wf(),
        i < other@.len(),
        fits(list@[i].tree()),
        fits(other@[i].tree()),
        chunks_of(list@[i].tree()) == chunks_of(other@[i].tree()),
        OverlayView::from_lengths(offset as nat, list_leaf_lengths(list@)).leaf(i) + chunks_of(
            other@[i].tree(),
        ) <= now.num_chunks(),
        holds_below_root(before, offset, list_tree(other@)) ==> holds_below_root(
            now,
            OverlayView::from_lengths(offset as nat, list_leaf_lengths(list@)).leaf(i) as int,
            other@[i].tree(),
        ),
{
    reveal(item_bytes_in_place);
    let trees = trees_of(list@);
    let old_trees = trees_of(other@);
    let first = first_leaf_byte(offset, list@.len());
    let ov = OverlayView::from_lengths(offset as nat, list_leaf_lengths(list@));
    let leaf = ov.leaf(i) as int;
    let start = part_start(trees, i);
    let len = list@[i].tree().len() as int;
    lemma_item_position(list@, other@, offset as nat, i);
    lemma_list_shape(list@);
    lemma_list_shape(other@);
    lemma_trees_of(other@);
    if holds_below_root(before, offset, list_tree(other@)) {
        crate::subtrees::lemma_holds_unmixed(
            before.bytes,
            offset,
            unmixed_tree(other@),
            other@.len() as u64,
        );
        crate::subtrees::lemma_holds_subtree(before.bytes, offset, old_trees, i, 32);
        assert(now.bytes.subrange(32 * (leaf + 1), 32 * leaf + len) =~= before.bytes.subrange(
            first + start + 32,
            first + start + len,
        ));
    }
}

/// Once the tree of item `i`, which has changed, is updated, the flags are
/// those of a cache with the trees of the first `i + 1` items in place.
pub proof fn lemma_item_updated_flags<T: CachedTreeHash>(
    list: &Vec<T>,
    other: &Vec<T>,
    before: CacheView,
    here: CacheView,
    now: CacheView,
    offset: int,
    i: int,
)
    requires
        composite_update(list, other, before, offset),
        items_in_place(list, other, before, here, offset, i),
        0 <= i < list@.len(),
        i < other@.len(),
        now.wf(),
        updated(
            here,
            now,
            OverlayView::from_lengths(offset as nat, list_leaf_lengths(list@)).leaf(i) as int,
            other@[i].tree(),
            list@[i].tree(),
        ),
    ensures
        item_flags_in_place(list, other, before, now, offset, i + 1),
        now.num_chunks() == before.num_chunks(),
{
    reveal(item_flags_in_place);
    lemma_item_position(list@, other@, offset as nat, i);
    lemma_padded_lengths(list_leaf_lengths(list@));
    let trees = trees_of(list@);
    let first = first_leaf_byte(offset, list@.len());
    let ov = OverlayView::from_lengths(offset as nat, list_leaf_lengths(list@));
    let leaf = ov.leaf(i) as int;
    let end = part_start(trees, i + 1);
    let len = list@[i].tree().len() as int;
    assert(32 * leaf == first + part_start(trees, i));
    assert forall|c: int|
        0 <= c < before.num_chunks() && !(first <= 32 * c < first + end) implies (#[trigger] now.modified[c])
        == before.modified[c] by {
        if c < leaf {
            assert(now.modified.subrange(0, leaf)[c] == here.modified.subrange(0, leaf)[c]);
        } else {
            let behind = leaf + len / 32;
            assert(now.modified.subrange(behind, now.modified.len() as int)[c - behind]
                == here.modified.subrange(behind, here.modified.len() as int)[c - behind]);
        }
    }
    assert forall|j: int| 0 <= j < i + 1 && !list@[j].eq_spec(&other@[j]) implies now.modified[
    #[trigger] ov.leaf(j) as int] by {
        if j < i {
            let at = ov.leaf(j) as int;
            assert(0 <= at < leaf) by {
                lemma_item_position(list@, other@, offset as nat, j);
                crate::subtrees::lemma_part_start_monotone(trees, j + 1, i);
                lemma_next_pow2_bounds(list@.len());
            }
            assert(now.modified.subrange(0, leaf)[at] == here.modified.subrange(0, leaf)[at]);
        }
    }
}

/// Bytes in which one stretch after another has given way to new bytes of
/// the same length hold the new bytes one after another.
pub proof fn lemma_replaced_next(
    before: Seq<u8>,
    here: Seq<u8>,
    now: Seq<u8>,
    first: int,
    done: Seq<u8>,
    old_tree: Seq<u8>,
    new_tree: Seq<u8>,
)
    requires
        0 <= first,
        first % 32 == 0,
        done.len() % 32 == 0,
        old_tree.len() == new_tree.len(),
        new_tree.len() % 32 == 0,
        first + done.len() + new_tree.len() <= before.len(),
        here == before.subrange(0, first) + done + before.subrange(
            first + done.len(),
            before.len() as int,
        ),
        now == replaced(here, (first + done.len()) / 32, old_tree, new_tree),
    ensures
        now == before.subrange(0, first) + (done + new_tree) + before.subrange(
            first + done.len() + new_tree.len(),
            before.len() as int,
        ),
{
    let at = (first + done.len()) / 32;
    assert(32 * at == first + done.len());
    assert(32 * (at + chunks_of(old_tree)) == first + done.len() + new_tree.len());
    assert(now =~= before.subrange(0, first) + (done + new_tree) + before.subrange(
        first + done.len() + new_tree.len(),
        before.len() as int,
    ));
}

/// Once the tree of item `i` has given way to its new tree, the bytes are
/// those of a cache with the trees of the first `i + 1` items in place.
pub proof fn lemma_item_updated_bytes<T: CachedTreeHash>(
    list: &Vec<T>,
    other: &Vec<T>,
    before: CacheView,
    here: CacheView,
    now: CacheView,
    offset: int,
    i: int,
)
    requires
        T::spec_item_kind() == ItemKind::Composite,
        fits(list_tree(list@)),
        fits(list_tree(other@)),
        list_leaf_lengths(list@) == list_leaf_lengths(other@),
        0 <= offset,
        0 <= i < list@.len(),
        32 * offset + list_tree(list@).len() <= before.bytes.len(),
        item_bytes_in_place(list, other, before, here, offset, i),
        holds_below_root(before, offset, list_tree(other@)) ==> now.bytes == replaced(
            here.bytes,
            OverlayView::from_lengths(offset as nat, list_leaf_lengths(list@)).leaf(i) as int,
            other@[i].tree(),
            list@[i].tree(),
        ),
    ensures
        item_bytes_in_place(list, other, before, now, offset, i + 1),
{
    let trees = trees_of(list@);
    let first = first_leaf_byte(offset, list@.len());
    let leaf = OverlayView::from_lengths(offset as nat, list_leaf_lengths(list@)).leaf(i) as int;
    let start = part_start(trees, i);
    let end = part_start(trees, i + 1);
    let done = concat(trees.subrange(0, i));
    let old_tree = other@[i].tree();
    let new_tree = list@[i].tree();
    if holds_below_root(before, offset, list_tree(other@)) {
        assert(here.bytes == before.bytes.subrange(0, first) + done + before.bytes.subrange(
            first + start,
            before.bytes.len() as int,
        )) by {
            reveal(item_bytes_in_place);
        }
        assert(32 * leaf == first + start && end == start + new_tree.len() && old_tree.len()
            == new_tree.len() && new_tree.len() % 32 == 0 && first + end <= before.bytes.len()
            && trees[i] == new_tree) by {
            lemma_item_position(list@, other@, offset as nat, i);
        }
        assert(concat(trees.subrange(0, i + 1)) == done + new_tree) by {
            lemma_concat_push(trees, i);
        }
        assert(first % 32 == 0 && 0 <= first) by {
            lemma_next_pow2_bounds(list@.len());
        }
        assert(done.len() == start);
        assert(leaf == (first + done.len()) / 32);
        lemma_replaced_next(before.bytes, here.bytes, now.bytes, first, done, old_tree, new_tree);
    }
    assert(item_bytes_in_place(list, other, before, now, offset, i + 1)) by {
        reveal(item_bytes_in_place);
    }
}

/// Bytes that are as they were before a place and from it on, and that then
/// change only between that place and a later one, are as they were before
/// the first place and from the later one on.
pub proof fn lemma_frame_next(
    before: Seq<u8>,
    here: Seq<u8>,
    now: Seq<u8>,
    first: int,
    start: int,
    end: int,
)
    requires
        0 <= first <= start <= end <= before.len(),
        here.len() == before.len(),
        now.len() == before.len(),
        here.subrange(0, first) == before.subrange(0, first),
        here.subrange(start, here.len() as int) == before.subrange(start, before.len() as int),
        now.subrange(0, start) == here.subrange(0, start),
        now.subrange(end, now.len() as int) == here.subrange(end, here.len() as int),
    ensures
        now.subrange(0, first) == before.subrange(0, first),
        now.subrange(end, now.len() as int) == before.subrange(end, before.len() as int),
{
    assert forall|k: int| 0 <= k < first implies now[k] == before[k] by {
        assert(now.subrange(0, start)[k] == now[k]);
        assert(here.subrange(0, start)[k] == here[k]);
        assert(here.subrange(0, first)[k] == here[k]);
        assert(before.subrange(0, first)[k] == before[k]);
    }
    assert(now.subrange(0, first) =~= before.subrange(0, first));
    assert forall|k: int| end <= k < before.len() implies now[k] == before[k] by {
        assert(now.subrange(end, now.len() as int)[k - end] == now[k]);
        assert(here.subrange(end, here.len() as int)[k - end] == here[k]);
        assert(here.subrange(start, here.len() as int)[k - start] == here[k]);
        assert(before.subrange(start, before.len() as int)[k - start] == before[k]);
    }
    assert(now.subrange(end, now.len() as int) =~= before.subrange(end, before.len() as int));
}

/// Once the tree of item `i`, which has changed, is updated, the bytes
/// around the trees of the first `i + 1` items are as they were.
pub proof fn lemma_item_updated_frame<T: CachedTreeHash>(
    list: &Vec<T>,
    other: &Vec<T>,
    before: CacheView,
    here: CacheView,
    now: CacheView,
    offset: int,
    i: int,
)
    requires
        T::spec_item_kind() == ItemKind::Composite,
        fits(list_tree(list@)),
        fits(list_tree(other@)),
        list_leaf_lengths(list@) == list_leaf_lengths(other@),
        0 <= offset,
        0 <= i < list@.len(),
        32 * offset + list_tree(list@).len() <= before.bytes.len(),
        here.bytes.len() == before.bytes.len(),
        now.bytes.len() == before.bytes.len(),
        item_frame_in_place(list, before, here, offset, i),
        same_around(
            here.bytes,
            now.bytes,
            OverlayView::from_lengths(offset as nat, list_leaf_lengths(list@)).leaf(i) as int,
            chunks_of(other@[i].tree()),
            chunks_of(list@[i].tree()),
        ),
    ensures
        item_frame_in_place(list, before, now, offset, i + 1),
{
    reveal(item_frame_in_place);
    let trees = trees_of(list@);
    let first = first_leaf_byte(offset, list@.len());
    let start = part_start(trees, i);
    let end = part_start(trees, i + 1);
    lemma_item_position(list@, other@, offset as nat, i);
    lemma_next_pow2_bounds(list@.len());
    crate::subtrees::lemma_part_start_monotone(trees, 0, i);
    assert(trees.subrange(0, 0) =~= Seq::<Seq<u8>>::empty());
    lemma_frame_next(before.bytes, here.bytes, now.bytes, first, first + start, first + end);
}

/// Where item `i` has not changed, the bytes around the trees of the first
/// `i + 1` items are as they were.
pub proof fn lemma_item_frame_kept<T: CachedTreeHash>(
    list: &Vec<T>,
    other: &Vec<T>,
    before: CacheView,
    now: CacheView,
    offset: int,
    i: int,
)
    requires
        T::spec_item_kind() == ItemKind::Composite,
        fits(list_tree(list@)),
        fits(list_tree(other@)),
        list_leaf_lengths(list@) == list_leaf_lengths(other@),
        0 <= offset,
        0 <= i < list@.len(),
        32 * offset + list_tree(list@).len() <= before.bytes.len(),
        now.bytes.len() == before.bytes.len(),
        item_frame_in_place(list, before, now, offset, i),
    ensures
        item_frame_in_place(list, before, now, offset, i + 1),
{
    reveal(item_frame_in_place);
    let trees = trees_of(list@);
    let first = first_leaf_byte(offset, list@.len());
    let start = first + part_start(trees, i);
    let end = first + part_start(trees, i + 1);
    lemma_item_position(list@, other@, offset as nat, i);
    lemma_next_pow2_bounds(list@.len());
    crate::subtrees::lemma_part_start_monotone(trees, 0, i);
    assert(trees.subrange(0, 0) =~= Seq::<Seq<u8>>::empty());
    let len = before.bytes.len() as int;
    assert forall|k: int| end <= k < len implies now.bytes[k] == before.bytes[k] by {
        assert(now.bytes.subrange(start, len)[k - start] == now.bytes[k]);
        assert(before.bytes.subrange(start, len)[k - start] == before.bytes[k]);
    }
    assert(now.bytes.subrange(end, len) =~= before.bytes.subrange(end, len));
}

/// Once the tree of item `i`, which has changed, is updated, the marks on
/// the trees of the first `i + 1` items cover what has changed in them.
pub proof fn lemma_item_updated_marks<T: CachedTreeHash>(
    list: &Vec<T>,
    other: &Vec<T>,
    before: CacheView,
    here: CacheView,
    now: CacheView,
    offset: int,
    i: int,
)
    requires
        T::spec_item_kind() == ItemKind::Composite,
        fits(list_tree(list@)),
        fits(list_tree(other@)),
        list_leaf_lengths(list@) == list_leaf_lengths(other@),
        0 <= offset,
        0 <= i < list@.len(),
        32 * offset + list_tree(list@).len() <= before.bytes.len(),
        before.wf(),
        here.wf(),
        now.wf(),
        here.num_chunks() == before.num_chunks(),
        now.num_chunks() == before.num_chunks(),
        item_marks_in_place(list, before, here, offset, i),
        item_frame_in_place(list, before, here, offset, i),
        updated(
            here,
            now,
            OverlayView::from_lengths(offset as nat, list_leaf_lengths(list@)).leaf(i) as int,
            other@[i].tree(),
            list@[i].tree(),
        ),
    ensures
        item_marks_in_place(list, before, now, offset, i + 1),
{
    reveal(item_marks_in_place);
    reveal(item_frame_in_place);
    let trees = trees_of(list@);
    let first = first_leaf_byte(offset, list@.len());
    let leaf = OverlayView::from_lengths(offset as nat, list_leaf_lengths(list@)).leaf(i) as int;
    let start = first + part_start(trees, i);
    let end = first + part_start(trees, i + 1);
    let len = before.bytes.len() as int;
    lemma_item_position(list@, other@, offset as nat, i);
    lemma_next_pow2_bounds(list@.len());
    crate::subtrees::lemma_part_start_monotone(trees, 0, i);
    assert(trees.subrange(0, 0) =~= Seq::<Seq<u8>>::empty());
    assert(32 * leaf == start);
    assert forall|c: int| first <= 32 * c < end && !now.modified[c] implies #[trigger] now.chunk(
        c,
    ) == before.chunk(c) by {
        if c < leaf {
            assert(now.modified.subrange(0, leaf)[c] == here.modified.subrange(0, leaf)[c]);
            assert(here.chunk(c) == before.chunk(c));
            assert(now.chunk(c) =~= now.bytes.subrange(0, 32 * leaf).subrange(32 * c, 32 * c + 32));
            assert(here.chunk(c) =~= here.bytes.subrange(0, 32 * leaf).subrange(
                32 * c,
                32 * c + 32,
            ));
        } else {
            assert(now.chunk(c) == here.chunk(c));
            assert(here.chunk(c) =~= here.bytes.subrange(start, len).subrange(
                32 * c - start,
                32 * c + 32 - start,
            ));
            assert(before.chunk(c) =~= before.bytes.subrange(start, len).subrange(
                32 * c - start,
                32 * c + 32 - start,
            ));
        }
    }
}

/// Where item `i` has not changed, the chunks of its tree hold what they
/// held, marked or not.
pub proof fn lemma_item_marks_kept<T: CachedTreeHash>(
    list: &Vec<T>,
    other: &Vec<T>,
    before: CacheView,
    now: CacheView,
    offset: int,
    i: int,
)
    requires
        T::spec_item_kind() == ItemKind::Composite,
        fits(list_tree(list@)),
        fits(list_tree(other@)),
        list_leaf_lengths(list@) == list_leaf_lengths(other@),
        0 <= offset,
        0 <= i < list@.len(),
        32 * offset + list_tree(list@).len() <= before.bytes.len(),
        now.bytes.len() == before.bytes.len(),
        item_marks_in_place(list, before, now, offset, i),
        item_frame_in_place(list, before, now, offset, i),
    ensures
        item_marks_in_place(list, before, now, offset, i + 1),
{
    reveal(item_marks_in_place);
    reveal(item_frame_in_place);
    let trees = trees_of(list@);
    let first = first_leaf_byte(offset, list@.len());
    let start = first + part_start(trees, i);
    let end = first + part_start(trees, i + 1);
    let len = before.bytes.len() as int;
    lemma_item_position(list@, other@, offset as nat, i);
    lemma_next_pow2_bounds(list@.len());
    crate::subtrees::lemma_part_start_monotone(trees, 0, i);
    assert(trees.subrange(0, 0) =~= Seq::<Seq<u8>>::empty());
    assert forall|c: int| first <= 32 * c < end && !now.modified[c] implies #[trigger] now.chunk(
        c,
    ) == before.chunk(c) by {
        if 32 * c >= start {
            assert(now.chunk(c) =~= now.bytes.subrange(start, len).subrange(
                32 * c - start,
                32 * c + 32 - start,
            ));
            assert(before.chunk(c) =~= before.bytes.subrange(start, len).subrange(
                32 * c - start,
                32 * c + 32 - start,
            ));
        }
    }
}

/// Where item `i` has not changed, its tree is in place as it is.
#[verifier::rlimit(40)]
pub proof fn lemma_item_kept<T: CachedTreeHash>(
    list: &Vec<T>,
    other: &Vec<T>,
    before: CacheView,
    now: CacheView,
    offset: int,
    i: int,
)
    requires
        composite_update(list, other, before, offset),
        items_in_place(list, other, before, now, offset, i),
        0 <= i < list@.len(),
        i < other@.len(),
        list@[i].eq_spec(&other@[i]),
    ensures
        items_in_place(list, other, before, now, offset, i + 1),
{
    reveal(item_flags_in_place);
    reveal(item_bytes_in_place);
    lemma_list_shape(list@);
    lemma_item_frame_kept(list, other, before, now, offset, i);
    lemma_item_marks_kept(list, other, before, now, offset, i);
    let trees = trees_of(list@);
    let old_trees = trees_of(other@);
    let first = first_leaf_byte(offset, list@.len());
    let count = list@.len();
    let end = part_start(trees, i + 1);
    lemma_item_position(list@, other@, offset as nat, i);
    lemma_concat_push(trees, i);
    lemma_trees_of(other@);
    lemma_next_pow2_bounds(count);
    lemma_list_shape(list@);
    lemma_list_shape(other@);
    lemma_list_layout(list@);
    lemma_list_layout(other@);
    list@[i].lemma_equal_values(&other@[i]);
    if holds_below_root(before, offset, list_tree(other@)) {
        crate::subtrees::lemma_holds_unmixed(
            before.bytes,
            offset,
            unmixed_tree(other@),
            other@.len() as u64,
        );
        if next_pow2(count) >= 2 {
            crate::subtrees::lemma_holds_subtree(before.bytes, offset, old_trees, i, 0);
        } else {
            lemma_single_items_differ(list, other);
        }
        assert(now.bytes =~= before.bytes.subrange(0, first) + concat(trees.subrange(0, i + 1))
            + before.bytes.subrange(first + end, before.bytes.len() as int));
    }
}

/// Updates in place the tree of a list of composite items that are as many
/// as before and take as many chunks each: updates the trees of the items
/// that have changed, each where it lies, and rehashes what lies above
/// them, the root in any case.
pub fn update_composite_in_place<T: CachedTreeHash>(
    list: &Vec<T>,
    other: &Vec<T>,
    cache: &mut TreeHashCache,
    overlay: &BTreeOverlay,
    cache_offset: usize,
) -> (res: Result<(), Error>)
    requires
        composite_update(list, other, old(cache)@, cache_offset as int),
        old(cache)@.wf(),
        overlay@ == OverlayView::from_lengths(cache_offset as nat, list_leaf_lengths(list@)),
        overlay@.laid_out(),
    ensures
        res is Ok,
        in_place(
            old(cache)@,
            final(cache)@,
            cache_offset as int,
            list_tree(other@),
            unmixed_tree(list@),
        ),
{
    let ghost before = cache@;
    let ghost ov = overlay@;
    let ghost offset = cache_offset as int;
    let ghost count = list@.len();
    let ghost trees = trees_of(list@);
    proof {
        lemma_items_start(list, other, before, offset);
    }
    let leaf_nodes = overlay.iter_leaf_nodes();
    let cache_len = cache.bytes_len();
    let mut i: usize = 0;
    while i < list.len()
        invariant
            composite_update(list, other, before, offset),
            items_in_place(list, other, before, cache@, offset, i as int),
            cache_len == before.bytes.len(),
            ov == overlay@,
            ov == OverlayView::from_lengths(cache_offset as nat, list_leaf_lengths(list@)),
            offset == cache_offset,
            count == list@.len(),
            count == other@.len(),
            leaf_nodes@.len() == next_pow2(count),
            count <= next_pow2(count),
            forall|k: int| 0 <= k < leaf_nodes@.len() ==> #[trigger] leaf_nodes@[k] == ov.leaf(k),
            i <= count,
            cache@.wf(),
        decreases count - i,
    {
        let ghost here = cache@;
        let leaf = leaf_nodes[i];
        proof {
            lemma_item_ready(list, other, before, here, offset, i as int);
            list@[i as int].lemma_equal_values(&other@[i as int]);
        }
        if list[i] != other[i] {
            match list[i].update_cache(&other[i], cache, leaf) {
                Ok(_) => {},
                Err(e) => {
                    return Err(e);
                },
            }
            proof {
                lemma_item_updated_flags(list, other, before, here, cache@, offset, i as int);
                lemma_same_shape(list@, other@);
                lemma_item_updated_bytes(list, other, before, here, cache@, offset, i as int);
                lemma_item_updated_frame(list, other, before, here, cache@, offset, i as int);
                lemma_item_updated_marks(list, other, before, here, cache@, offset, i as int);
            }
        } else {
            proof {
                lemma_item_kept(list, other, before, here, offset, i as int);
            }
        }
        i += 1;
    }
    let ghost mid = cache@;
    proof {
        reveal(item_flags_in_place);
        reveal(item_bytes_in_place);
        reveal(item_frame_in_place);
        reveal(item_marks_in_place);
        assert(trees.subrange(0, i as int) =~= trees);
        lemma_trees_of(list@);
        lemma_list_shape(list@);
        lemma_list_layout(list@);
        lemma_roots_len(trees);
        crate::subtrees::lemma_assemble_parts(trees);
        lemma_assemble_len(trees);
        crate::overlay::lemma_from_lengths_laid_out(
            cache_offset as nat,
            list_leaf_lengths(list@),
        );
    }
    if overlay.num_internal_nodes() > 0 {
        match rehash_internal_nodes(cache, overlay, true) {
            Ok(_) => {},
            Err(e) => {
                return Err(e);
            },
        }
        proof {
            let after = cache@;
            lemma_composite_frame(list, before, mid, after, ov, offset);
            lemma_composite_marks(list, before, mid, after, ov, offset);
            lemma_composite_rehashed(list, other, before, mid, after, ov, offset);
        }
    } else {
        proof {
            assert(next_pow2(count) == 1);
            assert(unmixed_tree(list@) =~= concat(trees));
            assert(first_leaf_byte(offset, count) == 32 * offset);
        }
    }
    Ok(())
}

/// Rehashing the internal nodes of a list of composite items leaves the
/// bytes around the tree of the list as the updates of the items left them.
pub proof fn lemma_composite_frame<T: CachedTreeHash>(
    list: &Vec<T>,
    before: CacheView,
    mid: CacheView,
    after: CacheView,
    ov: OverlayView,
    offset: int,
)
    requires
        T::spec_item_kind() == ItemKind::Composite,
        fits(list_tree(list@)),
        0 <= offset,
        ov == OverlayView::from_lengths(offset as nat, list_leaf_lengths(list@)),
        ov.laid_out(),
        ov.offsets[0] == offset,
        ov.num_leaf_nodes == next_pow2(list@.len()),
        ov.next_node == offset + chunks_of(list_tree(list@)),
        ov.next_node <= before.num_chunks(),
        before.wf(),
        mid.wf(),
        mid.num_chunks() == before.num_chunks(),
        rehashed(mid, after, ov, true),
        mid.bytes.subrange(0, first_leaf_byte(offset, list@.len())) == before.bytes.subrange(
            0,
            first_leaf_byte(offset, list@.len()),
        ),
        mid.bytes.subrange(
            first_leaf_byte(offset, list@.len()) + concat(trees_of(list@)).len(),
            mid.bytes.len() as int,
        ) == before.bytes.subrange(
            first_leaf_byte(offset, list@.len()) + concat(trees_of(list@)).len(),
            before.bytes.len() as int,
        ),
    ensures
        same_around(
            before.bytes,
            after.bytes,
            offset,
            chunks_of(unmixed_tree(list@)),
            chunks_of(unmixed_tree(list@)),
        ),
{
    let first = first_leaf_byte(offset, list@.len());
    let total = chunks_of(unmixed_tree(list@));
    let behind = first + concat(trees_of(list@)).len();
    let len = before.bytes.len() as int;
    lemma_list_shape(list@);
    lemma_trees_of(list@);
    lemma_roots_len(trees_of(list@));
    lemma_next_pow2_bounds(list@.len());
    assert forall|c: int|
        0 <= c < before.bytes.len() / 32 && !(offset <= c < offset + total) implies #[trigger] chunk_at(
        after.bytes,
        c,
    ) == chunk_at(before.bytes, c) by {
        assert(!is_internal_chunk(ov, c));
        assert(after.chunk(c) == mid.chunk(c));
        if c < offset {
            assert(chunk_at(mid.bytes, c) =~= mid.bytes.subrange(0, first).subrange(
                32 * c,
                32 * c + 32,
            ));
            assert(chunk_at(before.bytes, c) =~= before.bytes.subrange(0, first).subrange(
                32 * c,
                32 * c + 32,
            ));
        } else {
            assert(chunk_at(mid.bytes, c) =~= mid.bytes.subrange(behind, len).subrange(
                32 * c - behind,
                32 * c + 32 - behind,
            ));
            assert(chunk_at(before.bytes, c) =~= before.bytes.subrange(behind, len).subrange(
                32 * c - behind,
                32 * c + 32 - behind,
            ));
        }
    }
    crate::region::lemma_chunks_around(after.bytes, before.bytes, offset, total);
}

/// After the internal nodes of a list of composite items are rehashed, the
/// marks on the tree of the list cover what has changed in it.
pub proof fn lemma_composite_marks<T: CachedTreeHash>(
    list: &Vec<T>,
    before: CacheView,
    mid: CacheView,
    after: CacheView,
    ov: OverlayView,
    offset: int,
)
    requires
        T::spec_item_kind() == ItemKind::Composite,
        fits(list_tree(list@)),
        0 <= offset,
        ov == OverlayView::from_lengths(offset as nat, list_leaf_lengths(list@)),
        ov.laid_out(),
        ov.offsets[0] == offset,
        ov.num_leaf_nodes == next_pow2(list@.len()),
        ov.next_node == offset + chunks_of(list_tree(list@)),
        ov.next_node <= before.num_chunks(),
        before.wf(),
        mid.wf(),
        mid.num_chunks() == before.num_chunks(),
        rehashed(mid, after, ov, true),
        mid.bytes.subrange(0, first_leaf_byte(offset, list@.len())) == before.bytes.subrange(
            0,
            first_leaf_byte(offset, list@.len()),
        ),
        mid.bytes.subrange(
            first_leaf_byte(offset, list@.len()) + concat(trees_of(list@)).len(),
            mid.bytes.len() as int,
        ) == before.bytes.subrange(
            first_leaf_byte(offset, list@.len()) + concat(trees_of(list@)).len(),
            before.bytes.len() as int,
        ),
        forall|c: int|
            first_leaf_byte(offset, list@.len()) <= 32 * c < first_leaf_byte(offset, list@.len())
                + concat(trees_of(list@)).len() && !mid.modified[c] ==> #[trigger] mid.chunk(c)
                == before.chunk(c),
    ensures
        marks_cover_changes(before, after, offset, chunks_of(unmixed_tree(list@))),
{
    let first = first_leaf_byte(offset, list@.len());
    let total = chunks_of(unmixed_tree(list@));
    let behind = first + concat(trees_of(list@)).len();
    let len = before.bytes.len() as int;
    lemma_list_shape(list@);
    lemma_trees_of(list@);
    lemma_roots_len(trees_of(list@));
    lemma_next_pow2_bounds(list@.len());
    assert forall|c: int| offset <= c < offset + total && !after.modified[c] implies c
        < before.num_chunks() && #[trigger] after.chunk(c) == before.chunk(c) by {
        if 32 * c < first {
            let p = c - offset;
            assert(ov.offsets[p] == offset + p);
            assert(node_rehashed(mid, after, ov, true, p));
            assert(ov.internal_node(p).0 == c);
            assert(after.chunk(c) == mid.chunk(c));
            assert(chunk_at(mid.bytes, c) =~= mid.bytes.subrange(0, first).subrange(
                32 * c,
                32 * c + 32,
            ));
            assert(chunk_at(before.bytes, c) =~= before.bytes.subrange(0, first).subrange(
                32 * c,
                32 * c + 32,
            ));
        } else {
            assert(!is_internal_chunk(ov, c));
            assert(after.chunk(c) == mid.chunk(c));
            assert(after.modified[c] == mid.modified[c]);
            if 32 * c >= behind {
                assert(chunk_at(mid.bytes, c) =~= mid.bytes.subrange(behind, len).subrange(
                    32 * c - behind,
                    32 * c + 32 - behind,
                ));
                assert(chunk_at(before.bytes, c) =~= before.bytes.subrange(behind, len).subrange(
                    32 * c - behind,
                    32 * c + 32 - behind,
                ));
            }
        }
    }
}

/// The last step of an update in place of a list of composite items: once
/// the trees of the items are in place, `mid`, rehashing the internal
/// nodes, `after`, puts the whole tree of the list in place.
#[verifier::rlimit(40)]
pub proof fn lemma_composite_rehashed<T: CachedTreeHash>(
    list: &Vec<T>,
    other: &Vec<T>,
    before: CacheView,
    mid: CacheView,
    after: CacheView,
    ov: OverlayView,
    offset: int,
)
    requires
        T::spec_item_kind() == ItemKind::Composite,
        fits(list_tree(list@)),
        fits(list_tree(other@)),
        list_leaf_lengths(list@) == list_leaf_lengths(other@),
        0 <= offset,
        list@.len() >= 1,
        ov == OverlayView::from_lengths(offset as nat, list_leaf_lengths(list@)),
        ov.laid_out(),
        ov.num_internal_nodes > 0,
        ov.next_node == offset + chunks_of(list_tree(list@)),
        ov.next_node <= before.num_chunks(),
        before.wf(),
        mid.wf(),
        mid.num_chunks() == before.num_chunks(),
        rehashed(mid, after, ov, true),
        forall|c: int|
            0 <= c < before.num_chunks() && !(first_leaf_byte(offset, list@.len()) <= 32 * c
                < first_leaf_byte(offset, list@.len()) + concat(trees_of(list@)).len())
                ==> #[trigger] mid.modified[c] == before.modified[c],
        forall|j: int|
            0 <= j < list@.len() && !list@[j].eq_spec(&other@[j]) ==> mid.modified[#[trigger] ov.leaf(
                j,
            ) as int],
        holds_below_root(before, offset, list_tree(other@)) ==> mid.bytes == before.bytes.subrange(
            0,
            first_leaf_byte(offset, list@.len()),
        ) + concat(trees_of(list@)) + before.bytes.subrange(
            first_leaf_byte(offset, list@.len()) + concat(trees_of(list@)).len(),
            before.bytes.len() as int,
        ),
        same_around(
            before.bytes,
            after.bytes,
            offset,
            chunks_of(unmixed_tree(list@)),
            chunks_of(unmixed_tree(list@)),
        ),
        marks_cover_changes(before, after, offset, chunks_of(unmixed_tree(list@))),
    ensures
        in_place(before, after, offset, list_tree(other@), unmixed_tree(list@)),
{
    let count = list@.len();
    let leaves = next_pow2(count) as int;
    let trees = trees_of(list@);
    let old_trees = trees_of(other@);
    let first = first_leaf_byte(offset, count);
    let total = chunks_of(unmixed_tree(list@));
    let all = padded_lengths(list_leaf_lengths(list@));
    lemma_list_shape(list@);
    lemma_list_shape(other@);
    lemma_list_layout(list@);
    lemma_list_layout(other@);
    lemma_trees_of(list@);
    lemma_trees_of(other@);
    lemma_roots_len(trees);
    lemma_roots_len(old_trees);
    lemma_next_pow2_bounds(count);
    lemma_padded_lengths(list_leaf_lengths(list@));
    lemma_assemble_len(trees);
    crate::subtrees::lemma_assemble_parts(trees);
    assert(list_leaf_lengths(list@).len() == list@.len());
    assert(list_leaf_lengths(other@).len() == other@.len());
    assert(trees.subrange(0, count as int) =~= trees);
    assert(old_trees.subrange(0, count as int) =~= old_trees);
    assert(concat(trees).len() == concat(old_trees).len()) by {
        assert(32 * sum_lengths(all, count as int) == part_start(trees, count as int));
        assert(32 * sum_lengths(all, count as int) == part_start(old_trees, count as int));
    }
    assert forall|c: int|
        0 <= c < before.num_chunks() && !(offset <= c < offset + total) implies (#[trigger] after.modified[c])
        == before.modified[c] by {
        assert(!is_internal_chunk(ov, c));
        assert(mid.modified[c] == before.modified[c]);
    }
    if holds_below_root(before, offset, list_tree(other@)) {
        let new_leaves = pad_zeros(crate::subtrees::roots(trees));
        let old_leaves = pad_zeros(crate::subtrees::roots(old_trees));
        lemma_pad_zeros(crate::subtrees::roots(trees));
        lemma_pad_zeros(crate::subtrees::roots(old_trees));
        crate::subtrees::lemma_holds_unmixed(
            before.bytes,
            offset,
            unmixed_tree(other@),
            other@.len() as u64,
        );
        crate::subtrees::lemma_holds_padding(before.bytes, offset, old_trees);
        assert forall|p: int| 1 <= p < ov.num_internal_nodes implies mid.chunk(
            #[trigger] ov.offsets[p] as int,
        ) == tree_node(old_leaves, p as nat) by {
            crate::subtrees::lemma_holds_internal(before.bytes, offset, old_trees, p);
            assert(ov.offsets[p] == offset + p);
            assert(mid.chunk(offset + p) =~= before.chunk(offset + p));
        }
        assert forall|i: int| 0 <= i < ov.num_leaf_nodes implies mid.chunk(
            #[trigger] ov.leaf(i) as int,
        ) == chunk_at(new_leaves, i) && (!mid.modified[ov.leaf(i) as int] ==> chunk_at(
            new_leaves,
            i,
        ) == chunk_at(old_leaves, i)) by {
            lemma_leaf_of_composite(list, other, before, mid, ov, offset, i);
        }
        assert forall|q: int| 0 <= q < leaves - 1 implies #[trigger] chunk_at(
            after.bytes,
            offset + q,
        ) == chunk_at(merkle_tree(new_leaves), q) by {
            lemma_rehashed_node(mid, after, ov, new_leaves, old_leaves, q);
            assert(ov.offsets[q] == offset + q);
            crate::merkle::lemma_merkle_tree_chunk(new_leaves, q as nat);
        }
        let chunks = before.num_chunks() as int;
        assert forall|q: int| 0 <= q < offset implies #[trigger] chunk_at(after.bytes, 0 + q)
            == chunk_at(before.bytes, 0 + q) by {
            assert(!is_internal_chunk(ov, q));
            assert(after.chunk(q) == mid.chunk(q));
            assert(mid.chunk(q) =~= before.chunk(q));
        }
        crate::region::lemma_same_chunks(after.bytes, 0, before.bytes, 0, offset);
        crate::region::lemma_same_chunks(
            after.bytes,
            offset,
            merkle_tree(new_leaves),
            0,
            leaves - 1,
        );
        assert forall|q: int| 0 <= q < chunks - (offset + leaves - 1) implies #[trigger] chunk_at(
            after.bytes,
            offset + leaves - 1 + q,
        ) == chunk_at(mid.bytes, offset + leaves - 1 + q) by {
            let c = offset + leaves - 1 + q;
            assert(!is_internal_chunk(ov, c));
            assert(after.chunk(c) == mid.chunk(c));
        }
        crate::region::lemma_same_chunks(
            after.bytes,
            offset + leaves - 1,
            mid.bytes,
            offset + leaves - 1,
            chunks - (offset + leaves - 1),
        );
        let tail = before.bytes.subrange(
            32 * offset + unmixed_tree(list@).len(),
            before.bytes.len() as int,
        );
        assert(mid.bytes.subrange(first, mid.bytes.len() as int) =~= concat(trees)
            + before.bytes.subrange(first + concat(trees).len(), 32 * offset + unmixed_tree(
            list@,
        ).len()) + tail);
        assert(after.bytes =~= after.bytes.subrange(0, 32 * offset) + after.bytes.subrange(
            32 * offset,
            first,
        ) + after.bytes.subrange(first, after.bytes.len() as int));
        assert(after.bytes =~= before.bytes.subrange(0, 32 * offset) + unmixed_tree(list@) + tail);
    }
}

/// A leaf of a list of composite items, once the trees of the items are in
/// place: it holds the root of its item's tree, or zeros where it is
/// padding; and if it is not marked as modified, it holds what it held for
/// the list before.
#[verifier::rlimit(40)]
pub proof fn lemma_leaf_of_composite<T: CachedTreeHash>(
    list: &Vec<T>,
    other: &Vec<T>,
    before: CacheView,
    mid: CacheView,
    ov: OverlayView,
    offset: int,
    i: int,
)
    requires
        T::spec_item_kind() == ItemKind::Composite,
        fits(list_tree(list@)),
        fits(list_tree(other@)),
        list_leaf_lengths(list@) == list_leaf_lengths(other@),
        0 <= offset,
        list@.len() >= 1,
        ov == OverlayView::from_lengths(offset as nat, list_leaf_lengths(list@)),
        ov.laid_out(),
        ov.next_node == offset + chunks_of(list_tree(list@)),
        ov.next_node <= before.num_chunks(),
        before.wf(),
        mid.wf(),
        mid.num_chunks() == before.num_chunks(),
        0 <= i < ov.num_leaf_nodes,
        forall|j: int|
            0 <= j < list@.len() && !list@[j].eq_spec(&other@[j]) ==> mid.modified[#[trigger] ov.leaf(
                j,
            ) as int],
        holds_below_root(before, offset, list_tree(other@)),
        mid.bytes == before.bytes.subrange(0, first_leaf_byte(offset, list@.len())) + concat(
            trees_of(list@),
        ) + before.bytes.subrange(
            first_leaf_byte(offset, list@.len()) + concat(trees_of(list@)).len(),
            before.bytes.len() as int,
        ),
    ensures
        mid.chunk(ov.leaf(i) as int) == chunk_at(
            pad_zeros(crate::subtrees::roots(trees_of(list@))),
            i,
        ),
        !mid.modified[ov.leaf(i) as int] ==> chunk_at(
            pad_zeros(crate::subtrees::roots(trees_of(list@))),
            i,
        ) == chunk_at(pad_zeros(crate::subtrees::roots(trees_of(other@))), i),
{
    let count = list@.len();
    let leaves = next_pow2(count) as int;
    let trees = trees_of(list@);
    let old_trees = trees_of(other@);
    let first = first_leaf_byte(offset, count);
    let all = padded_lengths(list_leaf_lengths(list@));
    let new_roots = crate::subtrees::roots(trees);
    let old_roots = crate::subtrees::roots(old_trees);
    lemma_list_shape(list@);
    lemma_list_shape(other@);
    lemma_list_layout(list@);
    lemma_list_layout(other@);
    lemma_trees_of(list@);
    lemma_trees_of(other@);
    lemma_roots_len(trees);
    lemma_roots_len(old_trees);
    lemma_next_pow2_bounds(count);
    lemma_padded_lengths(list_leaf_lengths(list@));
    lemma_assemble_len(trees);
    lemma_pad_zeros(new_roots);
    lemma_pad_zeros(old_roots);
    assert(list_leaf_lengths(list@).len() == list@.len());
    assert(list_leaf_lengths(other@).len() == other@.len());
    assert(trees.subrange(0, count as int) =~= trees);
    assert(old_trees.subrange(0, count as int) =~= old_trees);
    let c = ov.leaf(i) as int;
    if i < count {
        lemma_item_position(list@, other@, offset as nat, i);
        lemma_concat_part(trees, i);
        crate::subtrees::lemma_roots_chunk(trees, i);
        crate::subtrees::lemma_roots_chunk(old_trees, i);
        let start = part_start(trees, i);
        assert(32 * c == first + start);
        assert(mid.chunk(c) =~= concat(trees).subrange(start, start + trees[i].len()).subrange(
            0,
            32,
        ));
        assert(chunk_at(pad_zeros(new_roots), i) =~= chunk_at(new_roots, i));
        assert(chunk_at(pad_zeros(old_roots), i) =~= chunk_at(old_roots, i));
        if !mid.modified[c] {
            list@[i].lemma_equal_values(&other@[i]);
        }
    } else {
        crate::subtrees::lemma_holds_unmixed(
            before.bytes,
            offset,
            unmixed_tree(other@),
            other@.len() as u64,
        );
        crate::subtrees::lemma_holds_padding(before.bytes, offset, old_trees);
        lemma_sum_of_trees(trees, all, i);
        lemma_sum_of_trees(old_trees, all, i);
        assert(32 * c == first + concat(trees).len() + 32 * (i - count));
        lemma_padding_chunk(new_roots, old_roots, i);
        let padding = before.bytes.subrange(
            first + concat(old_trees).len(),
            32 * offset + unmixed_tree(other@).len(),
        );
        assert(mid.chunk(c) =~= padding.subrange(32 * (i - count), 32 * (i - count) + 32));
        assert(chunk_at(pad_zeros(new_roots), i) =~= padding.subrange(
            32 * (i - count),
            32 * (i - count) + 32,
        ));
    }
}

} // verus!
