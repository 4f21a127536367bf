//! The steps of an update: comparing leaves, writing those that have
//! changed, and rehashing the nodes above them.

use vstd::prelude::*;
use vstd::slice::slice_to_vec;
use crate::cache::{lemma_splice_one_chunk, CacheView, TreeHashCache};
use crate::error::Error;
use crate::hashing::{hash, hash_pair};
use crate::merkle::{chunk_at, tree_node};
use crate::overlay::{BTreeOverlay, OverlayView};

verus! {

/// What has become of a leaf between the value before and the new value.
#[derive(Debug, Clone, Copy, PartialEq, Eq, Structural)]
pub enum LeafStatus {
    /// The leaf holds a value in both, and the same.
    Unchanged,
    /// The leaf holds a value in both, but not the same.
    Changed,
    /// The leaf was padding and now holds a value.
    BecameValue,
    /// The leaf held a value and is now padding.
    BecamePadding,
    /// The leaf is padding in both.
    RemainedPadding,
}

/// The status of a leaf that holds `new` now and held `old` before, where
/// `None` stands for padding.
pub open spec fn leaf_status(new: Option<Seq<u8>>, old: Option<Seq<u8>>) -> LeafStatus {
    match (new, old) {
        (None, None) => LeafStatus::RemainedPadding,
        (None, Some(_)) => LeafStatus::BecamePadding,
        (Some(_), None) => LeafStatus::BecameValue,
        (Some(n), Some(o)) => if n == o {
            LeafStatus::Unchanged
        } else {
            LeafStatus::Changed
        },
    }
}

/// The bytes of a leaf, where it holds a value.
pub open spec fn leaf_bytes(leaf: Option<&[u8]>) -> Option<Seq<u8>> {
    match leaf {
        Some(bytes) => Some(bytes@),
        None => None,
    }
}

/// Compares what a leaf holds now with what it held before.
pub fn process_values(new: Option<&[u8]>, old: Option<&[u8]>) -> (status: LeafStatus)
    ensures
        status == leaf_status(leaf_bytes(new), leaf_bytes(old)),
{
    match (new, old) {
        (None, None) => LeafStatus::RemainedPadding,
        (None, Some(_)) => LeafStatus::BecamePadding,
        (Some(_), None) => LeafStatus::BecameValue,
        (Some(n), Some(o)) => {
            if crate::cache::bytes_equal(n, o) {
                LeafStatus::Unchanged
            } else {
                LeafStatus::Changed
            }
        },
    }
}

/// The parent of the chunks `left` and `right`: the digest of the one
/// followed by the other, wherever in the cache the two lie.
pub fn hash_chunk_pair(cache: &TreeHashCache, left: usize, right: usize) -> (res: Result<
    Vec<u8>,
    Error,
>)
    requires
        cache@.wf(),
        left < right,
    ensures
        match res {
            Ok(parent) => right < cache@.num_chunks() && parent@ == hash_pair(
                cache@.chunk(left as int),
                cache@.chunk(right as int),
            ) && parent@.len() == 32,
            Err(e) => right >= cache@.num_chunks() && e == Error::NoChildrenForHashing(
                (left, right),
            ),
        },
{
    if right - left == 1 {
        cache.hash_children((&left, &right))
    } else {
        let mut children = match cache.get_chunk(left) {
            Ok(chunk) => slice_to_vec(chunk),
            Err(_) => {
                return Err(Error::NoChildrenForHashing((left, right)));
            },
        };
        match cache.get_chunk(right) {
            Ok(chunk) => crate::cache::append_bytes(&mut children, chunk),
            Err(_) => {
                return Err(Error::NoChildrenForHashing((left, right)));
            },
        }
        Ok(hash(children.as_slice()))
    }
}

/// Whether chunk `c` holds an internal node of the tree.
pub open spec fn is_internal_chunk(overlay: OverlayView, c: int) -> bool {
    overlay.offsets[0] <= c < overlay.offsets[0] + overlay.num_internal_nodes
}

/// What rehashing has done to internal node `p`. Where one of its children
/// is marked as modified, and at a root that had to be made anew, the node
/// is the digest of its children as they are now, and is marked itself.
/// Elsewhere it is as it was.
pub open spec fn node_rehashed(
    before: CacheView,
    after: CacheView,
    overlay: OverlayView,
    force_root: bool,
    p: int,
) -> bool {
    let node = overlay.internal_node(p);
    let c = node.0 as int;
    let left = node.1.0 as int;
    let right = node.1.1 as int;
    if (p == 0 && force_root) || after.modified[left] || after.modified[right] {
        after.chunk(c) == hash_pair(after.chunk(left), after.chunk(right)) && after.modified[c]
    } else {
        after.chunk(c) == before.chunk(c) && after.modified[c] == before.modified[c]
    }
}

/// What rehashing has done to a cache: every internal node of the tree is
/// rehashed as `node_rehashed` says, and nothing else has changed.
pub open spec fn rehashed(
    before: CacheView,
    after: CacheView,
    overlay: OverlayView,
    force_root: bool,
) -> bool {
    &&& after.wf()
    &&& after.num_chunks() == before.num_chunks()
    &&& forall|c: int|
        0 <= c < before.num_chunks() && !is_internal_chunk(overlay, c) ==> #[trigger] after.chunk(
            c,
        ) == before.chunk(c)
    &&& forall|c: int|
        0 <= c < before.num_chunks() && !is_internal_chunk(overlay, c)
            ==> #[trigger] after.modified[c] == before.modified[c]
    &&& forall|p: int|
        0 <= p < overlay.num_internal_nodes ==> #[trigger] node_rehashed(
            before,
            after,
            overlay,
            force_root,
            p,
        )
}

/// Walks the internal nodes of the tree from the deepest to the root and
/// hashes anew every node of which a child is marked as modified; with
/// `force_root`, the root in any case. The cache must reach to the end of
/// the tree.
pub fn rehash_internal_nodes(cache: &mut TreeHashCache, overlay: &BTreeOverlay, force_root: bool) -> (res:
    Result<(), Error>)
    requires
        old(cache)@.wf(),
        overlay@.laid_out(),
    ensures
        final(cache)@.wf(),
        match res {
            Ok(_) => overlay@.next_node <= old(cache)@.num_chunks() && rehashed(
                old(cache)@,
                final(cache)@,
                overlay@,
                force_root,
            ),
            Err(e) => overlay@.next_node > old(cache)@.num_chunks() && e == Error::NoBytesForChunk(
                (overlay@.next_node - 1) as usize,
            ) && final(cache)@ == old(cache)@,
        },
{
    let ghost before = cache@;
    let ghost ov = overlay@;
    if overlay.next_node() > cache.bytes_len() / 32 {
        return Err(Error::NoBytesForChunk(overlay.next_node() - 1));
    }
    let nodes = overlay.iter_internal_nodes();
    let mut i: usize = nodes.len();
    while i > 0
        invariant
            ov == overlay@,
            ov.laid_out(),
            before.wf(),
            cache@.wf(),
            cache@.num_chunks() == before.num_chunks(),
            ov.next_node <= before.num_chunks(),
            i <= nodes@.len(),
            nodes@.len() == ov.num_internal_nodes,
            forall|k: int|
                0 <= k < nodes@.len() ==> {
                    &&& (#[trigger] nodes@[k]).0 == ov.internal_node(k).0
                    &&& nodes@[k].1.0 == ov.internal_node(k).1.0
                    &&& nodes@[k].1.1 == ov.internal_node(k).1.1
                },
            forall|c: int|
                0 <= c < before.num_chunks() && !is_internal_chunk(ov, c) ==> #[trigger] cache@.chunk(
                    c,
                ) == before.chunk(c),
            forall|c: int|
                0 <= c < before.num_chunks() && !is_internal_chunk(ov, c)
                    ==> #[trigger] cache@.modified[c] == before.modified[c],
            forall|p: int|
                0 <= p < i ==> cache@.chunk(#[trigger] ov.offsets[p] as int) == before.chunk(
                    ov.offsets[p] as int,
                ) && cache@.modified[ov.offsets[p] as int] == before.modified[ov.offsets[p] as int],
            forall|p: int|
                i <= p < ov.num_internal_nodes ==> #[trigger] node_rehashed(
                    before,
                    cache@,
                    ov,
                    force_root,
                    p,
                ),
        decreases i,
    {
        i -= 1;
        let (parent, children) = nodes[i];
        let ghost here = cache@;
        proof {
            assert(nodes@[i as int].0 == ov.internal_node(i as int).0);
            assert(ov.offsets[i as int] < ov.offsets[2 * i + 1]);
            assert(ov.offsets[2 * i + 1] < ov.offsets[2 * i + 2]);
            assert(ov.offsets[2 * i + 2] <= ov.offsets[ov.offsets.len() - 1]);
        }
        let modified = match cache.either_modified((&children.0, &children.1)) {
            Ok(modified) => modified,
            Err(e) => {
                return Err(e);
            },
        };
        if (i == 0 && force_root) || modified {
            let parent_hash = match hash_chunk_pair(cache, children.0, children.1) {
                Ok(parent_hash) => parent_hash,
                Err(e) => {
                    return Err(e);
                },
            };
            match cache.modify_chunk(parent, parent_hash.as_slice()) {
                Ok(_) => {},
                Err(e) => {
                    return Err(e);
                },
            }
            proof {
                lemma_splice_one_chunk(here, parent as int, parent_hash@);
                assert forall|p: int| i < p < ov.num_internal_nodes implies #[trigger] node_rehashed(
                    before,
                    cache@,
                    ov,
                    force_root,
                    p,
                ) by {
                    assert(node_rehashed(before, here, ov, force_root, p));
                    assert(ov.offsets[i as int] < ov.offsets[p]);
                    assert(ov.offsets[p] < ov.offsets[2 * p + 1]);
                    assert(ov.offsets[2 * p + 1] < ov.offsets[2 * p + 2]);
                    assert(ov.offsets[2 * p + 2] <= ov.offsets[ov.offsets.len() - 1]);
                }
                assert(node_rehashed(before, cache@, ov, force_root, i as int));
                assert forall|p: int| 0 <= p < i implies cache@.chunk(
                    #[trigger] ov.offsets[p] as int,
                ) == before.chunk(ov.offsets[p] as int) && cache@.modified[ov.offsets[p] as int]
                    == before.modified[ov.offsets[p] as int] by {
                    assert(ov.offsets[p] < ov.offsets[i as int]);
                }
                assert(is_internal_chunk(ov, parent as int));
            }
        } else {
            assert(node_rehashed(before, cache@, ov, force_root, i as int));
        }
    }
    Ok(())
}

/// Once a tree's leaves are in place, rehashing puts every node in place.
///
/// The cache held the internal nodes of the tree over `old_leaves`, the root
/// left open; its leaves now hold `new_leaves`, and a leaf that is not
/// marked as modified holds what it held before. After rehashing with the
/// root forced, node `q` of the tree is node `q` of the tree over
/// `new_leaves`; and a node below the root that is not marked as modified is
/// the same in both trees.
pub proof fn lemma_rehashed_node(
    before: CacheView,
    after: CacheView,
    overlay: OverlayView,
    new_leaves: Seq<u8>,
    old_leaves: Seq<u8>,
    q: int,
)
    requires
        overlay.laid_out(),
        before.wf(),
        overlay.next_node <= before.num_chunks(),
        rehashed(before, after, overlay, true),
        new_leaves.len() == 32 * overlay.num_leaf_nodes,
        old_leaves.len() == 32 * overlay.num_leaf_nodes,
        forall|i: int|
            0 <= i < overlay.num_leaf_nodes ==> before.chunk(#[trigger] overlay.leaf(i) as int)
                == chunk_at(new_leaves, i),
        forall|i: int|
            0 <= i < overlay.num_leaf_nodes && !before.modified[#[trigger] overlay.leaf(i) as int]
                ==> chunk_at(new_leaves, i) == chunk_at(old_leaves, i),
        forall|p: int|
            1 <= p < overlay.num_internal_nodes ==> before.chunk(
                #[trigger] overlay.offsets[p] as int,
            ) == tree_node(old_leaves, p as nat),
        0 <= q < overlay.offsets.len(),
    ensures
        after.chunk(overlay.offsets[q] as int) == tree_node(new_leaves, q as nat),
        q >= 1 && !after.modified[overlay.offsets[q] as int] ==> tree_node(new_leaves, q as nat)
            == tree_node(old_leaves, q as nat),
    decreases overlay.offsets.len() - q,
{
    let internal = overlay.num_internal_nodes as int;
    let c = overlay.offsets[q] as int;
    assert(overlay.offsets[internal] == overlay.offsets[0] + internal);
    assert(c <= overlay.offsets[overlay.offsets.len() - 1]);
    if q >= internal {
        let i = q - internal;
        assert(overlay.leaf(i) == overlay.offsets[q]);
        if q > internal {
            assert(overlay.offsets[internal] < overlay.offsets[q]);
        }
        assert(!is_internal_chunk(overlay, c));
        assert(after.chunk(c) == before.chunk(c));
        assert(after.modified[c] == before.modified[c]);
    } else {
        lemma_rehashed_node(before, after, overlay, new_leaves, old_leaves, 2 * q + 1);
        lemma_rehashed_node(before, after, overlay, new_leaves, old_leaves, 2 * q + 2);
        assert(node_rehashed(before, after, overlay, true, q));
        assert(overlay.internal_node(q).0 == overlay.offsets[q]);
        assert(overlay.offsets[q] < overlay.offsets[2 * q + 1]);
    }
}

/// What leaf `i` of `leaves` holds: its chunk where it is one of the first
/// `values` leaves, which hold values, and nothing where it is padding.
pub open spec fn leaf_value(leaves: Seq<u8>, values: int, i: int) -> Option<Seq<u8>> {
    if i < values {
        Some(chunk_at(leaves, i))
    } else {
        None
    }
}

/// What updating the leaves has done to leaf `i`. A leaf that holds the
/// value that it held, or is padding as before, is not touched. Any other
/// leaf holds its new chunk, and is marked as modified if the cache held
/// something else there.
pub open spec fn leaf_updated(
    before: CacheView,
    after: CacheView,
    c: int,
    status: LeafStatus,
    to: Seq<u8>,
) -> bool {
    if status == LeafStatus::Unchanged || status == LeafStatus::RemainedPadding {
        after.chunk(c) == before.chunk(c) && after.modified[c] == before.modified[c]
    } else {
        after.chunk(c) == to && after.modified[c] == (before.modified[c] || before.chunk(c) != to)
    }
}

/// What updating the leaves has done to a cache: every leaf is as
/// `leaf_updated` says, and no other chunk has changed.
pub open spec fn leaves_updated(
    before: CacheView,
    after: CacheView,
    overlay: OverlayView,
    new_leaves: Seq<u8>,
    new_values: int,
    old_leaves: Seq<u8>,
    old_values: int,
) -> bool {
    &&& after.wf()
    &&& after.num_chunks() == before.num_chunks()
    &&& forall|c: int|
        0 <= c < before.num_chunks() && !(overlay.leaf(0) <= c < overlay.next_node)
            ==> #[trigger] after.chunk(c) == before.chunk(c)
    &&& forall|c: int|
        0 <= c < before.num_chunks() && !(overlay.leaf(0) <= c < overlay.next_node)
            ==> #[trigger] after.modified[c] == before.modified[c]
    &&& forall|i: int|
        0 <= i < overlay.num_leaf_nodes ==> leaf_updated(
            before,
            after,
            #[trigger] overlay.leaf(i) as int,
            leaf_status(
                leaf_value(new_leaves, new_values, i),
                leaf_value(old_leaves, old_values, i),
            ),
            chunk_at(new_leaves, i),
        )
}

/// Brings the leaves of a tree of packed values up to date. `new_leaves` and
/// `old_leaves` hold a chunk for every leaf of the tree, of which the first
/// `new_values` and `old_values` hold values and the others are padding.
/// Each leaf is compared with what it was; one that has changed is written
/// to the cache, unless the cache holds it already. The cache must reach
/// to the end of the tree, and every leaf of the tree takes one chunk.
pub fn update_packed_leaves(
    cache: &mut TreeHashCache,
    overlay: &BTreeOverlay,
    new_leaves: &[u8],
    new_values: usize,
    old_leaves: &[u8],
    old_values: usize,
) -> (res: Result<(), Error>)
    requires
        old(cache)@.wf(),
        overlay@.laid_out(),
        overlay@.next_node == overlay@.offsets[0] + overlay@.total_nodes(),
        new_leaves@.len() == 32 * overlay@.num_leaf_nodes,
        old_leaves@.len() == 32 * overlay@.num_leaf_nodes,
    ensures
        final(cache)@.wf(),
        match res {
            Ok(_) => overlay@.next_node <= old(cache)@.num_chunks() && leaves_updated(
                old(cache)@,
                final(cache)@,
                overlay@,
                new_leaves@,
                new_values as int,
                old_leaves@,
                old_values as int,
            ),
            Err(e) => overlay@.next_node > old(cache)@.num_chunks() && e == Error::NoBytesForChunk(
                (overlay@.next_node - 1) as usize,
            ) && final(cache)@ == old(cache)@,
        },
{
    let ghost before = cache@;
    let ghost ov = overlay@;
    if overlay.next_node() > cache.bytes_len() / 32 {
        return Err(Error::NoBytesForChunk(overlay.next_node() - 1));
    }
    proof {
        lemma_packed_offsets(ov, 0);
    }
    let leaf_nodes = overlay.iter_leaf_nodes();
    let leaf_bytes = new_leaves.len();
    let mut i: usize = leaf_nodes.len();
    while i > 0
        invariant
            leaf_bytes == 32 * ov.num_leaf_nodes,
            ov == overlay@,
            ov.laid_out(),
            ov.next_node == ov.offsets[0] + ov.total_nodes(),
            before.wf(),
            cache@.wf(),
            cache@.num_chunks() == before.num_chunks(),
            ov.next_node <= before.num_chunks(),
            new_leaves@.len() == 32 * ov.num_leaf_nodes,
            old_leaves@.len() == 32 * ov.num_leaf_nodes,
            i <= leaf_nodes@.len(),
            leaf_nodes@.len() == ov.num_leaf_nodes,
            forall|k: int| 0 <= k < leaf_nodes@.len() ==> #[trigger] leaf_nodes@[k] == ov.leaf(k),
            forall|c: int|
                0 <= c < before.num_chunks() && !(ov.offsets[0] + ov.num_internal_nodes + i <= c
                    < ov.next_node) ==> #[trigger] cache@.chunk(c) == before.chunk(c),
            forall|c: int|
                0 <= c < before.num_chunks() && !(ov.offsets[0] + ov.num_internal_nodes + i <= c
                    < ov.next_node) ==> #[trigger] cache@.modified[c] == before.modified[c],
            forall|k: int|
                i <= k < ov.num_leaf_nodes ==> leaf_updated(
                    before,
                    cache@,
                    #[trigger] ov.leaf(k) as int,
                    leaf_status(
                        leaf_value(new_leaves@, new_values as int, k),
                        leaf_value(old_leaves@, old_values as int, k),
                    ),
                    chunk_at(new_leaves@, k),
                ),
        decreases i,
    {
        i -= 1;
        let chunk = leaf_nodes[i];
        let ghost here = cache@;
        proof {
            lemma_packed_offsets(ov, ov.num_internal_nodes + i);
            lemma_packed_offsets(ov, ov.num_internal_nodes as int);
            assert(chunk == ov.leaf(i as int));
            assert forall|k: int| 0 <= k < ov.num_leaf_nodes implies #[trigger] ov.leaf(k)
                == ov.offsets[0] + ov.num_internal_nodes + k by {
                lemma_packed_offsets(ov, ov.num_internal_nodes + k);
            }
        }
        let start = i * 32;
        let new_chunk = vstd::slice::slice_subrange(new_leaves, start, start + 32);
        let old_chunk = vstd::slice::slice_subrange(old_leaves, start, start + 32);
        let new_leaf = if i < new_values {
            Some(new_chunk)
        } else {
            None
        };
        let old_leaf = if i < old_values {
            Some(old_chunk)
        } else {
            None
        };
        match process_values(new_leaf, old_leaf) {
            LeafStatus::Unchanged | LeafStatus::RemainedPadding => {},
            _ => {
                match cache.maybe_update_chunk(chunk, new_chunk) {
                    Some(_) => {},
                    None => {
                        return Err(Error::NoBytesForChunk(chunk));
                    },
                }
                proof {
                    if here.chunk(chunk as int) != new_chunk@ {
                        lemma_splice_one_chunk(here, chunk as int, new_chunk@);
                    }
                }
            },
        }
    }
    Ok(())
}

/// Whether node `q` of a tree has changed between the leaves `old_leaves`
/// and `new_leaves`: a leaf that holds another value than before, or a node
/// above such a leaf.
pub open spec fn node_changed(new_leaves: Seq<u8>, old_leaves: Seq<u8>, values: int, q: nat) -> bool
    decreases 2 * (new_leaves.len() / 32) - q,
{
    let n = new_leaves.len() / 32;
    if q + 1 >= n {
        let i = q + 1 - n;
        i < values && chunk_at(new_leaves, i) != chunk_at(old_leaves, i)
    } else {
        node_changed(new_leaves, old_leaves, values, 2 * q + 1) || node_changed(
            new_leaves,
            old_leaves,
            values,
            2 * q + 2,
        )
    }
}

/// An update marks the chunks that it had to touch and no others. Where a
/// cache holds the leaves of a tree of packed values, with nothing in the
/// tree marked as modified, and as many leaves hold values as before, then
/// after the leaves are updated and the nodes above them rehashed, the
/// chunks of the tree that are marked as modified are exactly the leaves
/// that have changed and the nodes above them, up to the root.
pub proof fn lemma_update_marks_what_changed(
    before: CacheView,
    mid: CacheView,
    after: CacheView,
    overlay: OverlayView,
    new_leaves: Seq<u8>,
    old_leaves: Seq<u8>,
    values: int,
    q: int,
)
    requires
        overlay.laid_out(),
        overlay.next_node == overlay.offsets[0] + overlay.total_nodes(),
        overlay.next_node <= before.num_chunks(),
        before.wf(),
        new_leaves.len() == 32 * overlay.num_leaf_nodes,
        old_leaves.len() == 32 * overlay.num_leaf_nodes,
        leaves_updated(before, mid, overlay, new_leaves, values, old_leaves, values),
        rehashed(mid, after, overlay, false),
        forall|i: int|
            0 <= i < overlay.num_leaf_nodes ==> before.chunk(#[trigger] overlay.leaf(i) as int)
                == chunk_at(old_leaves, i),
        forall|k: int|
            0 <= k < overlay.offsets.len() ==> !before.modified[#[trigger] overlay.offsets[k] as int],
        0 <= q < overlay.offsets.len(),
    ensures
        after.modified[overlay.offsets[q] as int] == node_changed(
            new_leaves,
            old_leaves,
            values,
            q as nat,
        ),
    decreases overlay.offsets.len() - q,
{
    let internal = overlay.num_internal_nodes as int;
    let c = overlay.offsets[q] as int;
    lemma_packed_offsets(overlay, q);
    lemma_packed_offsets(overlay, internal);
    if q >= internal {
        let i = q - internal;
        assert(overlay.leaf(i) == overlay.offsets[q]);
        assert(!is_internal_chunk(overlay, c));
        assert(after.modified[c] == mid.modified[c]);
        assert(leaf_updated(
            before,
            mid,
            overlay.leaf(i) as int,
            leaf_status(leaf_value(new_leaves, values, i), leaf_value(old_leaves, values, i)),
            chunk_at(new_leaves, i),
        ));
    } else {
        lemma_update_marks_what_changed(
            before,
            mid,
            after,
            overlay,
            new_leaves,
            old_leaves,
            values,
            2 * q + 1,
        );
        lemma_update_marks_what_changed(
            before,
            mid,
            after,
            overlay,
            new_leaves,
            old_leaves,
            values,
            2 * q + 2,
        );
        assert(node_rehashed(mid, after, overlay, false, q));
        assert(overlay.internal_node(q).0 == overlay.offsets[q]);
        assert(overlay.leaf(0) == overlay.offsets[internal]);
        assert(overlay.offsets[q] < overlay.offsets[internal]);
        assert(mid.modified[c] == before.modified[c]);
    }
}

/// Where every leaf takes one chunk, node `q` lies `q` chunks behind the
/// root.
pub proof fn lemma_packed_offsets(overlay: OverlayView, q: int)
    requires
        overlay.laid_out(),
        overlay.next_node == overlay.offsets[0] + overlay.total_nodes(),
        0 <= q < overlay.offsets.len(),
    ensures
        overlay.offsets[q] == overlay.offsets[0] + q,
    decreases overlay.offsets.len() - q,
{
    if q == overlay.offsets.len() - 1 {
        lemma_offsets_spread(overlay, 0, q);
    } else {
        lemma_packed_offsets(overlay, q + 1);
        lemma_offsets_spread(overlay, 0, q);
    }
}

/// Nodes that lie in order lie at least as far apart as they are in number.
pub proof fn lemma_offsets_spread(overlay: OverlayView, i: int, j: int)
    requires
        overlay.laid_out(),
        0 <= i <= j < overlay.offsets.len(),
    ensures
        overlay.offsets[i] + (j - i) <= overlay.offsets[j],
    decreases j - i,
{
    if i < j {
        lemma_offsets_spread(overlay, i, j - 1);
    }
}

} // verus!
