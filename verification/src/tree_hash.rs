//! What a type has to offer to have its tree cached, and what an update of
//! the cache promises.

use vstd::prelude::*;
use vstd::slice::{slice_subrange, slice_to_vec};
use vstd::std_specs::cmp::PartialEqSpec;
use crate::cache::{CacheView, TreeHashCache};
use crate::error::Error;

verus! {

/// How the values of a type become leaves.
#[derive(Debug, Clone, Copy, PartialEq, Eq, Structural)]
pub enum ItemKind {
    /// A scalar of fixed size. The raw bytes of such values are packed side
    /// by side into leaves, several to a chunk where they fit.
    Packed,
    /// A value with a tree of its own. Its leaf is the root of that tree.
    Composite,
}

/// Number of chunks in a tree of `tree` bytes.
pub open spec fn chunks_of(tree: Seq<u8>) -> int {
    tree.len() as int / 32
}

/// Whether the chunks of `tree` below its root are in `cache` from chunk
/// `offset` on. The root's own chunk is left open: a parent may have mixed
/// a length into it.
pub open spec fn holds_below_root(cache: CacheView, offset: int, tree: Seq<u8>) -> bool {
    &&& offset + chunks_of(tree) <= cache.num_chunks()
    &&& cache.bytes.subrange(32 * (offset + 1), 32 * (offset + chunks_of(tree))) == tree.subrange(
        32,
        tree.len() as int,
    )
}

/// The bytes of a cache in which the tree `old_tree` at chunk `offset` has
/// given way to `new_tree`.
pub open spec fn replaced(bytes: Seq<u8>, offset: int, old_tree: Seq<u8>, new_tree: Seq<u8>) -> Seq<
    u8,
> {
    bytes.subrange(0, 32 * offset) + new_tree + bytes.subrange(
        32 * (offset + chunks_of(old_tree)),
        bytes.len() as int,
    )
}

/// Whether the bytes before the chunks of a tree and those behind them are
/// in `after` what they were in `before`, where the tree took `old_chunks`
/// chunks from chunk `offset` on and now takes `new_chunks`.
pub open spec fn same_around(
    before: Seq<u8>,
    after: Seq<u8>,
    offset: int,
    old_chunks: int,
    new_chunks: int,
) -> bool {
    &&& after.subrange(0, 32 * offset) == before.subrange(0, 32 * offset)
    &&& after.subrange(32 * (offset + new_chunks), after.len() as int) == before.subrange(
        32 * (offset + old_chunks),
        before.len() as int,
    )
}

/// Whether the marks on the `count` chunks from chunk `offset` on cover
/// what has changed there: a chunk among them that is not marked as
/// modified holds what the cache held in its place before.
pub open spec fn marks_cover_changes(
    before: CacheView,
    after: CacheView,
    offset: int,
    count: int,
) -> bool {
    forall|c: int|
        offset <= c < offset + count && !after.modified[c] ==> c < before.num_chunks()
            && #[trigger] after.chunk(c) == before.chunk(c)
}

/// A type whose values have a hash tree that can be cached and then updated
/// in place from the value before.
///
/// `tree` says what the tree of a value is, `encoding` what its raw bytes
/// are; the methods build and maintain exactly that. A value takes up the
/// chunks of its tree in a cache, root first, from some chunk on.
pub trait CachedTreeHash: Sized + PartialEq {
    /// Whether values of this type are packed into leaves or have trees of
    /// their own. This belongs to the type, not to a value.
    spec fn spec_item_kind() -> ItemKind;

    /// The raw bytes of the value, without any length in front.
    spec fn encoding(&self) -> Seq<u8>;

    /// The bytes of the value's whole tree, root first.
    spec fn tree(&self) -> Seq<u8>;

    /// For a value whose leaves are laid out by an overlay, the number of
    /// chunks that each of its leaves takes.
    spec fn leaf_lengths(&self) -> Option<Seq<usize>>;

    /// Number of leading bytes of the root chunk that stand for the value
    /// where it is packed into a parent.
    spec fn packable_len(&self) -> nat;

    /// How many values of this type fill one chunk.
    spec fn spec_packing_factor() -> nat;

    /// A tree is whole chunks, has a root, and is no shorter than the raw
    /// bytes that it commits to.
    proof fn lemma_tree_shape(&self)
        ensures
            self.tree().len() % 32 == 0,
            self.tree().len() >= 32,
            self.encoding().len() <= self.tree().len(),
            self.packable_len() <= 32,
    ;

    /// Values that compare equal have the same bytes and the same tree.
    proof fn lemma_equal_values(&self, other: &Self)
        ensures
            Self::obeys_eq_spec(),
            self.eq_spec(other) ==> self.tree() == other.tree() && self.encoding()
                == other.encoding() && self.leaf_lengths() == other.leaf_lengths(),
    ;

    /// Whether values of this type are packed or composite.
    fn item_kind() -> (kind: ItemKind)
        ensures
            kind == Self::spec_item_kind(),
    ;

    /// How many values of this type fill one chunk: one for a value that
    /// takes a chunk of its own.
    fn packing_factor() -> (factor: usize)
        ensures
            factor == Self::spec_packing_factor(),
            1 <= factor <= 32,
    ;

    /// The raw bytes of the value.
    fn encode(&self) -> (bytes: Vec<u8>)
        ensures
            bytes@ == self.encoding(),
    ;

    /// Builds the cache of the value from nothing: its whole tree, with no
    /// chunk marked as modified.
    fn build_tree_hash_cache(&self) -> (res: Result<TreeHashCache, Error>)
        requires
            fits(self.tree()),
        ensures
            res matches Ok(cache) && cache@ == CacheView::from_bytes(self.tree()) && cache@.wf(),
    ;

    /// Number of raw bytes of the value.
    fn num_bytes(&self) -> (n: usize)
        requires
            self.encoding().len() <= usize::MAX,
        ensures
            n == self.encoding().len(),
    ;

    /// The lengths of the value's leaves in chunks, from which its overlay
    /// is made. A value without leaves of its own has none to give.
    fn offsets(&self) -> (res: Result<Vec<usize>, Error>)
        requires
            fits(self.tree()),
        ensures
            match res {
                Ok(lengths) => self.leaf_lengths() == Some(lengths@),
                Err(e) => self.leaf_lengths() is None && e == Error::ShouldNotProduceBTreeOverlay,
            },
    ;

    /// Number of leading bytes of the root chunk that stand for the value.
    fn num_packable_bytes(&self) -> (n: usize)
        ensures
            n == self.packable_len(),
    ;

    /// Number of chunks in the value's tree below its root.
    fn num_child_nodes(&self) -> (n: usize)
        requires
            fits(self.tree()),
        ensures
            n + 1 == chunks_of(self.tree()),
    ;

    /// Brings `cache`, which holds the tree of `other` from chunk
    /// `cache_offset` on, to hold the tree of `self` there, and returns the
    /// chunk behind that tree.
    ///
    /// Where the two values are equal, the cache is not touched. Where they
    /// differ, the cache must reach to the end of the old tree. As many
    /// chunks as the new tree has then take the place of those of the old
    /// tree. The first of them, the root, is marked as modified, and any of
    /// them that is not marked holds what the cache held in its place; the
    /// chunks and flags before and behind them are as they were. If the
    /// cache held the old tree, but for its root, into which a parent may
    /// have mixed a length, it now holds the new tree.
    fn update_cache(&self, other: &Self, cache: &mut TreeHashCache, cache_offset: usize) -> (res:
        Result<usize, Error>)
        requires
            old(cache)@.wf(),
            fits(self.tree()),
            fits(other.tree()),
            cache_offset + chunks_of(self.tree()) <= usize::MAX,
            cache_offset + chunks_of(other.tree()) <= usize::MAX,
        ensures
            final(cache)@.wf(),
            self.eq_spec(other) ==> res == Ok::<usize, Error>(
                (cache_offset + chunks_of(self.tree())) as usize,
            ) && final(cache)@ == old(cache)@,
            !self.eq_spec(other) ==> match res {
                Ok(next) => {
                    &&& cache_offset + chunks_of(other.tree()) <= old(cache)@.num_chunks()
                    &&& next == cache_offset + chunks_of(self.tree())
                    &&& updated(
                        old(cache)@,
                        final(cache)@,
                        cache_offset as int,
                        other.tree(),
                        self.tree(),
                    )
                },
                Err(e) => {
                    &&& cache_offset + chunks_of(other.tree()) > old(cache)@.num_chunks()
                    &&& e == Error::NoBytesForChunk(
                        (cache_offset + chunks_of(other.tree()) - 1) as usize,
                    )
                    &&& final(cache)@ == old(cache)@
                },
            },
    ;

    /// Updates the cache as `update_cache` does and returns the leading bytes
    /// of the value's root chunk that stand for the value: for a value with a
    /// tree of its own, its new root.
    fn packable_bytes(&self, other: &Self, cache: &mut TreeHashCache, offset: usize) -> (res:
        Result<Vec<u8>, Error>)
        requires
            old(cache)@.wf(),
            fits(self.tree()),
            fits(other.tree()),
            offset + chunks_of(self.tree()) <= usize::MAX,
            offset + chunks_of(other.tree()) <= usize::MAX,
        ensures
            final(cache)@.wf(),
            self.eq_spec(other) ==> final(cache)@ == old(cache)@,
            !self.eq_spec(other) ==> (res is Ok <==> offset + chunks_of(other.tree()) <= old(
                cache,
            )@.num_chunks()),
            match res {
                Ok(bytes) => {
                    &&& offset < final(cache)@.num_chunks()
                    &&& bytes@ == final(cache)@.chunk(offset as int).subrange(
                        0,
                        self.packable_len() as int,
                    )
                    &&& !self.eq_spec(other) ==> updated(
                        old(cache)@,
                        final(cache)@,
                        offset as int,
                        other.tree(),
                        self.tree(),
                    )
                },
                Err(e) => {
                    &&& final(cache)@ == old(cache)@
                    &&& e == Error::NoBytesForChunk(
                        if self.eq_spec(other) {
                            offset
                        } else {
                            (offset + chunks_of(other.tree()) - 1) as usize
                        },
                    )
                },
            },
    {
        proof {
            self.lemma_tree_shape();
            other.lemma_tree_shape();
        }
        match self.update_cache(other, cache, offset) {
            Ok(_) => {},
            Err(e) => {
                return Err(e);
            },
        }
        let packable = self.num_packable_bytes();
        match cache.get_chunk(offset) {
            Ok(chunk) => Ok(slice_to_vec(slice_subrange(chunk, 0, packable))),
            Err(e) => Err(e),
        }
    }
}

/// Whether a tree is small enough to be built: it is hashed in a buffer of up
/// to twice its size.
pub open spec fn fits(tree: Seq<u8>) -> bool {
    2 * tree.len() <= usize::MAX
}

/// What an update that found the values different has done to a cache: as
/// many chunks as the new tree has stand where those of the old tree stood,
/// the first of them marked as modified, between bytes and flags that are
/// as they were. Whatever chunk of them is not marked holds what the cache
/// held there before. If the old tree was there, below its root, the new
/// tree is there now, root included.
pub open spec fn updated(
    before: CacheView,
    after: CacheView,
    offset: int,
    old_tree: Seq<u8>,
    new_tree: Seq<u8>,
) -> bool {
    &&& after.num_chunks() + chunks_of(old_tree) == before.num_chunks() + chunks_of(new_tree)
    &&& same_around(before.bytes, after.bytes, offset, chunks_of(old_tree), chunks_of(new_tree))
    &&& after.modified[offset]
    &&& marks_cover_changes(before, after, offset, chunks_of(new_tree))
    &&& after.modified.subrange(0, offset) == before.modified.subrange(0, offset)
    &&& after.modified.subrange(offset + chunks_of(new_tree), after.modified.len() as int)
        == before.modified.subrange(offset + chunks_of(old_tree), before.modified.len() as int)
    &&& holds_below_root(before, offset, old_tree) ==> after.bytes == replaced(
        before.bytes,
        offset,
        old_tree,
        new_tree,
    )
}

/// An update gives what building anew gives. A cache that was built for one
/// value and then updated to another holds the bytes that a cache built for
/// the other value holds.
pub proof fn lemma_update_of_built(old_tree: Seq<u8>, new_tree: Seq<u8>, after: CacheView)
    requires
        old_tree.len() % 32 == 0,
        old_tree.len() >= 32,
        updated(CacheView::from_bytes(old_tree), after, 0, old_tree, new_tree),
    ensures
        after.bytes == CacheView::from_bytes(new_tree).bytes,
{
    let before = CacheView::from_bytes(old_tree);
    assert(before.bytes.subrange(32, 32 * chunks_of(old_tree)) =~= old_tree.subrange(
        32,
        old_tree.len() as int,
    ));
    assert(holds_below_root(before, 0, old_tree));
    assert(replaced(before.bytes, 0, old_tree, new_tree) =~= new_tree);
}

} // verus!
