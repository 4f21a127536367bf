//! The cache: the bytes of a tree, chunk by chunk, with a flag for each chunk
//! that tells whether the chunk was rewritten.

use std::ops::Range;
use vstd::prelude::*;
use vstd::slice::{slice_subrange, slice_to_vec};
use crate::encoding::{int_to_bytes8, le_bytes};
use crate::error::Error;
use crate::hashing::{digest, hash};
use crate::merkle::{chunk_at, merkleize, pad_for_leaf_count, write_chunk, BYTES_PER_CHUNK};
use crate::overlay::{lemma_padded_lengths, padded_lengths, total_chunks, BTreeOverlay};
use crate::pow2::{lemma_next_pow2_bounds, next_pow2};
use crate::subtrees::{
    all_trees, assemble, concat, lemma_assemble_len, lemma_concat_push, lemma_roots_len, roots,
};
use crate::tree_hash::{fits, CachedTreeHash};

verus! {

/// How many of `flags` are set.
pub open spec fn count_true(flags: Seq<bool>) -> nat
    decreases flags.len(),
{
    if flags.len() == 0 {
        0
    } else {
        count_true(flags.drop_last()) + if flags.last() {
            1nat
        } else {
            0nat
        }
    }
}

/// `count` flags, all of them `value`.
pub open spec fn flags(count: nat, value: bool) -> Seq<bool> {
    Seq::new(count, |i: int| value)
}

/// What a cache holds: the bytes of its tree, and for each chunk of them
/// whether the chunk was rewritten.
#[verifier::ext_equal]
pub struct CacheView {
    pub bytes: Seq<u8>,
    pub modified: Seq<bool>,
}

impl CacheView {
    /// The bytes are whole chunks, with one flag for each.
    pub open spec fn wf(self) -> bool {
        self.bytes.len() == 32 * self.modified.len()
    }

    /// Number of chunks in the cache.
    pub open spec fn num_chunks(self) -> nat {
        self.modified.len()
    }

    /// The bytes of chunk `i`.
    pub open spec fn chunk(self, i: int) -> Seq<u8> {
        chunk_at(self.bytes, i)
    }

    /// No chunk is marked as modified.
    pub open spec fn unmodified(self) -> bool {
        forall|i: int| 0 <= i < self.modified.len() ==> !self.modified[i]
    }

    /// A cache of the given tree bytes in which nothing is modified yet.
    pub open spec fn from_bytes(bytes: Seq<u8>) -> CacheView {
        CacheView { bytes, modified: flags(bytes.len() / 32, false) }
    }

    /// The cache after chunk `i` was overwritten with `to`: the chunk holds
    /// `to` and is marked as modified, and nothing else has changed.
    pub open spec fn with_chunk(self, i: int, to: Seq<u8>) -> CacheView {
        CacheView {
            bytes: self.bytes.subrange(0, 32 * i) + to + self.bytes.subrange(
                32 * i + 32,
                self.bytes.len() as int,
            ),
            modified: self.modified.update(i, true),
        }
    }

    /// The cache after the chunks from `start` up to `end` were replaced by
    /// `with`: the chunks before and behind them are as they were, flags
    /// included, and the new chunks are marked as modified.
    pub open spec fn splice(self, start: int, end: int, with: Seq<u8>) -> CacheView {
        CacheView {
            bytes: self.bytes.subrange(0, 32 * start) + with + self.bytes.subrange(
                32 * end,
                self.bytes.len() as int,
            ),
            modified: self.modified.subrange(0, start) + flags(with.len() / 32, true)
                + self.modified.subrange(end, self.modified.len() as int),
        }
    }

    /// What chunk `i` becomes when `length` is mixed into it: the digest of
    /// the chunk followed by the length as eight little-endian bytes.
    pub open spec fn mixed_chunk(self, i: int, length: u64) -> Seq<u8> {
        digest(self.chunk(i) + le_bytes(length))
    }

    /// The cache after `length` was mixed into chunk `i`.
    pub open spec fn mix_in_length(self, i: int, length: u64) -> CacheView {
        self.splice(i, i + 1, self.mixed_chunk(i, length))
    }

    /// Number of chunks that are marked as modified.
    pub open spec fn total_modifications(self) -> nat {
        count_true(self.modified)
    }
}

/// Replacing one chunk by one chunk is overwriting it.
pub proof fn lemma_splice_one_chunk(cache: CacheView, i: int, to: Seq<u8>)
    requires
        cache.wf(),
        0 <= i < cache.num_chunks(),
        to.len() == 32,
    ensures
        cache.splice(i, i + 1, to) == cache.with_chunk(i, to),
        cache.with_chunk(i, to).wf(),
        cache.with_chunk(i, to).chunk(i) == to,
        cache.with_chunk(i, to).num_chunks() == cache.num_chunks(),
        forall|k: int|
            0 <= k < cache.num_chunks() && k != i ==> #[trigger] cache.with_chunk(i, to).chunk(k)
                == cache.chunk(k),
{
    let spliced = cache.splice(i, i + 1, to);
    let written = cache.with_chunk(i, to);
    assert(spliced.modified =~= written.modified);
    assert(spliced =~= written);
    assert(written.chunk(i) =~= to);
    assert forall|k: int| 0 <= k < cache.num_chunks() && k != i implies #[trigger] written.chunk(
        k,
    ) == cache.chunk(k) by {
        assert(written.chunk(k) =~= cache.chunk(k));
    }
}

/// Mixing a length into a chunk twice is not mixing it in once: the second
/// call hashes what the first one left, the digest, not the chunk from before.
/// So a length is mixed in once for each time the chunk was rewritten, and
/// whoever calls `mix_in_length` sees to that.
pub proof fn lemma_mix_in_length_twice(cache: CacheView, i: int, length: u64)
    requires
        cache.wf(),
        0 <= i < cache.num_chunks(),
    ensures
        cache.mix_in_length(i, length).chunk(i) == digest(cache.chunk(i) + le_bytes(length)),
        cache.mix_in_length(i, length).mix_in_length(i, length).chunk(i) == digest(
            digest(cache.chunk(i) + le_bytes(length)) + le_bytes(length),
        ),
{
    let once = cache.mix_in_length(i, length);
    lemma_splice_one_chunk(cache, i, cache.mixed_chunk(i, length));
    lemma_splice_one_chunk(once, i, once.mixed_chunk(i, length));
}

/// The bytes of each of the caches.
pub open spec fn cache_trees(caches: Seq<TreeHashCache>) -> Seq<Seq<u8>> {
    Seq::new(caches.len(), |i: int| caches[i]@.bytes)
}

/// Appends `src` to `dst`.
pub fn append_bytes(dst: &mut Vec<u8>, src: &[u8])
    ensures
        final(dst)@ == old(dst)@ + src@,
{
    let mut i: usize = 0;
    while i < src.len()
        invariant
            i <= src@.len(),
            dst@ == old(dst)@ + src@.subrange(0, i as int),
        decreases src@.len() - i,
    {
        dst.push(src[i]);
        i += 1;
        assert(dst@ =~= old(dst)@ + src@.subrange(0, i as int));
    }
    assert(src@.subrange(0, i as int) =~= src@);
}

/// Whether two byte strings are the same.
pub fn bytes_equal(a: &[u8], b: &[u8]) -> (equal: bool)
    ensures
        equal == (a@ == b@),
{
    if a.len() != b.len() {
        return false;
    }
    let mut i: usize = 0;
    while i < a.len()
        invariant
            i <= a@.len(),
            a@.len() == b@.len(),
            a@.subrange(0, i as int) == b@.subrange(0, i as int),
        decreases a@.len() - i,
    {
        if a[i] != b[i] {
            return false;
        }
        assert(a@.subrange(0, i + 1) =~= a@.subrange(0, i as int).push(a@[i as int]));
        assert(b@.subrange(0, i + 1) =~= b@.subrange(0, i as int).push(b@[i as int]));
        i += 1;
    }
    assert(a@ =~= a@.subrange(0, i as int));
    assert(b@ =~= b@.subrange(0, i as int));
    true
}

/// The bytes of one value's hash tree, chunk by chunk, with a flag for each
/// chunk that tells whether the chunk was rewritten since the cache was made.
#[derive(Debug, PartialEq, Clone)]
pub struct TreeHashCache {
    cache: Vec<u8>,
    chunk_modified: Vec<bool>,
}

impl View for TreeHashCache {
    type V = CacheView;

    closed spec fn view(&self) -> CacheView {
        CacheView { bytes: self.cache@, modified: self.chunk_modified@ }
    }
}

impl TreeHashCache {
    /// Builds the cache of `item` from nothing.
    pub fn new<T>(item: &T) -> (res: Result<Self, Error>) where T: CachedTreeHash
        requires
            fits(item.tree()),
        ensures
            res matches Ok(cache) && cache@ == CacheView::from_bytes(item.tree()) && cache@.wf(),
    {
        item.build_tree_hash_cache()
    }

    /// Makes the cache of a value from the caches of its leaves, one cache for
    /// each leaf that `item` has: the roots of those caches are hashed into
    /// the internal nodes, and the caches follow whole, each where its root
    /// is a leaf. Leaves of zeros fill up to a power of two. A cache without
    /// a root cannot be a leaf.
    pub fn from_leaves_and_subtrees<T>(item: &T, leaves_and_subtrees: Vec<Self>) -> (res: Result<
        Self,
        Error,
    >) where T: CachedTreeHash
        requires
            fits(item.tree()),
            forall|i: int|
                0 <= i < leaves_and_subtrees@.len() ==> (#[trigger] leaves_and_subtrees@[i])@.wf(),
            item.leaf_lengths() matches Some(lengths) ==> lengths.len()
                == leaves_and_subtrees@.len() && total_chunks(padded_lengths(lengths))
                <= usize::MAX,
            64 * next_pow2(leaves_and_subtrees@.len()) <= usize::MAX,
            all_trees(cache_trees(leaves_and_subtrees@)) ==> fits(
                assemble(cache_trees(leaves_and_subtrees@)),
            ),
        ensures
            match res {
                Ok(cache) => {
                    &&& item.leaf_lengths() is Some
                    &&& all_trees(cache_trees(leaves_and_subtrees@))
                    &&& cache@ == CacheView::from_bytes(
                        assemble(cache_trees(leaves_and_subtrees@)),
                    )
                    &&& cache@.wf()
                },
                Err(e) => if item.leaf_lengths() is None {
                    e == Error::ShouldNotProduceBTreeOverlay
                } else {
                    e == Error::NoBytesForRoot && !all_trees(cache_trees(leaves_and_subtrees@))
                },
            },
    {
        proof {
            lemma_next_pow2_bounds(leaves_and_subtrees@.len());
            if item.leaf_lengths() is Some {
                lemma_padded_lengths(item.leaf_lengths()->Some_0);
            }
        }
        let offset_handler = match BTreeOverlay::new(item, 0) {
            Ok(overlay) => overlay,
            Err(e) => {
                return Err(e);
            },
        };
        Self::from_subtrees(&offset_handler, leaves_and_subtrees)
    }

    /// Makes a cache from the caches of the leaves that `offset_handler`
    /// lays out, as `from_leaves_and_subtrees` does for the leaves of an
    /// item.
    pub fn from_subtrees(offset_handler: &BTreeOverlay, leaves_and_subtrees: Vec<Self>) -> (res:
        Result<Self, Error>)
        requires
            offset_handler@.wf(),
            offset_handler@.num_leaf_nodes == next_pow2(leaves_and_subtrees@.len()),
            forall|i: int|
                0 <= i < leaves_and_subtrees@.len() ==> (#[trigger] leaves_and_subtrees@[i])@.wf(),
            64 * next_pow2(leaves_and_subtrees@.len()) <= usize::MAX,
            all_trees(cache_trees(leaves_and_subtrees@)) ==> fits(
                assemble(cache_trees(leaves_and_subtrees@)),
            ),
        ensures
            match res {
                Ok(cache) => {
                    &&& all_trees(cache_trees(leaves_and_subtrees@))
                    &&& cache@ == CacheView::from_bytes(
                        assemble(cache_trees(leaves_and_subtrees@)),
                    )
                    &&& cache@.wf()
                },
                Err(e) => e == Error::NoBytesForRoot && !all_trees(
                    cache_trees(leaves_and_subtrees@),
                ),
            },
    {
        let ghost trees = cache_trees(leaves_and_subtrees@);
        proof {
            lemma_next_pow2_bounds(leaves_and_subtrees@.len());
        }
        // Note how many leaves were provided. If is not a power-of-two, we'll need to pad it out
        // later.
        let num_provided_leaf_nodes = leaves_and_subtrees.len();

        // Fill all the to-be-built internal nodes with zeros, then append the leaves/subtrees.
        let internal_node_bytes = offset_handler.num_internal_nodes() * BYTES_PER_CHUNK;
        let mut cache: Vec<u8> = vec![0; internal_node_bytes];
        let mut leaves: Vec<u8> = Vec::new();

        // Iterate through all of the leaves/subtrees, adding their root as a leaf node and then
        // concatenating their merkle trees.
        let mut i: usize = 0;
        while i < leaves_and_subtrees.len()
            invariant
                i <= leaves_and_subtrees@.len(),
                trees == cache_trees(leaves_and_subtrees@),
                forall|k: int|
                    0 <= k < leaves_and_subtrees@.len() ==> (#[trigger] leaves_and_subtrees@[k])@.wf(),
                all_trees(trees.subrange(0, i as int)),
                leaves@ == roots(trees.subrange(0, i as int)),
                cache@.len() == internal_node_bytes + concat(trees.subrange(0, i as int)).len(),
                cache@.subrange(internal_node_bytes as int, cache@.len() as int) == concat(
                    trees.subrange(0, i as int),
                ),
            decreases leaves_and_subtrees@.len() - i,
        {
            let subtree = &leaves_and_subtrees[i];
            proof {
                lemma_concat_push(trees, i as int);
                assert(trees[i as int] == subtree@.bytes);
            }
            let mut root = match subtree.root() {
                Ok(root) => root,
                Err(e) => {
                    proof {
                        assert(trees[i as int].len() < 32);
                    }
                    return Err(e);
                },
            };
            leaves.append(&mut root);
            let ghost before = cache@;
            append_bytes(&mut cache, subtree.cache.as_slice());
            i += 1;
            proof {
                assert(cache@.subrange(internal_node_bytes as int, cache@.len() as int)
                    =~= before.subrange(internal_node_bytes as int, before.len() as int)
                    + subtree@.bytes);
                assert forall|k: int| 0 <= k < i implies (#[trigger] trees.subrange(
                    0,
                    i as int,
                )[k]).len() % 32 == 0 && trees.subrange(0, i as int)[k].len() >= 32 by {
                    if k < i - 1 {
                        assert(trees.subrange(0, i as int)[k] == trees.subrange(0, i - 1)[k]);
                    }
                }
            }
        }
        proof {
            assert(trees.subrange(0, i as int) =~= trees);
            lemma_roots_len(trees);
            lemma_assemble_len(trees);
        }

        // Pad the leaves to an even power-of-two, using zeros.
        pad_for_leaf_count(num_provided_leaf_nodes, &mut cache);

        // Merkleize the leaves, keep only the internal nodes, and let them take the place of
        // the zeros put down for them above.
        let mut merkleized = match merkleize(leaves) {
            Ok(tree) => tree,
            Err(e) => {
                return Err(e);
            },
        };
        merkleized.truncate(internal_node_bytes);
        let mut below = cache.split_off(internal_node_bytes);
        merkleized.append(&mut below);
        assert(merkleized@ =~= assemble(trees));

        let chunks = merkleized.len() / BYTES_PER_CHUNK;
        let built = Self { chunk_modified: vec![false; chunks], cache: merkleized };
        assert(built@.modified =~= flags(assemble(trees).len() / 32, false));
        Ok(built)
    }

    /// The bytes of a well-formed cache are 32 for each flag, and no more
    /// than a buffer can hold.
    proof fn lemma_bounds(&self)
        requires
            self@.wf(),
        ensures
            self.cache@.len() == 32 * self.chunk_modified@.len(),
            self.cache@.len() <= usize::MAX,
            self.cache@ == self@.bytes,
            self.chunk_modified@ == self@.modified,
    {
        assert(self.cache.len() <= usize::MAX);
    }

    /// Number of bytes in the cache.
    pub fn bytes_len(&self) -> (len: usize)
        ensures
            len == self@.bytes.len(),
    {
        self.cache.len()
    }

    /// The root of the tree: the first chunk of the cache.
    pub fn root(&self) -> (res: Result<Vec<u8>, Error>)
        ensures
            match res {
                Ok(root) => self@.bytes.len() >= 32 && root@ == self@.chunk(0),
                Err(e) => self@.bytes.len() < 32 && e == Error::NoBytesForRoot,
            },
    {
        if self.cache.len() >= BYTES_PER_CHUNK {
            Ok(slice_to_vec(slice_subrange(self.cache.as_slice(), 0, BYTES_PER_CHUNK)))
        } else {
            Err(Error::NoBytesForRoot)
        }
    }

    /// Takes `bytes` as the bytes of a tree, with no chunk modified. Bytes
    /// that are not whole chunks are refused.
    pub fn from_bytes(bytes: Vec<u8>) -> (res: Result<Self, Error>)
        ensures
            match res {
                Ok(cache) => bytes@.len() % 32 == 0 && cache@ == CacheView::from_bytes(bytes@)
                    && cache@.wf() && cache@.unmodified(),
                Err(e) => bytes@.len() % 32 != 0 && e == Error::BytesAreNotEvenChunks(
                    bytes@.len() as usize,
                ),
            },
    {
        if bytes.len() % BYTES_PER_CHUNK > 0 {
            return Err(Error::BytesAreNotEvenChunks(bytes.len()));
        }
        let chunks = bytes.len() / BYTES_PER_CHUNK;
        let cache = Self { chunk_modified: vec![false; chunks], cache: bytes };
        assert(cache@.modified =~= flags(bytes@.len() / 32, false));
        Ok(cache)
    }

    /// Replaces chunk `root_chunk` by the digest of that chunk and `length`,
    /// the length as eight little-endian bytes, and marks the chunk as
    /// modified. Every call hashes what the chunk holds at that moment: see
    /// `lemma_mix_in_length_twice`.
    pub fn mix_in_length(&mut self, root_chunk: usize, length: usize) -> (res: Result<(), Error>)
        requires
            old(self)@.wf(),
        ensures
            final(self)@.wf(),
            match res {
                Ok(_) => root_chunk < old(self)@.num_chunks() && final(self)@ == old(
                    self,
                )@.mix_in_length(root_chunk as int, length as u64),
                Err(e) => root_chunk >= old(self)@.num_chunks() && e == Error::NoBytesForRoot
                    && final(self)@ == old(self)@,
            },
    {
        let mut mixed_in = match self.get_chunk(root_chunk) {
            Ok(chunk) => slice_to_vec(chunk),
            Err(_) => {
                return Err(Error::NoBytesForRoot);
            },
        };
        let mut length_bytes = int_to_bytes8(length as u64);
        mixed_in.append(&mut length_bytes);

        self.single_chunk_splice(root_chunk, hash(mixed_in.as_slice()));

        Ok(())
    }

    /// Replaces chunk `chunk` by the chunks in `replace_with`, which are
    /// marked as modified, and returns the bytes that the chunk held.
    pub fn single_chunk_splice(&mut self, chunk: usize, replace_with: Vec<u8>) -> (removed: Vec<
        u8,
    >)
        requires
            old(self)@.wf(),
            chunk < old(self)@.num_chunks(),
            replace_with@.len() % 32 == 0,
        ensures
            final(self)@.wf(),
            final(self)@ == old(self)@.splice(chunk as int, chunk + 1, replace_with@),
            removed@ == old(self)@.chunk(chunk as int),
    {
        proof {
            self.lemma_bounds();
        }
        self.chunk_splice(chunk..chunk + 1, replace_with)
    }

    /// Replaces the chunks from `chunk_range.start` up to `chunk_range.end`
    /// by the chunks in `replace_with`, of which there may be more or fewer,
    /// and returns the bytes that were replaced. The chunks behind the range
    /// move as far as the lengths differ; the new chunks are marked as
    /// modified.
    pub fn chunk_splice(&mut self, chunk_range: Range<usize>, replace_with: Vec<u8>) -> (removed:
        Vec<u8>)
        requires
            old(self)@.wf(),
            chunk_range.start <= chunk_range.end <= old(self)@.num_chunks(),
            replace_with@.len() % 32 == 0,
        ensures
            final(self)@.wf(),
            final(self)@ == old(self)@.splice(
                chunk_range.start as int,
                chunk_range.end as int,
                replace_with@,
            ),
            removed@ == old(self)@.bytes.subrange(
                32 * chunk_range.start,
                32 * chunk_range.end as int,
            ),
    {
        proof {
            self.lemma_bounds();
        }
        let mut replace_with = replace_with;
        let ghost before = self@;
        let ghost with = replace_with@;
        let new_chunks = replace_with.len() / BYTES_PER_CHUNK;
        let byte_start = chunk_range.start * BYTES_PER_CHUNK;
        let byte_end = chunk_range.end * BYTES_PER_CHUNK;

        let mut tail = self.cache.split_off(byte_end);
        let removed = self.cache.split_off(byte_start);
        self.cache.append(&mut replace_with);
        self.cache.append(&mut tail);

        let mut tail_flags = self.chunk_modified.split_off(chunk_range.end);
        self.chunk_modified.truncate(chunk_range.start);
        let mut k: usize = 0;
        while k < new_chunks
            invariant
                k <= new_chunks,
                chunk_range.start <= before.modified.len(),
                self.chunk_modified@ == before.modified.subrange(0, chunk_range.start as int)
                    + flags(k as nat, true),
                self.cache@ == before.bytes.subrange(0, 32 * chunk_range.start) + with
                    + before.bytes.subrange(32 * chunk_range.end, before.bytes.len() as int),
            decreases new_chunks - k,
        {
            self.chunk_modified.push(true);
            k += 1;
            assert(self.chunk_modified@ =~= before.modified.subrange(0, chunk_range.start as int)
                + flags(k as nat, true));
        }
        self.chunk_modified.append(&mut tail_flags);
        assert(self@ =~= before.splice(chunk_range.start as int, chunk_range.end as int, with));
        removed
    }

    /// The bytes of the chunks from `chunk_range.start` up to
    /// `chunk_range.end`, to be written in place. Writing through the slice
    /// marks no chunk as modified.
    pub fn chunk_slice_mut(&mut self, chunk_range: Range<usize>) -> (res: Result<&mut [u8], Error>)
        requires
            old(self)@.wf(),
            chunk_range.start * 32 <= usize::MAX,
            chunk_range.end * 32 <= usize::MAX,
        ensures
            match res {
                Ok(slice) => {
                    &&& chunk_range.start <= chunk_range.end <= old(self)@.num_chunks()
                    &&& slice@ == old(self)@.bytes.subrange(
                        32 * chunk_range.start,
                        32 * chunk_range.end,
                    )
                    &&& final(self)@.bytes == old(self)@.bytes.subrange(0, 32 * chunk_range.start)
                        + final(slice)@ + old(self)@.bytes.subrange(
                        32 * chunk_range.end,
                        old(self)@.bytes.len() as int,
                    )
                    &&& final(self)@.modified == old(self)@.modified
                    &&& final(slice)@.len() == slice@.len() ==> final(self)@.wf()
                },
                Err(e) => {
                    &&& !(chunk_range.start <= chunk_range.end <= old(self)@.num_chunks())
                    &&& e == Error::NoBytesForChunk((chunk_range.end * 32) as usize)
                    &&& final(self)@ == old(self)@
                },
            },
    {
        proof {
            self.lemma_bounds();
        }
        let byte_start = chunk_range.start * BYTES_PER_CHUNK;
        let byte_end = chunk_range.end * BYTES_PER_CHUNK;

        if byte_start <= byte_end && byte_end <= self.cache.len() {
            let (_head, rest) = self.cache.as_mut_slice().split_at_mut(byte_start);
            let (slice, _tail) = rest.split_at_mut(byte_end - byte_start);
            Ok(slice)
        } else {
            Err(Error::NoBytesForChunk(byte_end))
        }
    }

    /// Overwrites chunk `chunk` with `to` and marks it as modified, unless it
    /// holds `to` already: then nothing changes. `None` if there is no such
    /// chunk.
    pub fn maybe_update_chunk(&mut self, chunk: usize, to: &[u8]) -> (res: Option<()>)
        requires
            old(self)@.wf(),
            to@.len() == 32,
        ensures
            final(self)@.wf(),
            match res {
                Some(_) => chunk < old(self)@.num_chunks() && final(self)@ == (if old(
                    self,
                )@.chunk(chunk as int) == to@ {
                    old(self)@
                } else {
                    old(self)@.with_chunk(chunk as int, to@)
                }),
                None => chunk >= old(self)@.num_chunks() && final(self)@ == old(self)@,
            },
    {
        proof {
            self.lemma_bounds();
        }
        match self.chunk_equals(chunk, to) {
            None => None,
            Some(equal) => {
                if !equal {
                    let start = chunk * BYTES_PER_CHUNK;
                    write_chunk(&mut self.cache, start, to);
                    self.chunk_modified.set(chunk, true);
                }
                Some(())
            },
        }
    }

    /// Overwrites chunk `chunk` with `to` and marks it as modified.
    pub fn modify_chunk(&mut self, chunk: usize, to: &[u8]) -> (res: Result<(), Error>)
        requires
            old(self)@.wf(),
            to@.len() == 32,
        ensures
            final(self)@.wf(),
            match res {
                Ok(_) => chunk < old(self)@.num_chunks() && final(self)@ == old(self)@.with_chunk(
                    chunk as int,
                    to@,
                ),
                Err(e) => chunk >= old(self)@.num_chunks() && e == Error::NoBytesForChunk(chunk)
                    && final(self)@ == old(self)@,
            },
    {
        proof {
            self.lemma_bounds();
        }
        if chunk >= self.chunk_modified.len() {
            return Err(Error::NoBytesForChunk(chunk));
        }
        let start = chunk * BYTES_PER_CHUNK;
        write_chunk(&mut self.cache, start, to);

        self.chunk_modified.set(chunk, true);

        Ok(())
    }

    /// Whether chunk `chunk` holds exactly the bytes `other`. `None` if
    /// there is no such chunk.
    pub fn chunk_equals(&mut self, chunk: usize, other: &[u8]) -> (res: Option<bool>)
        requires
            old(self)@.wf(),
        ensures
            final(self)@ == old(self)@,
            match res {
                Some(equal) => chunk < old(self)@.num_chunks() && equal == (old(self)@.chunk(
                    chunk as int,
                ) == other@),
                None => chunk >= old(self)@.num_chunks(),
            },
    {
        proof {
            self.lemma_bounds();
        }
        if chunk >= self.chunk_modified.len() {
            return None;
        }
        let start = chunk * BYTES_PER_CHUNK;
        let end = start + BYTES_PER_CHUNK;

        Some(bytes_equal(slice_subrange(self.cache.as_slice(), start, end), other))
    }

    /// The bytes of chunk `chunk`.
    pub fn get_chunk(&self, chunk: usize) -> (res: Result<&[u8], Error>)
        requires
            self@.wf(),
        ensures
            match res {
                Ok(bytes) => chunk < self@.num_chunks() && bytes@ == self@.chunk(chunk as int),
                Err(e) => chunk >= self@.num_chunks() && e == Error::NoBytesForChunk(chunk),
            },
    {
        proof {
            self.lemma_bounds();
        }
        if chunk >= self.chunk_modified.len() {
            return Err(Error::NoBytesForChunk(chunk));
        }
        let start = chunk * BYTES_PER_CHUNK;
        let end = start + BYTES_PER_CHUNK;

        Ok(slice_subrange(self.cache.as_slice(), start, end))
    }

    /// Whether chunk `chunk` is marked as modified.
    pub fn changed(&self, chunk: usize) -> (res: Result<bool, Error>)
        ensures
            match res {
                Ok(modified) => chunk < self@.num_chunks() && modified == self@.modified[chunk as int],
                Err(e) => chunk >= self@.num_chunks() && e == Error::NoModifiedFieldForChunk(
                    chunk,
                ),
            },
    {
        if chunk < self.chunk_modified.len() {
            Ok(self.chunk_modified[chunk])
        } else {
            Err(Error::NoModifiedFieldForChunk(chunk))
        }
    }

    /// Whether one of the two chunks is marked as modified. Of two chunks
    /// that the cache lacks, the first is reported.
    pub fn either_modified(&self, children: (&usize, &usize)) -> (res: Result<bool, Error>)
        ensures
            match res {
                Ok(modified) => {
                    &&& *children.0 < self@.num_chunks()
                    &&& *children.1 < self@.num_chunks()
                    &&& modified == (self@.modified[*children.0 as int]
                        || self@.modified[*children.1 as int])
                },
                Err(e) => if *children.0 >= self@.num_chunks() {
                    e == Error::NoModifiedFieldForChunk(*children.0)
                } else {
                    *children.1 >= self@.num_chunks() && e == Error::NoModifiedFieldForChunk(
                        *children.1,
                    )
                },
            },
    {
        let left = self.changed(*children.0)?;
        let right = self.changed(*children.1)?;
        Ok(left || right)
    }

    /// The digest of the two chunks that start at chunk `children.0`. Where
    /// `children.1` is the chunk behind `children.0`, this is the parent of
    /// the two children.
    pub fn hash_children(&self, children: (&usize, &usize)) -> (res: Result<Vec<u8>, Error>)
        requires
            self@.wf(),
        ensures
            match res {
                Ok(parent) => {
                    &&& *children.0 + 2 <= self@.num_chunks()
                    &&& parent@ == digest(
                        self@.bytes.subrange(32 * *children.0, 32 * *children.0 + 64),
                    )
                    &&& parent@ == digest(
                        self@.chunk(*children.0 as int) + self@.chunk(*children.0 + 1),
                    )
                    &&& parent@.len() == 32
                },
                Err(e) => *children.0 + 2 > self@.num_chunks() && e == Error::NoChildrenForHashing(
                    (*children.0, *children.1),
                ),
            },
    {
        proof {
            self.lemma_bounds();
        }
        let left = *children.0;
        if self.chunk_modified.len() < 2 || left > self.chunk_modified.len() - 2 {
            return Err(Error::NoChildrenForHashing((*children.0, *children.1)));
        }
        let start = left * BYTES_PER_CHUNK;
        let end = start + BYTES_PER_CHUNK * 2;

        let children = slice_subrange(self.cache.as_slice(), start, end);
        assert(children@ =~= self@.chunk(left as int) + self@.chunk(left + 1));

        Ok(hash(children))
    }

    /// Number of chunks that are marked as modified.
    pub fn total_modifications(&self) -> (count: usize)
        ensures
            count == self@.total_modifications(),
    {
        let mut count: usize = 0;
        let mut i: usize = 0;
        while i < self.chunk_modified.len()
            invariant
                i <= self.chunk_modified@.len(),
                count <= i,
                count == count_true(self.chunk_modified@.subrange(0, i as int)),
            decreases self.chunk_modified@.len() - i,
        {
            assert(self.chunk_modified@.subrange(0, i + 1).drop_last()
                =~= self.chunk_modified@.subrange(0, i as int));
            if self.chunk_modified[i] {
                count += 1;
            }
            i += 1;
        }
        assert(self.chunk_modified@.subrange(0, i as int) =~= self.chunk_modified@);
        count
    }

    /// The buffer that holds the bytes of the tree: what the cache is
    /// converted into.
    pub closed spec fn tree_bytes(self) -> Vec<u8> {
        self.cache
    }

    /// The buffer of a cache holds the bytes of the cache.
    pub proof fn lemma_tree_bytes(self)
        ensures
            self.tree_bytes()@ == self@.bytes,
    {
    }

    /// Gives up the cache for the bytes of its tree.
    pub fn into_merkle_tree(self) -> (bytes: Vec<u8>)
        ensures
            bytes@ == self@.bytes,
    {
        self.cache
    }
}

impl From<TreeHashCache> for Vec<u8> {
    /// Gives up the cache for the bytes of its tree.
    fn from(cache: TreeHashCache) -> (bytes: Vec<u8>) {
        cache.cache
    }
}

impl vstd::std_specs::convert::FromSpecImpl<TreeHashCache> for Vec<u8> {
    open spec fn obeys_from_spec() -> bool {
        true
    }

    open spec fn from_spec(cache: TreeHashCache) -> Vec<u8> {
        cache.tree_bytes()
    }
}

/// A cache taken over from bytes gives the same bytes back.
pub proof fn lemma_round_trip(bytes: Seq<u8>)
    ensures
        CacheView::from_bytes(bytes).bytes == bytes,
        bytes.len() % 32 == 0 ==> CacheView::from_bytes(bytes).wf(),
        CacheView::from_bytes(bytes).unmodified(),
        CacheView::from_bytes(bytes).total_modifications() == 0,
{
    lemma_count_true_none(CacheView::from_bytes(bytes).modified);
}

/// Where no flag is set, none is counted.
pub proof fn lemma_count_true_none(modified: Seq<bool>)
    requires
        forall|i: int| 0 <= i < modified.len() ==> !modified[i],
    ensures
        count_true(modified) == 0,
    decreases modified.len(),
{
    if modified.len() > 0 {
        lemma_count_true_none(modified.drop_last());
    }
}

} // verus!
