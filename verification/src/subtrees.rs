//! Trees that hang from the leaves of a tree: how they are put together.

use vstd::prelude::*;
use crate::encoding::le_bytes;
use crate::hashing::digest;
use crate::merkle::{chunk_at, merkle_tree, pad_zeros, tree_node, zeros};
use crate::pow2::{lemma_next_pow2_bounds, next_pow2};

verus! {

/// The parts one after another.
pub open spec fn concat(parts: Seq<Seq<u8>>) -> Seq<u8>
    decreases parts.len(),
{
    if parts.len() == 0 {
        Seq::empty()
    } else {
        concat(parts.drop_last()) + parts.last()
    }
}

/// The roots of the trees one after another: the first chunk of each.
pub open spec fn roots(trees: Seq<Seq<u8>>) -> Seq<u8>
    decreases trees.len(),
{
    if trees.len() == 0 {
        Seq::empty()
    } else {
        roots(trees.drop_last()) + trees.last().subrange(0, 32)
    }
}

/// Whether each of the trees is whole chunks and has a root.
pub open spec fn all_trees(trees: Seq<Seq<u8>>) -> bool {
    forall|i: int| 0 <= i < trees.len() ==> (#[trigger] trees[i]).len() % 32 == 0 && trees[i].len()
        >= 32
}

/// The tree whose leaves are the roots of `trees`: the internal nodes that
/// hash those roots, padded with leaves of zeros to a power of two, and then
/// the trees themselves whole, each where its root is a leaf, and the leaves
/// of zeros.
pub open spec fn assemble(trees: Seq<Seq<u8>>) -> Seq<u8> {
    let leaves = next_pow2(trees.len());
    merkle_tree(pad_zeros(roots(trees))).subrange(0, (leaves - 1) * 32) + concat(trees) + zeros(
        ((leaves - trees.len()) * 32) as nat,
    )
}

/// The tree with `length` mixed into its root: the root gives way to the
/// digest of itself and the length as eight little-endian bytes.
pub open spec fn mix_root(tree: Seq<u8>, length: u64) -> Seq<u8> {
    digest(tree.subrange(0, 32) + le_bytes(length)) + tree.subrange(32, tree.len() as int)
}

/// One part more makes the whole longer by that part.
pub proof fn lemma_concat_push(parts: Seq<Seq<u8>>, count: int)
    requires
        0 <= count < parts.len(),
    ensures
        concat(parts.subrange(0, count + 1)) == concat(parts.subrange(0, count)) + parts[count],
        roots(parts.subrange(0, count + 1)) == roots(parts.subrange(0, count))
            + parts[count].subrange(0, 32),
{
    assert(parts.subrange(0, count + 1).drop_last() =~= parts.subrange(0, count));
}

/// The roots of `k` trees are `k` chunks.
pub proof fn lemma_roots_len(trees: Seq<Seq<u8>>)
    requires
        all_trees(trees),
    ensures
        roots(trees).len() == 32 * trees.len(),
        concat(trees).len() >= 32 * trees.len(),
        concat(trees).len() % 32 == 0,
    decreases trees.len(),
{
    if trees.len() > 0 {
        assert(trees.last() == trees[trees.len() - 1]);
        let front = trees.drop_last();
        assert forall|i: int| 0 <= i < front.len() implies (#[trigger] front[i]).len() % 32 == 0
            && front[i].len() >= 32 by {
            assert(front[i] == trees[i]);
        }
        lemma_roots_len(front);
    }
}

/// The byte at which part `i` starts within the parts put one after another.
pub open spec fn part_start(parts: Seq<Seq<u8>>, i: int) -> int {
    concat(parts.subrange(0, i)).len() as int
}

/// Each part lies whole within the parts put one after another, from its
/// start on.
pub proof fn lemma_concat_part(parts: Seq<Seq<u8>>, i: int)
    requires
        0 <= i < parts.len(),
    ensures
        part_start(parts, i) + parts[i].len() <= concat(parts).len(),
        part_start(parts, i + 1) == part_start(parts, i) + parts[i].len(),
        concat(parts).subrange(part_start(parts, i), part_start(parts, i) + parts[i].len())
            == parts[i],
    decreases parts.len(),
{
    let start = part_start(parts, i);
    let end = start + parts[i].len();
    lemma_concat_push(parts, i);
    if i == parts.len() - 1 {
        assert(parts.subrange(0, i) =~= parts.drop_last());
        assert(concat(parts).subrange(start, end) =~= parts[i]);
    } else {
        lemma_concat_part(parts.drop_last(), i);
        assert(parts.drop_last().subrange(0, i) =~= parts.subrange(0, i));
        assert(concat(parts).subrange(start, end) =~= concat(parts.drop_last()).subrange(
            start,
            end,
        ));
    }
}

/// Parts start one behind the other.
pub proof fn lemma_part_start_monotone(parts: Seq<Seq<u8>>, i: int, j: int)
    requires
        0 <= i <= j <= parts.len(),
    ensures
        part_start(parts, i) <= part_start(parts, j),
    decreases j - i,
{
    if i < j {
        lemma_part_start_monotone(parts, i, j - 1);
        lemma_concat_part(parts, j - 1);
    }
}

/// An assembled tree is whole chunks: one for each internal node, the trees
/// below, and one for each leaf of zeros.
pub proof fn lemma_assemble_len(trees: Seq<Seq<u8>>)
    requires
        all_trees(trees),
    ensures
        assemble(trees).len() == (next_pow2(trees.len()) - 1) * 32 + concat(trees).len() + (
        next_pow2(trees.len()) - trees.len()) * 32,
        assemble(trees).len() % 32 == 0,
        assemble(trees).len() >= 32 * next_pow2(trees.len()),
        assemble(trees).len() >= 32,
{
    lemma_roots_len(trees);
    lemma_next_pow2_bounds(trees.len());
    crate::merkle::lemma_pad_zeros(roots(trees));
    let leaves = pad_zeros(roots(trees));
    assert(crate::merkle::chunks_for(roots(trees).len()) == trees.len());
    assert(leaves.len() == next_pow2(trees.len()) * 32);
    assert(merkle_tree(leaves).len() == (2 * next_pow2(trees.len()) - 1) * 32);
}

/// The roots of trees hold the root of each tree, chunk by chunk.
pub proof fn lemma_roots_chunk(trees: Seq<Seq<u8>>, i: int)
    requires
        all_trees(trees),
        0 <= i < trees.len(),
    ensures
        chunk_at(roots(trees), i) == trees[i].subrange(0, 32),
    decreases trees.len(),
{
    let front = trees.drop_last();
    assert forall|j: int| 0 <= j < front.len() implies (#[trigger] front[j]).len() % 32 == 0
        && front[j].len() >= 32 by {
        assert(front[j] == trees[j]);
    }
    lemma_roots_len(front);
    if i == trees.len() - 1 {
        assert(chunk_at(roots(trees), i) =~= trees[i].subrange(0, 32));
    } else {
        lemma_roots_chunk(front, i);
        assert(chunk_at(roots(trees), i) =~= chunk_at(roots(front), i));
    }
}

/// The three parts of an assembled tree: the internal nodes over the roots,
/// the trees one after another, and the leaves of zeros.
pub proof fn lemma_assemble_parts(trees: Seq<Seq<u8>>)
    requires
        all_trees(trees),
    ensures
        assemble(trees).subrange(0, (next_pow2(trees.len()) - 1) * 32) == merkle_tree(
            pad_zeros(roots(trees)),
        ).subrange(0, (next_pow2(trees.len()) - 1) * 32),
        assemble(trees).subrange(
            (next_pow2(trees.len()) - 1) * 32,
            (next_pow2(trees.len()) - 1) * 32 + concat(trees).len(),
        ) == concat(trees),
        assemble(trees).subrange(
            (next_pow2(trees.len()) - 1) * 32 + concat(trees).len(),
            assemble(trees).len() as int,
        ) == zeros(((next_pow2(trees.len()) - trees.len()) * 32) as nat),
        pad_zeros(roots(trees)).len() == 32 * next_pow2(trees.len()),
        merkle_tree(pad_zeros(roots(trees))).len() == (2 * next_pow2(trees.len()) - 1) * 32,
{
    lemma_assemble_len(trees);
    lemma_roots_len(trees);
    lemma_next_pow2_bounds(trees.len());
    crate::merkle::lemma_pad_zeros(roots(trees));
    assert(crate::merkle::chunks_for(roots(trees).len()) == trees.len());
    let leaves = next_pow2(trees.len()) as int;
    let tree = assemble(trees);
    assert(tree.subrange(0, (leaves - 1) * 32) =~= merkle_tree(pad_zeros(roots(trees))).subrange(
        0,
        (leaves - 1) * 32,
    ));
    assert(tree.subrange((leaves - 1) * 32, (leaves - 1) * 32 + concat(trees).len()) =~= concat(
        trees,
    ));
    assert(tree.subrange((leaves - 1) * 32 + concat(trees).len(), tree.len() as int) =~= zeros(
        ((leaves - trees.len()) * 32) as nat,
    ));
}

/// The byte at which the first leaf of an assembled tree of `count` trees
/// starts, when the tree starts at chunk `offset`.
pub open spec fn first_leaf_byte(offset: int, count: nat) -> int {
    32 * (offset + next_pow2(count) - 1)
}

/// Whether `bytes` hold, from chunk `offset` on, the bytes of `tree` from
/// byte `from` of the tree on.
pub open spec fn holds_from(bytes: Seq<u8>, offset: int, tree: Seq<u8>, from: int) -> bool {
    &&& 0 <= offset
    &&& 32 * offset + tree.len() <= bytes.len()
    &&& forall|x: int| from <= x < tree.len() ==> bytes[32 * offset + x] == #[trigger] tree[x]
}

/// Bytes that hold a tree hold every stretch of it.
pub proof fn lemma_holds_stretch(
    bytes: Seq<u8>,
    offset: int,
    tree: Seq<u8>,
    from: int,
    start: int,
    end: int,
)
    requires
        holds_from(bytes, offset, tree, from),
        0 <= from <= start <= end <= tree.len(),
    ensures
        bytes.subrange(32 * offset + start, 32 * offset + end) == tree.subrange(start, end),
{
    let left = bytes.subrange(32 * offset + start, 32 * offset + end);
    let right = tree.subrange(start, end);
    assert forall|b: int| 0 <= b < end - start implies left[b] == right[b] by {
        assert(bytes[32 * offset + (start + b)] == tree[start + b]);
    }
    assert(left =~= right);
}

/// Bytes that hold a tree with a length mixed into its root hold the tree
/// itself below its root.
pub proof fn lemma_holds_unmixed(bytes: Seq<u8>, offset: int, tree: Seq<u8>, length: u64)
    requires
        0 <= offset,
        tree.len() >= 32,
        32 * offset + tree.len() <= bytes.len(),
        bytes.subrange(32 * (offset + 1), 32 * offset + tree.len()) == mix_root(
            tree,
            length,
        ).subrange(32, tree.len() as int),
    ensures
        holds_from(bytes, offset, tree, 32),
{
    let held = bytes.subrange(32 * (offset + 1), 32 * offset + tree.len());
    assert(mix_root(tree, length).subrange(32, tree.len() as int) =~= tree.subrange(
        32,
        tree.len() as int,
    ));
    assert forall|x: int| 32 <= x < tree.len() implies bytes[32 * offset + x] == #[trigger] tree[x] by {
        assert(held[x - 32] == tree.subrange(32, tree.len() as int)[x - 32]);
    }
}

/// Bytes that hold an assembled tree below its root hold its internal nodes
/// below the root.
pub proof fn lemma_holds_internal(bytes: Seq<u8>, offset: int, trees: Seq<Seq<u8>>, p: int)
    requires
        all_trees(trees),
        holds_from(bytes, offset, assemble(trees), 32),
        1 <= p < next_pow2(trees.len()) - 1,
    ensures
        chunk_at(bytes, offset + p) == tree_node(pad_zeros(roots(trees)), p as nat),
{
    let leaves = next_pow2(trees.len()) as int;
    lemma_assemble_parts(trees);
    lemma_assemble_len(trees);
    lemma_holds_stretch(bytes, offset, assemble(trees), 32, 32 * p, 32 * p + 32);
    crate::merkle::lemma_merkle_tree_chunk(pad_zeros(roots(trees)), p as nat);
    let whole = merkle_tree(pad_zeros(roots(trees)));
    assert(assemble(trees).subrange(32 * p, 32 * p + 32) =~= assemble(trees).subrange(
        0,
        (leaves - 1) * 32,
    ).subrange(32 * p, 32 * p + 32));
    assert(whole.subrange(0, (leaves - 1) * 32).subrange(32 * p, 32 * p + 32) =~= chunk_at(
        whole,
        p,
    ));
}

/// Bytes that hold an assembled tree below its root hold each of its trees
/// from byte `skip` of that tree on: from 32 on in any case, and whole
/// where the tree has internal nodes, so that no leaf is the root.
pub proof fn lemma_holds_subtree(
    bytes: Seq<u8>,
    offset: int,
    trees: Seq<Seq<u8>>,
    i: int,
    skip: int,
)
    requires
        all_trees(trees),
        holds_from(bytes, offset, assemble(trees), 32),
        0 <= i < trees.len(),
        skip == 32 || (skip == 0 && next_pow2(trees.len()) >= 2),
    ensures
        bytes.subrange(
            first_leaf_byte(offset, trees.len()) + part_start(trees, i) + skip,
            first_leaf_byte(offset, trees.len()) + part_start(trees, i) + trees[i].len(),
        ) == trees[i].subrange(skip, trees[i].len() as int),
{
    let leaves = next_pow2(trees.len()) as int;
    let start = part_start(trees, i);
    let base = (leaves - 1) * 32;
    lemma_assemble_parts(trees);
    lemma_assemble_len(trees);
    lemma_next_pow2_bounds(trees.len());
    lemma_concat_part(trees, i);
    lemma_holds_stretch(
        bytes,
        offset,
        assemble(trees),
        32,
        base + start + skip,
        base + start + trees[i].len(),
    );
    assert(assemble(trees).subrange(base + start + skip, base + start + trees[i].len())
        =~= assemble(trees).subrange(base, base + concat(trees).len()).subrange(
        start + skip,
        start + trees[i].len(),
    ));
    assert(concat(trees).subrange(start + skip, start + trees[i].len()) =~= concat(trees).subrange(
        start,
        start + trees[i].len(),
    ).subrange(skip, trees[i].len() as int));
}

/// Bytes that hold an assembled tree of one tree or more below its root
/// hold its leaves of zeros.
pub proof fn lemma_holds_padding(bytes: Seq<u8>, offset: int, trees: Seq<Seq<u8>>)
    requires
        all_trees(trees),
        holds_from(bytes, offset, assemble(trees), 32),
        trees.len() >= 1,
    ensures
        bytes.subrange(
            first_leaf_byte(offset, trees.len()) + concat(trees).len(),
            32 * offset + assemble(trees).len(),
        ) == zeros(((next_pow2(trees.len()) - trees.len()) * 32) as nat),
{
    let leaves = next_pow2(trees.len()) as int;
    let base = (leaves - 1) * 32;
    lemma_assemble_parts(trees);
    lemma_assemble_len(trees);
    lemma_roots_len(trees);
    lemma_next_pow2_bounds(trees.len());
    lemma_holds_stretch(
        bytes,
        offset,
        assemble(trees),
        32,
        base + concat(trees).len(),
        assemble(trees).len() as int,
    );
}

} // verus!
