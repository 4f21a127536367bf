//! Hashing a whole tree from its leaves, and the padding of leaves.

use vstd::prelude::*;
use vstd::slice::slice_subrange;
use crate::error::Error;
use crate::hashing::{hash, hash_pair, HASHSIZE};
use crate::pow2::{
    is_pow2, is_power_of_two, lemma_next_pow2_bounds, lemma_next_pow2_fixed, next_pow2,
    next_power_of_two,
};

verus! {

/// Number of bytes in a chunk, the unit in which a tree is addressed.
pub const BYTES_PER_CHUNK: usize = 32;

/// Number of bytes that are hashed into a parent: two chunks.
pub const MERKLE_HASH_CHUNK: usize = 2 * BYTES_PER_CHUNK;

/// Chunk `i` of a byte sequence.
pub open spec fn chunk_at(bytes: Seq<u8>, i: int) -> Seq<u8> {
    bytes.subrange(32 * i, 32 * i + 32)
}

/// `count` zero bytes.
pub open spec fn zeros(count: nat) -> Seq<u8> {
    Seq::new(count, |i: int| 0u8)
}

/// Number of chunks that `num_bytes` bytes take up, the last one maybe in part.
pub open spec fn chunks_for(num_bytes: nat) -> nat {
    (num_bytes + 31) / 32
}

/// Length in bytes to which a leaf sequence of `num_bytes` bytes is padded:
/// whole chunks, and a power of two of them.
pub open spec fn padded_len(num_bytes: nat) -> nat {
    next_pow2(chunks_for(num_bytes)) * 32
}

/// `bytes` followed by as many zero bytes as bring it to its padded length.
pub open spec fn pad_zeros(bytes: Seq<u8>) -> Seq<u8> {
    bytes + zeros((padded_len(bytes.len()) - bytes.len()) as nat)
}

/// Node `i` of the tree over `leaves`, nodes counted in level order from the
/// root, which is node 0. With `n` leaves the last `n` nodes are the leaves
/// themselves, and every node before them is the digest of its two children,
/// nodes `2i + 1` and `2i + 2`.
pub open spec fn tree_node(leaves: Seq<u8>, i: nat) -> Seq<u8>
    decreases 2 * (leaves.len() / 32) - i,
{
    let n = leaves.len() / 32;
    if i + 1 >= n {
        chunk_at(leaves, i + 1 - n)
    } else {
        hash_pair(tree_node(leaves, 2 * i + 1), tree_node(leaves, 2 * i + 2))
    }
}

/// Number of nodes in the tree over `num_leaves` leaves.
pub open spec fn tree_size(num_leaves: nat) -> nat {
    if num_leaves == 0 {
        0
    } else {
        (2 * num_leaves - 1) as nat
    }
}

/// The whole tree over `leaves`: all its nodes in level order, 32 bytes each.
pub open spec fn merkle_tree(leaves: Seq<u8>) -> Seq<u8> {
    Seq::new(
        tree_size(leaves.len() / 32) * 32,
        |k: int| tree_node(leaves, (k / 32) as nat)[k % 32],
    )
}

/// Every node of a tree is one chunk long.
pub proof fn lemma_tree_node_len(leaves: Seq<u8>, i: nat)
    requires
        i < tree_size(leaves.len() / 32),
    ensures
        tree_node(leaves, i).len() == 32,
    decreases 2 * (leaves.len() / 32) - i,
{
    let n = leaves.len() / 32;
    if i + 1 < n {
        lemma_tree_node_len(leaves, 2 * i + 1);
        lemma_tree_node_len(leaves, 2 * i + 2);
    }
}

/// Chunk `i` of the whole tree is node `i`.
pub proof fn lemma_merkle_tree_chunk(leaves: Seq<u8>, i: nat)
    requires
        i < tree_size(leaves.len() / 32),
    ensures
        chunk_at(merkle_tree(leaves), i as int) == tree_node(leaves, i),
{
    lemma_tree_node_len(leaves, i);
    let chunk = chunk_at(merkle_tree(leaves), i as int);
    let node = tree_node(leaves, i);
    assert forall|b: int| 0 <= b < 32 implies chunk[b] == node[b] by {
        assert((32 * i + b) / 32 == i);
        assert((32 * i + b) % 32 == b);
    }
    assert(chunk =~= node);
}

/// The tree over one or more whole chunks has `2n - 1` chunks for `n` leaves;
/// it ends in the leaves as they were given; and every chunk before them is
/// the digest of its two children. In particular the root, chunk 0, is the
/// digest of chunks 1 and 2, which are the digests of chunks 3 to 6, and so on
/// down to the leaves.
pub proof fn lemma_merkle_tree_shape(leaves: Seq<u8>)
    requires
        leaves.len() % 32 == 0,
        leaves.len() >= 32,
    ensures
        merkle_tree(leaves).len() == (2 * (leaves.len() / 32) - 1) * 32,
        merkle_tree(leaves).subrange(
            (leaves.len() / 32 - 1) * 32,
            merkle_tree(leaves).len() as int,
        ) == leaves,
        forall|i: int|
            0 <= i < leaves.len() / 32 - 1 ==> #[trigger] chunk_at(merkle_tree(leaves), i)
                == hash_pair(
                chunk_at(merkle_tree(leaves), 2 * i + 1),
                chunk_at(merkle_tree(leaves), 2 * i + 2),
            ),
{
    let n = leaves.len() / 32;
    let tree = merkle_tree(leaves);
    let tail = tree.subrange((n - 1) * 32, tree.len() as int);
    assert forall|b: int| 0 <= b < leaves.len() implies tail[b] == leaves[b] by {
        let k = (n - 1) * 32 + b;
        assert(k / 32 == n - 1 + b / 32);
        assert(k % 32 == b % 32);
        assert(tree_node(leaves, (k / 32) as nat) == chunk_at(leaves, b / 32));
    }
    assert(tail =~= leaves);
    assert forall|i: int| 0 <= i < n - 1 implies #[trigger] chunk_at(tree, i) == hash_pair(
        chunk_at(tree, 2 * i + 1),
        chunk_at(tree, 2 * i + 2),
    ) by {
        lemma_merkle_tree_chunk(leaves, i as nat);
        lemma_merkle_tree_chunk(leaves, (2 * i + 1) as nat);
        lemma_merkle_tree_chunk(leaves, (2 * i + 2) as nat);
    }
}

/// A single chunk needs no padding and is the whole of its own tree: its root
/// is the leaf itself.
pub proof fn lemma_single_leaf(leaf: Seq<u8>)
    requires
        leaf.len() == 32,
    ensures
        pad_zeros(leaf) == leaf,
        merkle_tree(leaf) == leaf,
{
    assert(next_pow2(1) == 1);
    assert(pad_zeros(leaf) =~= leaf);
    assert(merkle_tree(leaf) =~= leaf);
}

/// Padding keeps the bytes it was given, appends only zeros, and stops at the
/// first length that is a power-of-two number of whole chunks: bytes that
/// already have such a length are left as they are.
pub proof fn lemma_pad_zeros(bytes: Seq<u8>)
    ensures
        pad_zeros(bytes).len() == padded_len(bytes.len()),
        pad_zeros(bytes).len() >= bytes.len(),
        pad_zeros(bytes).len() >= 32,
        pad_zeros(bytes).len() % 32 == 0,
        is_pow2(pad_zeros(bytes).len() / 32),
        pad_zeros(bytes).subrange(0, bytes.len() as int) == bytes,
        forall|i: int| bytes.len() <= i < pad_zeros(bytes).len() ==> pad_zeros(bytes)[i] == 0,
        bytes.len() % 32 == 0 && is_pow2(bytes.len() / 32) ==> pad_zeros(bytes) == bytes,
{
    let chunks = chunks_for(bytes.len());
    lemma_next_pow2_bounds(chunks);
    assert(pad_zeros(bytes).subrange(0, bytes.len() as int) =~= bytes);
    if bytes.len() % 32 == 0 && is_pow2(bytes.len() / 32) {
        lemma_next_pow2_fixed(bytes.len() / 32);
        assert(pad_zeros(bytes) =~= bytes);
    }
}

/// The chunks of padded leaves behind the bytes that were padded are zeros,
/// whatever those bytes were.
pub proof fn lemma_padding_chunk(bytes: Seq<u8>, other: Seq<u8>, i: int)
    requires
        chunks_for(bytes.len()) == chunks_for(other.len()),
        chunks_for(bytes.len()) <= i < next_pow2(chunks_for(bytes.len())),
    ensures
        chunk_at(pad_zeros(bytes), i) == chunk_at(pad_zeros(other), i),
{
    lemma_pad_zeros(bytes);
    lemma_pad_zeros(other);
    assert(chunk_at(pad_zeros(bytes), i) =~= chunk_at(pad_zeros(other), i));
}

/// The two children of node `parent`.
pub fn children(parent: usize) -> (pair: (usize, usize))
    requires
        2 * parent + 2 <= usize::MAX,
    ensures
        pair.0 == 2 * parent + 1,
        pair.1 == 2 * parent + 2,
{
    ((2 * parent + 1), (2 * parent + 2))
}

/// Number of nodes in a tree of `num_leaves` leaves.
pub fn num_nodes(num_leaves: usize) -> (n: usize)
    requires
        1 <= num_leaves,
        2 * num_leaves <= usize::MAX,
    ensures
        n == 2 * num_leaves - 1,
        n == tree_size(num_leaves as nat),
{
    2 * num_leaves - 1
}

/// Whether the last of the chunks that hold `num_bytes` bytes is filled only
/// in part.
pub fn last_leaf_needs_padding(num_bytes: usize) -> (b: bool)
    ensures
        b == (num_bytes % 32 != 0),
{
    num_bytes % HASHSIZE != 0
}

/// Number of chunks that hold `num_bytes` bytes, rounded up.
pub fn num_unsanitized_leaves(num_bytes: usize) -> (n: usize)
    ensures
        n == chunks_for(num_bytes as nat),
{
    if num_bytes % HASHSIZE == 0 {
        num_bytes / HASHSIZE
    } else {
        num_bytes / HASHSIZE + 1
    }
}

/// Number of leaves in the tree over `num_bytes` bytes: the chunks that hold
/// them, rounded up to a power of two.
pub fn num_sanitized_leaves(num_bytes: usize) -> (n: usize)
    requires
        next_pow2(chunks_for(num_bytes as nat)) <= usize::MAX,
    ensures
        n == next_pow2(chunks_for(num_bytes as nat)),
{
    let leaves = num_unsanitized_leaves(num_bytes);
    next_power_of_two(leaves)
}

/// Number of bytes in `num_leaves` leaves.
pub fn num_bytes(num_leaves: usize) -> (n: usize)
    requires
        num_leaves * 32 <= usize::MAX,
    ensures
        n == num_leaves * 32,
{
    num_leaves * HASHSIZE
}

/// Pads `bytes` with zeros to whole chunks and to a power-of-two number of
/// them; empty input becomes one chunk of zeros.
pub fn pad_leaves(bytes: &mut Vec<u8>)
    requires
        padded_len(old(bytes)@.len()) <= usize::MAX,
    ensures
        final(bytes)@ == pad_zeros(old(bytes)@),
{
    let present_leaves = num_unsanitized_leaves(bytes.len());
    proof {
        lemma_next_pow2_bounds(present_leaves as nat);
    }
    let required_leaves = next_power_of_two(present_leaves);

    if present_leaves != required_leaves || last_leaf_needs_padding(bytes.len()) {
        bytes.resize(num_bytes(required_leaves), 0);
    }
    assert(bytes@ =~= pad_zeros(old(bytes)@));
}

/// Appends `(next_pow2(num_leaves) - num_leaves)` chunks of zeros to `bytes`:
/// one for each leaf that a tree of `num_leaves` leaves lacks to a power of
/// two.
pub fn pad_for_leaf_count(num_leaves: usize, bytes: &mut Vec<u8>)
    requires
        next_pow2(num_leaves as nat) <= usize::MAX,
        old(bytes)@.len() + (next_pow2(num_leaves as nat) - num_leaves) * 32 <= usize::MAX,
    ensures
        final(bytes)@ == old(bytes)@ + zeros(
            ((next_pow2(num_leaves as nat) - num_leaves) * 32) as nat,
        ),
{
    proof {
        lemma_next_pow2_bounds(num_leaves as nat);
    }
    let required_leaves = next_power_of_two(num_leaves);

    bytes.resize(bytes.len() + (required_leaves - num_leaves) * BYTES_PER_CHUNK, 0);
    assert(bytes@ =~= old(bytes)@ + zeros(
        ((next_pow2(num_leaves as nat) - num_leaves) * 32) as nat,
    ));
}

/// Overwrites the chunk of `buf` that starts at byte `start` with `chunk`.
pub fn write_chunk(buf: &mut Vec<u8>, start: usize, chunk: &[u8])
    requires
        chunk@.len() == 32,
        start + 32 <= old(buf)@.len(),
    ensures
        final(buf)@ == old(buf)@.subrange(0, start as int) + chunk@ + old(buf)@.subrange(
            start + 32,
            old(buf)@.len() as int,
        ),
{
    let len = buf.len();
    let mut k: usize = 0;
    while k < BYTES_PER_CHUNK
        invariant
            k <= 32,
            start + 32 <= len,
            chunk@.len() == 32,
            start + 32 <= buf@.len(),
            buf@.len() == old(buf)@.len(),
            forall|b: int| 0 <= b < buf@.len() && !(start <= b < start + k) ==> buf@[b] == old(
                buf,
            )@[b],
            forall|b: int| start <= b < start + k ==> buf@[b] == chunk@[b - start],
        decreases 32 - k,
    {
        buf.set(start + k, chunk[k]);
        k += 1;
    }
    assert(buf@ =~= old(buf)@.subrange(0, start as int) + chunk@ + old(buf)@.subrange(
        start + 32,
        old(buf)@.len() as int,
    ));
}

/// Hashes `values` into a whole tree and returns all of it, internal nodes
/// first and the leaves last. The input is first padded with zeros to whole
/// chunks and to a power-of-two number of them, so there is always a leaf and
/// the call always succeeds. The root is the first chunk of the result.
pub fn merkleize(values: Vec<u8>) -> (res: Result<Vec<u8>, Error>)
    requires
        2 * padded_len(values@.len()) <= usize::MAX,
    ensures
        res matches Ok(tree) && tree@ == merkle_tree(pad_zeros(values@)),
{
    let mut values = values;
    let ghost given = values@;
    proof {
        lemma_pad_zeros(given);
    }
    pad_leaves(&mut values);
    let ghost padded = values@;

    let leaves = values.len() / HASHSIZE;

    if leaves == 0 {
        return Err(Error::CannotMerkleizeZeroLeaves);
    }
    if !is_power_of_two(leaves) {
        return Err(Error::LeavesMustBePowerOfTwo);
    }
    let leaf_bytes = values.len();
    let internal_bytes = (num_nodes(leaves) - leaves) * HASHSIZE;
    let mut o: Vec<u8> = vec![0; internal_bytes];
    o.append(&mut values);

    let mut i = o.len();
    let mut j = o.len() - leaf_bytes;

    assert forall|k: int| j / 32 <= k < 2 * leaves - 1 implies #[trigger] chunk_at(o@, k)
        == tree_node(padded, k as nat) by {
        assert(chunk_at(o@, k) =~= chunk_at(padded, k + 1 - leaves));
    }

    while i >= MERKLE_HASH_CHUNK
        invariant
            padded.len() == leaves * 32,
            leaves >= 1,
            o@.len() == (2 * leaves - 1) * 32,
            i == 2 * j + 32,
            j % 32 == 0,
            j <= (leaves - 1) * 32,
            forall|k: int|
                j / 32 <= k < 2 * leaves - 1 ==> #[trigger] chunk_at(o@, k) == tree_node(
                    padded,
                    k as nat,
                ),
        decreases i,
    {
        i -= MERKLE_HASH_CHUNK;
        let hash = hash(slice_subrange(o.as_slice(), i, i + MERKLE_HASH_CHUNK));

        j -= HASHSIZE;
        let ghost before = o@;
        let ghost parent = j as int / 32;
        proof {
            assert(i as int == 32 * (2 * parent + 1));
            assert(before.subrange(i as int, i + 64) =~= chunk_at(before, 2 * parent + 1)
                + chunk_at(before, 2 * parent + 2));
            assert(hash@ == tree_node(padded, parent as nat));
        }
        write_chunk(&mut o, j, hash.as_slice());
        assert forall|k: int| j / 32 <= k < 2 * leaves - 1 implies #[trigger] chunk_at(o@, k)
            == tree_node(padded, k as nat) by {
            if k == parent {
                assert(chunk_at(o@, k) =~= hash@);
            } else {
                assert(chunk_at(o@, k) =~= chunk_at(before, k));
            }
        }
    }

    proof {
        let tree = merkle_tree(padded);
        assert forall|b: int| 0 <= b < o@.len() implies o@[b] == tree[b] by {
            let k = b / 32;
            assert(chunk_at(o@, k) == tree_node(padded, k as nat));
            assert(chunk_at(o@, k)[b % 32] == o@[32 * k + b % 32]);
        }
        assert(o@ =~= tree);
    }
    Ok(o)
}

} // verus!
