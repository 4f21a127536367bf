//! Bytes and the chunks that they are made of.

use vstd::prelude::*;
use crate::merkle::chunk_at;
use crate::tree_hash::same_around;

verus! {

/// Bytes that hold `tree` from chunk `offset` on hold each chunk of it: the
/// root too where they hold all of it, the chunks below the root where they
/// hold those.
pub proof fn lemma_chunk_of_region(bytes: Seq<u8>, offset: int, tree: Seq<u8>, q: int)
    requires
        0 <= offset,
        tree.len() % 32 == 0,
        0 <= q < tree.len() / 32,
        32 * offset + tree.len() <= bytes.len(),
        bytes.subrange(32 * offset, 32 * offset + tree.len()) == tree || (q >= 1 && bytes.subrange(
            32 * (offset + 1),
            32 * offset + tree.len(),
        ) == tree.subrange(32, tree.len() as int)),
    ensures
        chunk_at(bytes, offset + q) == chunk_at(tree, q),
{
    let left = chunk_at(bytes, offset + q);
    let right = chunk_at(tree, q);
    assert forall|b: int| 0 <= b < 32 implies left[b] == right[b] by {
        if bytes.subrange(32 * offset, 32 * offset + tree.len()) == tree {
            assert(bytes.subrange(32 * offset, 32 * offset + tree.len())[32 * q + b] == tree[32 * q
                + b]);
        } else {
            assert(bytes.subrange(32 * (offset + 1), 32 * offset + tree.len())[32 * (q - 1) + b]
                == tree.subrange(32, tree.len() as int)[32 * (q - 1) + b]);
        }
    }
    assert(left =~= right);
}

/// Bytes that agree chunk by chunk agree: `count` chunks of `a` from chunk
/// `a_offset` on are those of `b` from chunk `b_offset` on.
pub proof fn lemma_same_chunks(a: Seq<u8>, a_offset: int, b: Seq<u8>, b_offset: int, count: int)
    requires
        0 <= a_offset,
        0 <= b_offset,
        0 <= count,
        32 * (a_offset + count) <= a.len(),
        32 * (b_offset + count) <= b.len(),
        forall|q: int|
            0 <= q < count ==> #[trigger] chunk_at(a, a_offset + q) == chunk_at(b, b_offset + q),
    ensures
        a.subrange(32 * a_offset, 32 * (a_offset + count)) == b.subrange(
            32 * b_offset,
            32 * (b_offset + count),
        ),
{
    let left = a.subrange(32 * a_offset, 32 * (a_offset + count));
    let right = b.subrange(32 * b_offset, 32 * (b_offset + count));
    assert forall|k: int| 0 <= k < 32 * count implies left[k] == right[k] by {
        let q = k / 32;
        assert(chunk_at(a, a_offset + q) == chunk_at(b, b_offset + q));
        assert(chunk_at(a, a_offset + q)[k % 32] == a[32 * (a_offset + q) + k % 32]);
        assert(chunk_at(b, b_offset + q)[k % 32] == b[32 * (b_offset + q) + k % 32]);
    }
    assert(left =~= right);
}

/// Bytes that hold the same as `before` in every chunk but `count` chunks
/// from `offset` on hold the same before those chunks and behind them.
pub proof fn lemma_chunks_around(after: Seq<u8>, before: Seq<u8>, offset: int, count: int)
    requires
        0 <= offset,
        0 <= count,
        after.len() == before.len(),
        before.len() % 32 == 0,
        32 * (offset + count) <= before.len(),
        forall|c: int|
            0 <= c < before.len() / 32 && !(offset <= c < offset + count) ==> #[trigger] chunk_at(
                after,
                c,
            ) == chunk_at(before, c),
    ensures
        same_around(before, after, offset, count, count),
{
    let chunks = before.len() as int / 32;
    assert forall|q: int| 0 <= q < offset implies #[trigger] chunk_at(after, 0 + q) == chunk_at(
        before,
        0 + q,
    ) by {
        assert(chunk_at(after, q) == chunk_at(before, q));
    }
    lemma_same_chunks(after, 0, before, 0, offset);
    assert forall|q: int| 0 <= q < chunks - offset - count implies #[trigger] chunk_at(
        after,
        offset + count + q,
    ) == chunk_at(before, offset + count + q) by {
        let c = offset + count + q;
        assert(chunk_at(after, c) == chunk_at(before, c));
    }
    lemma_same_chunks(after, offset + count, before, offset + count, chunks - offset - count);
}

/// Bytes that hold the same as `before` in every chunk but those from
/// `offset` on, which hold `tree`, are `before` with `tree` in that place.
pub proof fn lemma_bytes_of_chunks(after: Seq<u8>, before: Seq<u8>, offset: int, tree: Seq<u8>)
    requires
        0 <= offset,
        after.len() == before.len(),
        before.len() % 32 == 0,
        tree.len() % 32 == 0,
        32 * offset + tree.len() <= before.len(),
        forall|c: int|
            0 <= c < before.len() / 32 && !(offset <= c < offset + tree.len() / 32)
                ==> #[trigger] chunk_at(after, c) == chunk_at(before, c),
        forall|q: int|
            0 <= q < tree.len() / 32 ==> #[trigger] chunk_at(after, offset + q) == chunk_at(
                tree,
                q,
            ),
    ensures
        after == before.subrange(0, 32 * offset) + tree + before.subrange(
            32 * offset + tree.len(),
            before.len() as int,
        ),
{
    let count = tree.len() as int / 32;
    let chunks = before.len() as int / 32;
    lemma_same_chunks(after, 0, before, 0, offset);
    lemma_same_chunks(after, offset, tree, 0, count);
    assert forall|q: int| 0 <= q < chunks - offset - count implies #[trigger] chunk_at(
        after,
        offset + count + q,
    ) == chunk_at(before, offset + count + q) by {
        let c = offset + count + q;
        assert(chunk_at(after, c) == chunk_at(before, c));
    }
    lemma_same_chunks(after, offset + count, before, offset + count, chunks - offset - count);
    assert(tree.subrange(0, 32 * count) =~= tree);
    assert(after =~= after.subrange(0, 32 * offset) + after.subrange(
        32 * offset,
        32 * (offset + count),
    ) + after.subrange(32 * (offset + count), 32 * chunks));
}

} // verus!
