//! The overlay: where in a cache each node of a value's tree lies.

use vstd::prelude::*;
use crate::error::Error;
use crate::merkle::num_nodes;
use crate::pow2::{
    is_pow2, is_power_of_two, lemma_next_pow2_bounds, lemma_next_pow2_fixed, next_pow2,
    next_power_of_two,
};
use crate::tree_hash::{fits, CachedTreeHash};

verus! {

/// The lengths of all leaves of an overlay: those given, and a length of one
/// chunk for each leaf added to bring their number to a power of two.
pub open spec fn padded_lengths(lengths: Seq<usize>) -> Seq<nat> {
    Seq::new(
        next_pow2(lengths.len()),
        |i: int|
            if i < lengths.len() {
                lengths[i] as nat
            } else {
                1
            },
    )
}

/// The sum of the first `count` of `lengths`.
pub open spec fn sum_lengths(lengths: Seq<nat>, count: int) -> nat
    decreases count,
{
    if count <= 0 {
        0
    } else {
        sum_lengths(lengths, count - 1) + lengths[count - 1]
    }
}

/// Number of chunks that a tree with leaves of these lengths takes up: one for
/// each internal node, and each leaf's own length.
pub open spec fn total_chunks(lengths: Seq<nat>) -> nat {
    (lengths.len() - 1 + sum_lengths(lengths, lengths.len() as int)) as nat
}

/// The chunk at which node `i` of a tree starts, when the tree starts at chunk
/// `base` and its leaves have the lengths `lengths`. The internal nodes come
/// first, one chunk each; leaf `k` follows the leaves before it.
pub open spec fn node_offset(base: nat, lengths: Seq<nat>, i: int) -> nat {
    let internal = lengths.len() - 1;
    if i < internal {
        (base + i) as nat
    } else {
        (base + internal + sum_lengths(lengths, i - internal)) as nat
    }
}

/// What an overlay holds: how many nodes of each sort its tree has, the chunk
/// of each node, and the first chunk behind the tree.
#[verifier::ext_equal]
pub struct OverlayView {
    pub num_internal_nodes: nat,
    pub num_leaf_nodes: nat,
    pub next_node: nat,
    pub offsets: Seq<nat>,
}

impl OverlayView {
    /// The layout of a tree that starts at chunk `base` and has leaves of the
    /// lengths `lengths`, padded to a power of two of them.
    pub open spec fn from_lengths(base: nat, lengths: Seq<usize>) -> OverlayView {
        let all = padded_lengths(lengths);
        OverlayView {
            num_internal_nodes: (all.len() - 1) as nat,
            num_leaf_nodes: all.len(),
            next_node: base + total_chunks(all),
            offsets: Seq::new((2 * all.len() - 1) as nat, |i: int| node_offset(base, all, i)),
        }
    }

    /// A tree has one internal node less than it has leaves, at least one
    /// leaf, and a chunk for every node.
    pub open spec fn wf(self) -> bool {
        &&& self.num_leaf_nodes >= 1
        &&& self.num_internal_nodes + 1 == self.num_leaf_nodes
        &&& self.offsets.len() == self.num_internal_nodes + self.num_leaf_nodes
    }

    /// The nodes lie in the cache in their order, each at a chunk of its own
    /// before the end of the tree, and the internal nodes lie chunk by chunk
    /// from the root on, with the first leaf right behind them.
    pub open spec fn laid_out(self) -> bool {
        &&& self.wf()
        &&& forall|i: int, j: int|
            0 <= i < j < self.offsets.len() ==> self.offsets[i] < self.offsets[j]
        &&& self.offsets[self.offsets.len() - 1] < self.next_node
        &&& forall|i: int|
            0 <= i <= self.num_internal_nodes ==> #[trigger] self.offsets[i] == self.offsets[0] + i
    }

    /// Number of nodes in the tree.
    pub open spec fn total_nodes(self) -> nat {
        self.num_internal_nodes + self.num_leaf_nodes
    }

    /// The chunk of leaf `k`.
    pub open spec fn leaf(self, k: int) -> nat {
        self.offsets[self.num_internal_nodes + k]
    }

    /// Internal node `i` as its own chunk and the chunks of its two children.
    pub open spec fn internal_node(self, i: int) -> (nat, (nat, nat)) {
        (self.offsets[i], (self.offsets[2 * i + 1], self.offsets[2 * i + 2]))
    }
}

/// The lengths of an overlay's leaves are as many as a power of two, and the
/// given ones come first.
pub proof fn lemma_padded_lengths(lengths: Seq<usize>)
    ensures
        padded_lengths(lengths).len() == next_pow2(lengths.len()),
        padded_lengths(lengths).len() >= lengths.len(),
        padded_lengths(lengths).len() >= 1,
        is_pow2(padded_lengths(lengths).len()),
        is_pow2(lengths.len()) ==> padded_lengths(lengths).len() == lengths.len(),
{
    lemma_next_pow2_bounds(lengths.len());
    if is_pow2(lengths.len()) {
        lemma_next_pow2_fixed(lengths.len());
    }
}

/// Sums grow with the number of lengths summed.
pub proof fn lemma_sum_lengths_monotone(lengths: Seq<nat>, i: int, j: int)
    requires
        i <= j,
    ensures
        sum_lengths(lengths, i) <= sum_lengths(lengths, j),
    decreases j - i,
{
    if i < j {
        lemma_sum_lengths_monotone(lengths, i, j - 1);
    }
}

/// Leaves that take a chunk or more each lie one behind the other.
pub proof fn lemma_sum_lengths_increasing(lengths: Seq<nat>, i: int, j: int)
    requires
        forall|k: int| 0 <= k < lengths.len() ==> lengths[k] >= 1,
        0 <= i < j <= lengths.len(),
    ensures
        sum_lengths(lengths, i) < sum_lengths(lengths, j),
    decreases j - i,
{
    if i + 1 < j {
        lemma_sum_lengths_increasing(lengths, i, j - 1);
    }
}

/// An overlay whose leaves take a chunk or more each is laid out in order.
pub proof fn lemma_from_lengths_laid_out(base: nat, lengths: Seq<usize>)
    requires
        forall|k: int| 0 <= k < lengths.len() ==> lengths[k] >= 1,
    ensures
        OverlayView::from_lengths(base, lengths).wf(),
        OverlayView::from_lengths(base, lengths).laid_out(),
        OverlayView::from_lengths(base, lengths).offsets[0] == base,
{
    lemma_padded_lengths(lengths);
    let all = padded_lengths(lengths);
    let ov = OverlayView::from_lengths(base, lengths);
    let internal = all.len() - 1;
    assert forall|i: int, j: int| 0 <= i < j < ov.offsets.len() implies ov.offsets[i]
        < ov.offsets[j] by {
        if j >= internal {
            if i >= internal {
                lemma_sum_lengths_increasing(all, i - internal, j - internal);
            }
        }
    }
    lemma_sum_lengths_increasing(all, all.len() - 1, all.len() as int);
}

/// The layout of one value's tree over the chunks of a cache: which chunk
/// each node of the tree starts at. The internal nodes take one chunk each;
/// a leaf takes as many chunks as the subtree that hangs from it.
#[derive(Debug)]
pub struct BTreeOverlay {
    num_internal_nodes: usize,
    num_leaf_nodes: usize,
    next_node: usize,
    offsets: Vec<usize>,
}

impl View for BTreeOverlay {
    type V = OverlayView;

    closed spec fn view(&self) -> OverlayView {
        OverlayView {
            num_internal_nodes: self.num_internal_nodes as nat,
            num_leaf_nodes: self.num_leaf_nodes as nat,
            next_node: self.next_node as nat,
            offsets: Seq::new(self.offsets@.len(), |i: int| self.offsets@[i] as nat),
        }
    }
}

impl BTreeOverlay {
    /// Lays out the tree of `item` from chunk `initial_offset` on. A value
    /// without leaves of its own has no overlay.
    pub fn new<T>(item: &T, initial_offset: usize) -> (res: Result<Self, Error>) where
        T: CachedTreeHash,
        requires
            fits(item.tree()),
            item.leaf_lengths() matches Some(lengths) ==> 2 * next_pow2(lengths.len())
                <= usize::MAX && initial_offset + total_chunks(padded_lengths(lengths))
                <= usize::MAX,
        ensures
            match res {
                Ok(overlay) => item.leaf_lengths() matches Some(lengths) && overlay@
                    == OverlayView::from_lengths(initial_offset as nat, lengths) && overlay@.wf(),
                Err(e) => item.leaf_lengths() is None && e == Error::ShouldNotProduceBTreeOverlay,
            },
    {
        match item.offsets() {
            Ok(lengths) => Self::from_lengths(initial_offset, lengths),
            Err(e) => Err(e),
        }
    }

    /// Lays out a tree that starts at chunk `offset` and whose leaves take
    /// `lengths[i]` chunks each. Leaves of one chunk are added until their
    /// number is a power of two; without any length there is one such leaf.
    pub fn from_lengths(offset: usize, lengths: Vec<usize>) -> (res: Result<Self, Error>)
        requires
            2 * next_pow2(lengths@.len()) <= usize::MAX,
            offset + total_chunks(padded_lengths(lengths@)) <= usize::MAX,
        ensures
            res matches Ok(overlay) && overlay@ == OverlayView::from_lengths(
                offset as nat,
                lengths@,
            ) && overlay@.wf(),
    {
        Ok(Self::with_lengths(offset, lengths))
    }

    /// The overlay that `from_lengths` makes, which it never fails to make.
    pub fn with_lengths(offset: usize, lengths: Vec<usize>) -> (overlay: Self)
        requires
            2 * next_pow2(lengths@.len()) <= usize::MAX,
            offset + total_chunks(padded_lengths(lengths@)) <= usize::MAX,
        ensures
            overlay@ == OverlayView::from_lengths(offset as nat, lengths@),
            overlay@.wf(),
    {
        let mut lengths = lengths;
        let ghost given = lengths@;
        let ghost all = padded_lengths(given);
        proof {
            lemma_padded_lengths(given);
        }
        // Extend it to the next power-of-two, if it is not already.
        let num_leaf_nodes = if is_power_of_two(lengths.len()) {
            lengths.len()
        } else {
            let num_leaf_nodes = next_power_of_two(lengths.len());
            lengths.resize(num_leaf_nodes, 1);
            num_leaf_nodes
        };
        assert(lengths@.len() == all.len());
        assert forall|i: int| 0 <= i < all.len() implies lengths@[i] as nat == all[i] by {
            if i < given.len() {
                assert(lengths@.subrange(0, given.len() as int)[i] == given[i]);
            }
        }

        let num_nodes = num_nodes(num_leaf_nodes);
        let num_internal_nodes = num_nodes - num_leaf_nodes;

        proof {
            lemma_sum_lengths_monotone(all, 0, all.len() as int);
        }
        let mut offsets: Vec<usize> = Vec::with_capacity(num_nodes);
        let mut i: usize = 0;
        while i < num_internal_nodes
            invariant
                i <= num_internal_nodes,
                offset + num_internal_nodes <= usize::MAX,
                num_internal_nodes == all.len() - 1,
                offsets@.len() == i,
                forall|k: int| 0 <= k < i ==> offsets@[k] as nat == node_offset(
                    offset as nat,
                    all,
                    k,
                ),
            decreases num_internal_nodes - i,
        {
            offsets.push(offset + i);
            i += 1;
        }

        let mut next_node = num_internal_nodes + offset;
        let mut i: usize = 0;
        while i < num_leaf_nodes
            invariant
                i <= num_leaf_nodes,
                num_leaf_nodes == all.len(),
                num_internal_nodes == all.len() - 1,
                lengths@.len() == all.len(),
                forall|k: int| 0 <= k < all.len() ==> lengths@[k] as nat == all[k],
                offset + total_chunks(all) <= usize::MAX,
                next_node == offset + num_internal_nodes + sum_lengths(all, i as int),
                offsets@.len() == num_internal_nodes + i,
                forall|k: int| 0 <= k < offsets@.len() ==> offsets@[k] as nat == node_offset(
                    offset as nat,
                    all,
                    k,
                ),
            decreases num_leaf_nodes - i,
        {
            proof {
                lemma_sum_lengths_monotone(all, i as int + 1, all.len() as int);
            }
            offsets.push(next_node);
            next_node += lengths[i];
            i += 1;
        }

        let overlay = Self { num_internal_nodes, num_leaf_nodes, offsets, next_node };
        assert(overlay@.offsets =~= OverlayView::from_lengths(offset as nat, given).offsets);
        overlay
    }

    /// The overlay of nothing: no node and no chunk.
    pub fn empty() -> (overlay: Self)
        ensures
            overlay@ == (OverlayView {
                num_internal_nodes: 0,
                num_leaf_nodes: 0,
                next_node: 0,
                offsets: Seq::empty(),
            }),
    {
        let overlay = Self {
            num_internal_nodes: 0,
            num_leaf_nodes: 0,
            next_node: 0,
            offsets: Vec::new(),
        };
        assert(overlay@.offsets =~= Seq::<nat>::empty());
        overlay
    }

    /// Number of nodes in the tree, leaves and internal nodes alike.
    pub fn total_nodes(&self) -> (n: usize)
        requires
            self@.wf(),
        ensures
            n == self@.total_nodes(),
    {
        assert(self.offsets.len() <= usize::MAX);
        self.num_internal_nodes + self.num_leaf_nodes
    }

    /// Number of internal nodes in the tree.
    pub fn num_internal_nodes(&self) -> (n: usize)
        ensures
            n == self@.num_internal_nodes,
    {
        self.num_internal_nodes
    }

    /// Number of leaves in the tree, the added ones included.
    pub fn num_leaf_nodes(&self) -> (n: usize)
        ensures
            n == self@.num_leaf_nodes,
    {
        self.num_leaf_nodes
    }

    /// The chunk of the first leaf. An overlay that holds no chunk for it has
    /// no first leaf.
    pub fn first_leaf_node(&self) -> (res: Result<usize, Error>)
        ensures
            match res {
                Ok(chunk) => self@.num_internal_nodes < self@.offsets.len() && chunk == self@.leaf(
                    0,
                ),
                Err(e) => self@.num_internal_nodes >= self@.offsets.len() && e
                    == Error::NoFirstNode,
            },
            self@.wf() ==> res is Ok,
    {
        if self.num_internal_nodes < self.offsets.len() {
            Ok(self.offsets[self.num_internal_nodes])
        } else {
            Err(Error::NoFirstNode)
        }
    }

    /// The first chunk behind the tree, where a sibling's tree would start.
    pub fn next_node(&self) -> (n: usize)
        ensures
            n == self@.next_node,
    {
        self.next_node
    }

    /// The chunk of the root, which is the first chunk of the tree.
    pub fn root(&self) -> (n: usize)
        requires
            self@.wf(),
        ensures
            n == self@.offsets[0],
    {
        self.offsets[0]
    }

    /// The internal nodes from the root down, each with the chunks of its two
    /// children. Walked from the back, this visits every node after both its
    /// children.
    pub fn iter_internal_nodes(&self) -> (nodes: Vec<(usize, (usize, usize))>)
        requires
            self@.wf(),
        ensures
            nodes@.len() == self@.num_internal_nodes,
            forall|i: int|
                0 <= i < nodes@.len() ==> {
                    &&& (#[trigger] nodes@[i]).0 == self@.internal_node(i).0
                    &&& nodes@[i].1.0 == self@.internal_node(i).1.0
                    &&& nodes@[i].1.1 == self@.internal_node(i).1.1
                },
    {
        assert(self.offsets.len() <= usize::MAX);
        let mut nodes: Vec<(usize, (usize, usize))> = Vec::with_capacity(self.num_internal_nodes);
        let mut i: usize = 0;
        while i < self.num_internal_nodes
            invariant
                self@.wf(),
                self.num_internal_nodes + self.num_leaf_nodes <= usize::MAX,
                i <= self.num_internal_nodes,
                nodes@.len() == i,
                forall|k: int|
                    0 <= k < i ==> {
                        &&& (#[trigger] nodes@[k]).0 == self@.internal_node(k).0
                        &&& nodes@[k].1.0 == self@.internal_node(k).1.0
                        &&& nodes@[k].1.1 == self@.internal_node(k).1.1
                    },
            decreases self.num_internal_nodes - i,
        {
            let children = crate::merkle::children(i);
            nodes.push((self.offsets[i], (self.offsets[children.0], self.offsets[children.1])));
            i += 1;
        }
        nodes
    }

    /// The chunks of the leaves, first leaf first.
    pub fn iter_leaf_nodes(&self) -> (nodes: Vec<usize>)
        requires
            self@.wf(),
        ensures
            nodes@.len() == self@.num_leaf_nodes,
            forall|k: int| 0 <= k < nodes@.len() ==> #[trigger] nodes@[k] == self@.leaf(k),
    {
        assert(self.offsets.len() <= usize::MAX);
        let mut nodes: Vec<usize> = Vec::with_capacity(self.num_leaf_nodes);
        let mut k: usize = 0;
        while k < self.num_leaf_nodes
            invariant
                self@.wf(),
                self.num_internal_nodes + self.num_leaf_nodes <= usize::MAX,
                k <= self.num_leaf_nodes,
                nodes@.len() == k,
                forall|m: int| 0 <= m < k ==> #[trigger] nodes@[m] == self@.leaf(m),
            decreases self.num_leaf_nodes - k,
        {
            nodes.push(self.offsets[self.num_internal_nodes + k]);
            k += 1;
        }
        nodes
    }
}

} // verus!
