use cached_tree_hash::merkle::merkleize;
use cached_tree_hash::update::{hash_chunk_pair, rehash_internal_nodes, update_packed_leaves};
use cached_tree_hash::{BTreeOverlay, Error, TreeHashCache};

fn keccak(bytes: &[u8]) -> Vec<u8> {
    tiny_keccak::keccak256(bytes).to_vec()
}

fn chunks(fills: &[u8]) -> Vec<u8> {
    let mut bytes = Vec::new();
    for fill in fills {
        bytes.extend(vec![*fill; 32]);
    }
    bytes
}

fn cache_of(fills: &[u8]) -> TreeHashCache {
    TreeHashCache::from_bytes(chunks(fills)).unwrap()
}

#[test]
fn from_bytes_refuses_thirty_three_bytes() {
    assert_eq!(
        TreeHashCache::from_bytes(vec![0u8; 33]),
        Err(Error::BytesAreNotEvenChunks(33))
    );
    assert_eq!(
        TreeHashCache::from_bytes(vec![0u8; 31]),
        Err(Error::BytesAreNotEvenChunks(31))
    );
}

#[test]
fn from_bytes_and_into_merkle_tree_round_trip() {
    for count in 0..5u8 {
        let bytes = chunks(&(1..=count).collect::<Vec<u8>>());
        let cache = TreeHashCache::from_bytes(bytes.clone()).unwrap();
        assert_eq!(cache.bytes_len(), bytes.len());
        assert_eq!(cache.total_modifications(), 0);
        assert_eq!(cache.into_merkle_tree(), bytes);
    }
}

#[test]
fn a_cache_converts_into_its_bytes() {
    let bytes: Vec<u8> = cache_of(&[1, 2]).into();
    assert_eq!(bytes, chunks(&[1, 2]));
}

#[test]
fn root_is_the_first_chunk() {
    assert_eq!(cache_of(&[4, 5, 6]).root(), Ok(vec![4u8; 32]));
    assert_eq!(cache_of(&[]).root(), Err(Error::NoBytesForRoot));
}

#[test]
fn get_chunk_reads_a_chunk() {
    let cache = cache_of(&[1, 2, 3]);
    assert_eq!(cache.get_chunk(0), Ok(&[1u8; 32][..]));
    assert_eq!(cache.get_chunk(2), Ok(&[3u8; 32][..]));
    assert_eq!(cache.get_chunk(3), Err(Error::NoBytesForChunk(3)));
    assert_eq!(
        cache.get_chunk(usize::MAX),
        Err(Error::NoBytesForChunk(usize::MAX))
    );
}

#[test]
fn modify_chunk_overwrites_and_marks() {
    let mut cache = cache_of(&[1, 2, 3]);
    assert_eq!(cache.modify_chunk(1, &[9u8; 32]), Ok(()));
    assert_eq!(cache.changed(0), Ok(false));
    assert_eq!(cache.changed(1), Ok(true));
    assert_eq!(cache.changed(2), Ok(false));
    assert_eq!(cache.total_modifications(), 1);
    assert_eq!(cache.clone().into_merkle_tree(), chunks(&[1, 9, 3]));

    // The same bytes again still count as written.
    let mut same = cache_of(&[1, 2, 3]);
    assert_eq!(same.modify_chunk(1, &[2u8; 32]), Ok(()));
    assert_eq!(same.changed(1), Ok(true));

    assert_eq!(
        cache.modify_chunk(3, &[9u8; 32]),
        Err(Error::NoBytesForChunk(3))
    );
    assert_eq!(cache.into_merkle_tree(), chunks(&[1, 9, 3]));
}

#[test]
fn maybe_update_chunk_leaves_equal_bytes_alone() {
    let mut cache = cache_of(&[1, 2, 3]);
    assert_eq!(cache.maybe_update_chunk(1, &[2u8; 32]), Some(()));
    assert_eq!(cache.changed(1), Ok(false));
    assert_eq!(cache.total_modifications(), 0);

    assert_eq!(cache.maybe_update_chunk(1, &[7u8; 32]), Some(()));
    assert_eq!(cache.changed(1), Ok(true));
    assert_eq!(cache.get_chunk(1), Ok(&[7u8; 32][..]));
    assert_eq!(cache.total_modifications(), 1);

    assert_eq!(cache.maybe_update_chunk(3, &[7u8; 32]), None);
    assert_eq!(cache.into_merkle_tree(), chunks(&[1, 7, 3]));
}

#[test]
fn chunk_equals_compares_a_chunk() {
    let mut cache = cache_of(&[1, 2]);
    assert_eq!(cache.chunk_equals(1, &[2u8; 32]), Some(true));
    assert_eq!(cache.chunk_equals(1, &[3u8; 32]), Some(false));
    assert_eq!(cache.chunk_equals(1, &[2u8; 31]), Some(false));
    assert_eq!(cache.chunk_equals(2, &[2u8; 32]), None);
}

#[test]
fn changed_and_either_modified_read_the_flags() {
    let mut cache = cache_of(&[1, 2, 3]);
    cache.modify_chunk(2, &[0u8; 32]).unwrap();
    assert_eq!(cache.changed(3), Err(Error::NoModifiedFieldForChunk(3)));
    assert_eq!(cache.either_modified((&0, &1)), Ok(false));
    assert_eq!(cache.either_modified((&1, &2)), Ok(true));
    assert_eq!(cache.either_modified((&2, &0)), Ok(true));
    assert_eq!(
        cache.either_modified((&2, &5)),
        Err(Error::NoModifiedFieldForChunk(5))
    );
    assert_eq!(
        cache.either_modified((&4, &5)),
        Err(Error::NoModifiedFieldForChunk(4))
    );
}

#[test]
fn hash_children_hashes_two_chunks_side_by_side() {
    let cache = cache_of(&[1, 2, 3]);
    assert_eq!(cache.hash_children((&1, &2)), Ok(keccak(&chunks(&[2, 3]))));
    assert_eq!(cache.hash_children((&0, &1)), Ok(keccak(&chunks(&[1, 2]))));
    assert_eq!(
        cache.hash_children((&2, &3)),
        Err(Error::NoChildrenForHashing((2, 3)))
    );
    assert_eq!(
        cache_of(&[1]).hash_children((&0, &1)),
        Err(Error::NoChildrenForHashing((0, 1)))
    );
}

#[test]
fn hash_chunk_pair_hashes_chunks_that_lie_apart() {
    let cache = cache_of(&[1, 2, 3, 4]);
    assert_eq!(hash_chunk_pair(&cache, 0, 3), Ok(keccak(&chunks(&[1, 4]))));
    assert_eq!(hash_chunk_pair(&cache, 1, 2), Ok(keccak(&chunks(&[2, 3]))));
    assert_eq!(
        hash_chunk_pair(&cache, 1, 4),
        Err(Error::NoChildrenForHashing((1, 4)))
    );
}

#[test]
fn chunk_splice_replaces_chunks_by_more_or_fewer() {
    let mut cache = cache_of(&[1, 2, 3, 4]);
    cache.modify_chunk(3, &[4u8; 32]).unwrap();
    let removed = cache.chunk_splice(1..3, chunks(&[7, 8, 9]));
    assert_eq!(removed, chunks(&[2, 3]));
    assert_eq!(cache.bytes_len(), 5 * 32);
    assert_eq!(cache.changed(0), Ok(false));
    assert_eq!(cache.changed(1), Ok(true));
    assert_eq!(cache.changed(2), Ok(true));
    assert_eq!(cache.changed(3), Ok(true));
    assert_eq!(cache.changed(4), Ok(true));
    assert_eq!(cache.changed(5), Err(Error::NoModifiedFieldForChunk(5)));
    assert_eq!(cache.clone().into_merkle_tree(), chunks(&[1, 7, 8, 9, 4]));

    let removed = cache.chunk_splice(0..4, Vec::new());
    assert_eq!(removed, chunks(&[1, 7, 8, 9]));
    assert_eq!(cache.total_modifications(), 1);
    assert_eq!(cache.clone().into_merkle_tree(), chunks(&[4]));

    let removed = cache.chunk_splice(1..1, chunks(&[5]));
    assert!(removed.is_empty());
    assert_eq!(cache.into_merkle_tree(), chunks(&[4, 5]));
}

#[test]
fn single_chunk_splice_replaces_one_chunk() {
    let mut cache = cache_of(&[1, 2, 3]);
    let removed = cache.single_chunk_splice(1, chunks(&[8]));
    assert_eq!(removed, chunks(&[2]));
    assert_eq!(cache.changed(1), Ok(true));
    assert_eq!(cache.total_modifications(), 1);
    assert_eq!(cache.into_merkle_tree(), chunks(&[1, 8, 3]));
}

#[test]
fn chunk_slice_mut_writes_in_place_without_marking() {
    let mut cache = cache_of(&[1, 2, 3]);
    {
        let slice = cache.chunk_slice_mut(1..3).unwrap();
        assert_eq!(slice.len(), 64);
        slice[0] = 0xaa;
        slice[63] = 0xbb;
    }
    let mut expected = chunks(&[1, 2, 3]);
    expected[32] = 0xaa;
    expected[95] = 0xbb;
    assert_eq!(cache.total_modifications(), 0);
    assert_eq!(cache.clone().into_merkle_tree(), expected);

    assert_eq!(
        cache.chunk_slice_mut(2..4).err(),
        Some(Error::NoBytesForChunk(128))
    );
    assert_eq!(
        cache.chunk_slice_mut(2..1).err(),
        Some(Error::NoBytesForChunk(32))
    );
    assert_eq!(cache.chunk_slice_mut(3..3).map(|slice| slice.len()), Ok(0));
}

#[test]
fn mix_in_length_hashes_the_chunk_with_the_length() {
    let mut cache = cache_of(&[1, 2]);
    assert_eq!(cache.mix_in_length(0, 3), Ok(()));
    let mut mixed_in = vec![1u8; 32];
    mixed_in.extend(vec![3, 0, 0, 0, 0, 0, 0, 0]);
    assert_eq!(mixed_in.len(), 40);
    assert_eq!(cache.root(), Ok(keccak(&mixed_in)));
    assert_eq!(cache.get_chunk(1), Ok(&[2u8; 32][..]));
    assert_eq!(cache.changed(0), Ok(true));
    assert_eq!(cache.changed(1), Ok(false));
    assert_eq!(cache.bytes_len(), 64);
}

#[test]
fn mix_in_length_twice_is_not_mixing_once() {
    let mut once = cache_of(&[1]);
    once.mix_in_length(0, 5).unwrap();
    let mut twice = cache_of(&[1]);
    twice.mix_in_length(0, 5).unwrap();
    twice.mix_in_length(0, 5).unwrap();
    assert_ne!(once.root(), twice.root());

    let mut first = once.root().unwrap();
    first.extend(5u64.to_le_bytes());
    assert_eq!(twice.root(), Ok(keccak(&first)));
}

#[test]
fn mix_in_length_needs_the_chunk() {
    let mut cache = cache_of(&[1]);
    assert_eq!(cache.mix_in_length(1, 5), Err(Error::NoBytesForRoot));
    assert_eq!(cache.into_merkle_tree(), chunks(&[1]));
}

#[test]
fn total_modifications_counts_marked_chunks() {
    let mut cache = cache_of(&[1, 2, 3, 4]);
    assert_eq!(cache.total_modifications(), 0);
    cache.modify_chunk(0, &[1u8; 32]).unwrap();
    cache.modify_chunk(3, &[1u8; 32]).unwrap();
    cache.modify_chunk(3, &[2u8; 32]).unwrap();
    assert_eq!(cache.total_modifications(), 2);
}

#[test]
fn from_leaves_and_subtrees_hangs_the_subtrees_from_the_leaves() {
    let item: Vec<Vec<u64>> = vec![vec![1], vec![2], vec![3]];
    let first = TreeHashCache::from_bytes(merkleize(chunks(&[1, 2])).unwrap()).unwrap();
    let second = cache_of(&[3]);
    let third = cache_of(&[4]);
    let roots = {
        let mut roots = first.root().unwrap();
        roots.extend(chunks(&[3, 4, 0]));
        roots
    };
    let first_bytes = first.clone().into_merkle_tree();
    let cache = TreeHashCache::from_leaves_and_subtrees(&item, vec![first, second, third]).unwrap();
    let internal = merkleize(roots).unwrap();
    let mut expected = internal[..3 * 32].to_vec();
    expected.extend(first_bytes);
    expected.extend(chunks(&[3, 4, 0]));
    assert_eq!(cache.total_modifications(), 0);
    assert_eq!(cache.bytes_len(), 9 * 32);
    assert_eq!(cache.into_merkle_tree(), expected);
}

#[test]
fn from_leaves_and_subtrees_refuses_what_has_no_leaves_or_no_root() {
    assert_eq!(
        TreeHashCache::from_leaves_and_subtrees(&7u64, vec![]),
        Err(Error::ShouldNotProduceBTreeOverlay)
    );
    let item: Vec<Vec<u64>> = vec![vec![1], vec![2]];
    assert_eq!(
        TreeHashCache::from_leaves_and_subtrees(&item, vec![cache_of(&[1]), cache_of(&[])]),
        Err(Error::NoBytesForRoot)
    );
}

#[test]
fn from_subtrees_of_a_single_subtree_is_that_subtree() {
    let overlay = BTreeOverlay::from_lengths(0, vec![3]).unwrap();
    let subtree = TreeHashCache::from_bytes(merkleize(chunks(&[1, 2])).unwrap()).unwrap();
    let bytes = subtree.clone().into_merkle_tree();
    let cache = TreeHashCache::from_subtrees(&overlay, vec![subtree]).unwrap();
    assert_eq!(cache.into_merkle_tree(), bytes);
}

#[test]
fn rehashing_follows_the_marks_up_to_the_root() {
    let tree = merkleize(chunks(&[1, 2, 3, 4])).unwrap();
    let overlay = BTreeOverlay::from_lengths(0, vec![1, 1, 1, 1]).unwrap();

    // Nothing is marked: nothing is hashed.
    let mut cache = TreeHashCache::from_bytes(tree.clone()).unwrap();
    assert_eq!(rehash_internal_nodes(&mut cache, &overlay, false), Ok(()));
    assert_eq!(cache.total_modifications(), 0);
    assert_eq!(cache.clone().into_merkle_tree(), tree);

    // One leaf is rewritten: it and its two ancestors are marked.
    cache.modify_chunk(5, &[5u8; 32]).unwrap();
    assert_eq!(rehash_internal_nodes(&mut cache, &overlay, false), Ok(()));
    assert_eq!(cache.total_modifications(), 3);
    assert_eq!(cache.changed(0), Ok(true));
    assert_eq!(cache.changed(1), Ok(false));
    assert_eq!(cache.changed(2), Ok(true));
    assert_eq!(cache.changed(5), Ok(true));
    assert_eq!(
        cache.into_merkle_tree(),
        merkleize(chunks(&[1, 2, 5, 4])).unwrap()
    );

    // With a forced root, the root is hashed though nothing is marked.
    let mut cache = TreeHashCache::from_bytes(tree.clone()).unwrap();
    assert_eq!(rehash_internal_nodes(&mut cache, &overlay, true), Ok(()));
    assert_eq!(cache.total_modifications(), 1);
    assert_eq!(cache.changed(0), Ok(true));
    assert_eq!(cache.into_merkle_tree(), tree);
}

#[test]
fn rehashing_needs_the_whole_tree_in_the_cache() {
    let overlay = BTreeOverlay::from_lengths(1, vec![1, 1]).unwrap();
    let mut cache = cache_of(&[1, 2, 3]);
    assert_eq!(
        rehash_internal_nodes(&mut cache, &overlay, true),
        Err(Error::NoBytesForChunk(3))
    );
    assert_eq!(cache.total_modifications(), 0);
}

#[test]
fn changing_one_of_four_leaves_marks_it_and_its_two_ancestors() {
    let old_leaves = chunks(&[1, 2, 3, 4]);
    let new_leaves = chunks(&[1, 2, 5, 4]);
    let overlay = BTreeOverlay::from_lengths(0, vec![1, 1, 1, 1]).unwrap();
    let mut cache = TreeHashCache::from_bytes(merkleize(old_leaves.clone()).unwrap()).unwrap();
    assert_eq!(
        update_packed_leaves(&mut cache, &overlay, &new_leaves, 4, &old_leaves, 4),
        Ok(())
    );
    assert_eq!(cache.total_modifications(), 1);
    assert_eq!(cache.changed(5), Ok(true));
    assert_eq!(rehash_internal_nodes(&mut cache, &overlay, false), Ok(()));
    assert_eq!(cache.total_modifications(), 3);
    for chunk in 0..7 {
        assert_eq!(cache.changed(chunk), Ok(chunk == 0 || chunk == 2 || chunk == 5));
    }
    assert_eq!(cache.into_merkle_tree(), merkleize(new_leaves).unwrap());
}

#[test]
fn leaves_that_are_the_same_are_not_written() {
    let leaves = chunks(&[1, 2, 3, 0]);
    let overlay = BTreeOverlay::from_lengths(0, vec![1, 1, 1]).unwrap();
    // The cache holds something else, but no leaf has changed.
    let mut cache = cache_of(&[9, 9, 9, 9, 9, 9, 9]);
    assert_eq!(
        update_packed_leaves(&mut cache, &overlay, &leaves, 3, &leaves, 3),
        Ok(())
    );
    assert_eq!(cache.total_modifications(), 0);
    assert_eq!(cache.into_merkle_tree(), chunks(&[9, 9, 9, 9, 9, 9, 9]));
}

#[test]
fn leaves_that_come_or_go_are_written() {
    let overlay = BTreeOverlay::from_lengths(0, vec![1, 1, 1, 1]).unwrap();
    let old_leaves = chunks(&[1, 2, 3, 0]);
    let new_leaves = chunks(&[1, 2, 0, 0]);
    let mut cache = TreeHashCache::from_bytes(merkleize(old_leaves.clone()).unwrap()).unwrap();
    assert_eq!(
        update_packed_leaves(&mut cache, &overlay, &new_leaves, 2, &old_leaves, 3),
        Ok(())
    );
    assert_eq!(cache.changed(5), Ok(true));
    assert_eq!(cache.get_chunk(5), Ok(&[0u8; 32][..]));
    assert_eq!(cache.total_modifications(), 1);

    let mut cache = TreeHashCache::from_bytes(merkleize(new_leaves.clone()).unwrap()).unwrap();
    assert_eq!(
        update_packed_leaves(&mut cache, &overlay, &old_leaves, 3, &new_leaves, 2),
        Ok(())
    );
    assert_eq!(cache.get_chunk(5), Ok(&[3u8; 32][..]));
    assert_eq!(cache.total_modifications(), 1);
}

#[test]
fn errors_are_cloned_as_they_are() {
    let errors = vec![
        Error::ShouldNotProduceBTreeOverlay,
        Error::NoFirstNode,
        Error::NoBytesForRoot,
        Error::BytesAreNotEvenChunks(33),
        Error::NoModifiedFieldForChunk(4),
        Error::NoBytesForChunk(5),
        Error::NoChildrenForHashing((6, 7)),
        Error::CannotMerkleizeZeroLeaves,
        Error::LeavesMustBePowerOfTwo,
    ];
    for (i, error) in errors.iter().enumerate() {
        assert_eq!(&error.clone(), error);
        for (j, other) in errors.iter().enumerate() {
            assert_eq!(error == other, i == j);
        }
    }
    assert_ne!(Error::NoBytesForChunk(5), Error::NoBytesForChunk(6));
    assert_ne!(
        Error::NoChildrenForHashing((6, 7)),
        Error::NoChildrenForHashing((7, 6))
    );
}
