use cached_tree_hash::list::{
    build_list, build_vec_leaves, encode_list, leaves_byte_len, list_num_bytes,
    list_num_child_nodes, list_offsets, list_overlay, update_list,
};
use cached_tree_hash::merkle::merkleize;
use cached_tree_hash::{process_values, CachedTreeHash, Error, ItemKind, LeafStatus, TreeHashCache};

fn keccak(bytes: &[u8]) -> Vec<u8> {
    tiny_keccak::keccak256(bytes).to_vec()
}

fn mix(root: &[u8], length: u64) -> Vec<u8> {
    let mut bytes = root.to_vec();
    bytes.extend(length.to_le_bytes());
    keccak(&bytes)
}

/// The tree of a list of packed integers, spelled out.
fn packed_tree(list: &[u64]) -> Vec<u8> {
    let mut leaves = Vec::new();
    for item in list {
        leaves.extend(item.to_le_bytes());
    }
    let mut tree = merkleize(leaves).unwrap();
    let root = mix(&tree[0..32], list.len() as u64);
    tree[0..32].copy_from_slice(&root);
    tree
}

/// The tree of a list of lists of packed integers, spelled out.
fn nested_tree(list: &[Vec<u64>]) -> Vec<u8> {
    let leaves = list.len().next_power_of_two();
    let mut roots = Vec::new();
    let mut subtrees = Vec::new();
    for item in list {
        let tree = packed_tree(item);
        roots.extend(&tree[0..32]);
        subtrees.extend(tree);
    }
    let internal = merkleize(roots).unwrap();
    let mut tree = internal[..(leaves - 1) * 32].to_vec();
    tree.extend(subtrees);
    tree.extend(vec![0u8; (leaves - list.len()) * 32]);
    let root = mix(&tree[0..32], list.len() as u64);
    tree[0..32].copy_from_slice(&root);
    tree
}

fn built<T: CachedTreeHash>(item: &T) -> TreeHashCache {
    TreeHashCache::new(item).unwrap()
}

fn flags(cache: &TreeHashCache) -> Vec<bool> {
    (0..cache.bytes_len() / 32)
        .map(|chunk| cache.changed(chunk).unwrap())
        .collect()
}

#[test]
fn a_u64_is_one_chunk_of_its_little_endian_bytes() {
    let cache = built(&0x0102030405060708u64);
    let mut expected = vec![8u8, 7, 6, 5, 4, 3, 2, 1];
    expected.extend(vec![0u8; 24]);
    assert_eq!(cache.total_modifications(), 0);
    assert_eq!(cache.root(), Ok(expected.clone()));
    assert_eq!(cache.into_merkle_tree(), expected);
}

#[test]
fn what_a_u64_says_of_itself() {
    assert_eq!(u64::item_kind(), ItemKind::Packed);
    assert_eq!(u64::packing_factor(), 4);
    assert_eq!(5u64.num_bytes(), 8);
    assert_eq!(5u64.num_packable_bytes(), 8);
    assert_eq!(5u64.num_child_nodes(), 0);
    assert_eq!(5u64.encode(), vec![5, 0, 0, 0, 0, 0, 0, 0]);
    assert_eq!(5u64.offsets(), Err(Error::ShouldNotProduceBTreeOverlay));
}

#[test]
fn what_a_list_says_of_itself() {
    let list: Vec<u64> = (1..=9).collect();
    assert_eq!(Vec::<u64>::item_kind(), ItemKind::Composite);
    assert_eq!(Vec::<u64>::packing_factor(), 1);
    assert_eq!(list.num_bytes(), 72);
    assert_eq!(list.num_packable_bytes(), 32);
    assert_eq!(list.offsets(), Ok(vec![1, 1, 1]));
    assert_eq!(list.num_child_nodes(), 6);
    assert_eq!(list.encode().len(), 72);
    assert_eq!(&list.encode()[8..16], &2u64.to_le_bytes()[..]);
    assert_eq!(leaves_byte_len(&list), 128);
    let leaves = build_vec_leaves(&list).unwrap();
    assert_eq!(leaves.len(), 128);
    assert_eq!(&leaves[..72], &list.encode()[..]);
    assert_eq!(&leaves[72..], &[0u8; 56][..]);

    let empty: Vec<u64> = vec![];
    assert_eq!(empty.num_bytes(), 0);
    assert_eq!(empty.offsets(), Ok(vec![]));
    assert_eq!(empty.num_child_nodes(), 0);

    let nested: Vec<Vec<u64>> = vec![(0..5).collect(), vec![1], vec![]];
    assert_eq!(nested.offsets(), Ok(vec![3, 1, 1]));
    assert_eq!(nested.num_child_nodes(), 8);
    assert_eq!(nested.num_bytes(), 48);
}

#[test]
fn a_u64_update_rewrites_its_chunk_only_when_it_has_changed() {
    let mut cache = built(&7u64);
    assert_eq!(7u64.update_cache(&7u64, &mut cache, 0), Ok(1));
    assert_eq!(cache.total_modifications(), 0);
    assert_eq!(cache.clone().into_merkle_tree(), built(&7u64).into_merkle_tree());

    assert_eq!(8u64.update_cache(&7u64, &mut cache, 0), Ok(1));
    assert_eq!(cache.total_modifications(), 1);
    assert_eq!(cache.clone().into_merkle_tree(), built(&8u64).into_merkle_tree());

    assert_eq!(
        9u64.update_cache(&8u64, &mut cache, 1),
        Err(Error::NoBytesForChunk(1))
    );
    assert_eq!(9u64.update_cache(&9u64, &mut cache, 5), Ok(6));
    assert_eq!(cache.into_merkle_tree(), built(&8u64).into_merkle_tree());
}

#[test]
fn a_list_of_packed_items_is_built_from_its_packed_leaves() {
    for len in [0usize, 1, 3, 4, 5, 8, 9, 16, 17] {
        let list: Vec<u64> = (0..len as u64).map(|i| i * 1000 + 7).collect();
        let cache = built(&list);
        assert_eq!(cache.total_modifications(), 0, "{}", len);
        assert_eq!(cache.into_merkle_tree(), packed_tree(&list), "{}", len);
    }
}

#[test]
fn a_list_of_lists_is_built_from_the_trees_of_its_items() {
    let lists: Vec<Vec<Vec<u64>>> = vec![
        vec![],
        vec![vec![]],
        vec![vec![1, 2, 3]],
        vec![vec![1], vec![2, 3, 4, 5, 6]],
        vec![(0..9).collect(), vec![], vec![7]],
        vec![vec![1], vec![2], vec![3], vec![4], vec![5]],
    ];
    for list in &lists {
        let cache = built(list);
        assert_eq!(cache.total_modifications(), 0);
        assert_eq!(cache.into_merkle_tree(), nested_tree(list));
    }
}

#[test]
fn updating_with_the_same_value_changes_nothing() {
    let list: Vec<u64> = (1..=16).collect();
    let mut cache = built(&list);
    let before = cache.clone();
    assert_eq!(list.update_cache(&list.clone(), &mut cache, 0), Ok(7));
    assert_eq!(cache.total_modifications(), 0);
    assert_eq!(cache.root(), before.root());
    assert_eq!(cache, before);

    let short: Vec<u64> = vec![1, 2];
    let mut cache = built(&short);
    let before = cache.clone();
    assert_eq!(short.update_cache(&short.clone(), &mut cache, 0), Ok(1));
    assert_eq!(cache, before);

    let nested: Vec<Vec<u64>> = vec![(0..9).collect(), vec![], vec![7]];
    let mut cache = built(&nested);
    let before = cache.clone();
    assert_eq!(nested.update_cache(&nested.clone(), &mut cache, 0), Ok(13));
    assert_eq!(cache.total_modifications(), 0);
    assert_eq!(cache, before);
}

#[test]
fn changing_one_of_four_leaves_marks_three_chunks() {
    // Four leaves that hold 1, 2, 3 and 4.
    let old: Vec<u64> = vec![1, 0, 0, 0, 2, 0, 0, 0, 3, 0, 0, 0, 4, 0, 0, 0];
    let mut new = old.clone();
    new[8] = 5;
    let mut cache = built(&old);
    assert_eq!(cache.bytes_len(), 7 * 32);
    assert_eq!(new.update_cache(&old, &mut cache, 0), Ok(7));
    assert_eq!(cache.total_modifications(), 3);
    assert_eq!(
        flags(&cache),
        vec![true, false, true, false, false, true, false]
    );
    assert_eq!(cache.into_merkle_tree(), packed_tree(&new));
}

#[test]
fn updating_a_list_of_packed_items_gives_the_tree_of_the_new_list() {
    let cases: Vec<(Vec<u64>, Vec<u64>)> = vec![
        (vec![1], vec![2]),
        (vec![1, 2], vec![1]),
        (vec![1, 0], vec![1]),
        (vec![1], vec![1, 0]),
        (vec![], vec![1]),
        (vec![1], vec![]),
        (vec![1, 2, 3, 4], vec![1, 2, 3, 4, 5]),
        (vec![1, 2, 3, 4, 5], vec![1, 2, 3, 4]),
        ((0..9).collect(), (0..13).collect()),
        ((0..16).collect(), (0..17).collect()),
        ((0..17).collect(), (0..3).collect()),
        ((0..32).collect(), (0..32).rev().collect()),
        ((0..20).collect(), (0..20).map(|i| if i == 19 { 0 } else { i }).collect()),
    ];
    for (old, new) in &cases {
        let mut cache = built(old);
        let chunks = packed_tree(new).len() / 32;
        assert_eq!(new.update_cache(old, &mut cache, 0), Ok(chunks));
        assert_eq!(cache.changed(0), Ok(true));
        assert_eq!(cache.into_merkle_tree(), packed_tree(new), "{:?} {:?}", old, new);
    }
}

#[test]
fn updating_a_list_of_lists_gives_the_tree_of_the_new_list() {
    let cases: Vec<(Vec<Vec<u64>>, Vec<Vec<u64>>)> = vec![
        (vec![vec![1]], vec![vec![2]]),
        (vec![vec![1]], vec![vec![1, 2]]),
        (vec![vec![1], vec![2]], vec![vec![1], vec![3]]),
        (vec![vec![1], vec![2], vec![3]], vec![vec![1], vec![2], vec![4]]),
        (vec![vec![1], vec![2], vec![3]], vec![vec![0], vec![2], vec![3]]),
        (vec![(0..9).collect(), vec![2]], vec![(1..10).collect(), vec![2]]),
        (vec![(0..9).collect(), vec![2]], vec![(0..9).collect(), vec![3, 3]]),
        (vec![(0..9).collect(), vec![2]], vec![(0..5).collect(), vec![2]]),
        (vec![vec![1], vec![2]], vec![vec![1], vec![2], vec![3]]),
        (vec![vec![1], vec![2], vec![3]], vec![vec![1]]),
        (vec![], vec![vec![]]),
        (vec![vec![]], vec![]),
        (vec![vec![], vec![]], vec![vec![], vec![0]]),
    ];
    for (old, new) in &cases {
        let mut cache = built(old);
        let chunks = nested_tree(new).len() / 32;
        assert_eq!(new.update_cache(old, &mut cache, 0), Ok(chunks));
        assert_eq!(cache.changed(0), Ok(true));
        assert_eq!(cache.into_merkle_tree(), nested_tree(new), "{:?} {:?}", old, new);
    }
}

#[test]
fn changing_one_item_of_a_list_of_lists_marks_its_tree_and_its_ancestors() {
    let old: Vec<Vec<u64>> = vec![vec![1], vec![2], vec![3], vec![4]];
    let mut new = old.clone();
    new[2] = vec![5];
    let mut cache = built(&old);
    assert_eq!(new.update_cache(&old, &mut cache, 0), Ok(7));
    assert_eq!(
        flags(&cache),
        vec![true, false, true, false, false, true, false]
    );
    assert_eq!(cache.into_merkle_tree(), nested_tree(&new));
}

#[test]
fn an_update_in_the_middle_of_a_cache_leaves_the_rest_alone() {
    let old: Vec<u64> = (0..8).collect();
    let new: Vec<u64> = (0..8).map(|i| i + 1).collect();
    let grown: Vec<u64> = (0..9).collect();
    let mut bytes = vec![0xaau8; 64];
    bytes.extend(packed_tree(&old));
    bytes.extend(vec![0xbbu8; 32]);

    let mut cache = TreeHashCache::from_bytes(bytes.clone()).unwrap();
    assert_eq!(new.update_cache(&old, &mut cache, 2), Ok(5));
    let mut expected = vec![0xaau8; 64];
    expected.extend(packed_tree(&new));
    expected.extend(vec![0xbbu8; 32]);
    assert_eq!(flags(&cache), vec![false, false, true, true, true, false]);
    assert_eq!(cache.into_merkle_tree(), expected);

    let mut cache = TreeHashCache::from_bytes(bytes).unwrap();
    assert_eq!(grown.update_cache(&old, &mut cache, 2), Ok(9));
    let mut expected = vec![0xaau8; 64];
    expected.extend(packed_tree(&grown));
    expected.extend(vec![0xbbu8; 32]);
    assert_eq!(
        flags(&cache),
        vec![false, false, true, true, true, true, true, true, true, false]
    );
    assert_eq!(cache.into_merkle_tree(), expected);
}

#[test]
fn an_update_needs_the_old_tree_in_the_cache() {
    let old: Vec<u64> = (0..8).collect();
    let new: Vec<u64> = (0..8).rev().collect();
    let mut cache = built(&old);
    assert_eq!(
        new.update_cache(&old, &mut cache, 1),
        Err(Error::NoBytesForChunk(3))
    );
    assert_eq!(cache.total_modifications(), 0);
    assert_eq!(cache.clone().into_merkle_tree(), packed_tree(&old));

    let mut empty = TreeHashCache::from_bytes(vec![]).unwrap();
    assert_eq!(
        new.update_cache(&old, &mut empty, 0),
        Err(Error::NoBytesForChunk(2))
    );
    assert_eq!(old.update_cache(&old.clone(), &mut empty, 0), Ok(3));
}

#[test]
fn packable_bytes_are_the_head_of_the_new_root_chunk() {
    let mut cache = built(&7u64);
    assert_eq!(
        9u64.packable_bytes(&7u64, &mut cache, 0),
        Ok(vec![9, 0, 0, 0, 0, 0, 0, 0])
    );
    assert_eq!(
        9u64.packable_bytes(&9u64, &mut cache, 1),
        Err(Error::NoBytesForChunk(1))
    );
    assert_eq!(
        1u64.packable_bytes(&9u64, &mut cache, 1),
        Err(Error::NoBytesForChunk(1))
    );

    let old: Vec<u64> = (0..8).collect();
    let new: Vec<u64> = (0..8).rev().collect();
    let mut cache = built(&old);
    assert_eq!(
        new.packable_bytes(&old, &mut cache, 0),
        Ok(packed_tree(&new)[0..32].to_vec())
    );
    assert_eq!(cache.root(), Ok(packed_tree(&new)[0..32].to_vec()));
}

#[test]
fn process_values_tells_what_has_become_of_a_leaf() {
    let one = [1u8; 32];
    let two = [2u8; 32];
    assert_eq!(process_values(Some(&one), Some(&one)), LeafStatus::Unchanged);
    assert_eq!(process_values(Some(&one), Some(&two)), LeafStatus::Changed);
    assert_eq!(process_values(Some(&one), None), LeafStatus::BecameValue);
    assert_eq!(process_values(None, Some(&one)), LeafStatus::BecamePadding);
    assert_eq!(process_values(None, None), LeafStatus::RemainedPadding);
    assert_eq!(process_values(Some(&[]), Some(&[0u8])), LeafStatus::Changed);
}

#[test]
fn the_steps_of_a_list_agree_with_the_list() {
    let list: Vec<u64> = (1..=9).collect();
    assert_eq!(encode_list(&list), list.encode());
    assert_eq!(list_num_bytes(&list), 72);
    assert_eq!(list_offsets(&list), vec![1, 1, 1]);
    assert_eq!(list_num_child_nodes(&list), 6);
    let overlay = list_overlay(&list, 3);
    assert_eq!(overlay.root(), 3);
    assert_eq!(overlay.first_leaf_node(), Ok(6));
    assert_eq!(overlay.next_node(), 10);
    assert_eq!(build_list(&list).unwrap().into_merkle_tree(), packed_tree(&list));

    let other: Vec<u64> = (1..=9).rev().collect();
    let mut cache = built(&other);
    assert_eq!(update_list(&list, &other, &mut cache, 0), Ok(7));
    assert_eq!(cache.into_merkle_tree(), packed_tree(&list));
}

#[test]
fn chunks_that_are_not_marked_hold_what_they_held() {
    let old: Vec<Vec<u64>> = vec![(0..9).collect(), vec![2], vec![3], (0..5).collect()];
    let mut new = old.clone();
    new[3][4] = 77;
    let mut cache = built(&old);
    let before = cache.clone().into_merkle_tree();
    assert_eq!(new.update_cache(&old, &mut cache, 0), Ok(15));
    let marks = flags(&cache);
    let after = cache.into_merkle_tree();
    assert_eq!(after, nested_tree(&new));
    for chunk in 0..15 {
        if !marks[chunk] {
            assert_eq!(
                after[chunk * 32..chunk * 32 + 32],
                before[chunk * 32..chunk * 32 + 32]
            );
        }
    }
    // The root, the parent of the last two leaves, and in the last item its
    // root and its second leaf.
    assert_eq!(
        marks,
        vec![
            true, false, true, false, false, false, false, false, false, false, false, false,
            true, false, true
        ]
    );
}
