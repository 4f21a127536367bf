use cached_tree_hash::merkle::{
    children, last_leaf_needs_padding, merkleize, num_bytes, num_nodes, num_sanitized_leaves,
    num_unsanitized_leaves, pad_for_leaf_count, pad_leaves, write_chunk,
};
use cached_tree_hash::pow2::{is_power_of_two, next_power_of_two};

fn keccak(bytes: &[u8]) -> Vec<u8> {
    tiny_keccak::keccak256(bytes).to_vec()
}

fn leaf(fill: u8) -> Vec<u8> {
    vec![fill; 32]
}

#[test]
fn merkleize_single_leaf_is_that_leaf() {
    let leaf: Vec<u8> = (0u8..32).collect();
    let tree = merkleize(leaf.clone()).unwrap();
    assert_eq!(tree.len(), 32);
    assert_eq!(tree, leaf);
}

#[test]
fn merkleize_two_leaves_hashes_them_into_the_root() {
    let mut leaves = leaf(1);
    leaves.extend(leaf(2));
    let tree = merkleize(leaves.clone()).unwrap();
    assert_eq!(tree.len(), 3 * 32);
    assert_eq!(&tree[0..32], &keccak(&leaves)[..]);
    assert_eq!(&tree[32..], &leaves[..]);
}

#[test]
fn merkleize_four_leaves_composes_the_root_bottom_up() {
    let mut leaves = Vec::new();
    for fill in 1u8..=4 {
        leaves.extend(leaf(fill));
    }
    let tree = merkleize(leaves.clone()).unwrap();
    assert_eq!(tree.len(), 7 * 32);
    let left = keccak(&leaves[0..64]);
    let right = keccak(&leaves[64..128]);
    let mut both = left.clone();
    both.extend(right.clone());
    assert_eq!(&tree[0..32], &keccak(&both)[..]);
    assert_eq!(&tree[32..64], &left[..]);
    assert_eq!(&tree[64..96], &right[..]);
    assert_eq!(&tree[96..], &leaves[..]);
}

#[test]
fn merkleize_eight_leaves_has_fifteen_nodes() {
    let mut leaves = Vec::new();
    for fill in 1u8..=8 {
        leaves.extend(leaf(fill));
    }
    let tree = merkleize(leaves.clone()).unwrap();
    assert_eq!(tree.len(), 15 * 32);
    for node in 0..7usize {
        let pair = &tree[(2 * node + 1) * 32..(2 * node + 3) * 32];
        assert_eq!(&tree[node * 32..node * 32 + 32], &keccak(pair)[..]);
    }
    assert_eq!(&tree[7 * 32..], &leaves[..]);
}

#[test]
fn merkleize_pads_fifty_bytes_to_two_leaves() {
    let input = vec![9u8; 50];
    let tree = merkleize(input.clone()).unwrap();
    assert_eq!(tree.len(), 3 * 32);
    let mut padded = input;
    padded.extend(vec![0u8; 14]);
    assert_eq!(&tree[32..], &padded[..]);
    assert_eq!(&tree[0..32], &keccak(&padded)[..]);
}

#[test]
fn merkleize_pads_three_leaves_to_four() {
    let mut leaves = Vec::new();
    for fill in 1u8..=3 {
        leaves.extend(leaf(fill));
    }
    let tree = merkleize(leaves.clone()).unwrap();
    assert_eq!(tree.len(), 7 * 32);
    assert_eq!(&tree[3 * 32..6 * 32], &leaves[..]);
    assert_eq!(&tree[6 * 32..], &[0u8; 32][..]);
}

#[test]
fn merkleize_of_nothing_is_one_leaf_of_zeros() {
    let tree = merkleize(Vec::new()).unwrap();
    assert_eq!(tree, vec![0u8; 32]);
}

#[test]
fn merkleize_leaves_whole_power_of_two_input_unpadded() {
    let mut leaves = leaf(5);
    leaves.extend(leaf(6));
    let tree = merkleize(leaves.clone()).unwrap();
    assert_eq!(&tree[32..], &leaves[..]);
}

#[test]
fn pad_leaves_pads_fifty_bytes_to_two_chunks() {
    let mut bytes = vec![7u8; 50];
    pad_leaves(&mut bytes);
    assert_eq!(bytes.len(), 64);
    assert_eq!(&bytes[..50], &[7u8; 50][..]);
    assert_eq!(&bytes[50..], &[0u8; 14][..]);
}

#[test]
fn pad_leaves_pads_three_chunks_to_four() {
    let mut bytes = vec![7u8; 96];
    pad_leaves(&mut bytes);
    assert_eq!(bytes.len(), 128);
    assert_eq!(&bytes[96..], &[0u8; 32][..]);
}

#[test]
fn pad_leaves_keeps_a_power_of_two_of_chunks() {
    let mut bytes = vec![7u8; 128];
    pad_leaves(&mut bytes);
    assert_eq!(bytes, vec![7u8; 128]);
}

#[test]
fn pad_leaves_makes_a_chunk_of_nothing() {
    let mut bytes = Vec::new();
    pad_leaves(&mut bytes);
    assert_eq!(bytes, vec![0u8; 32]);
}

#[test]
fn pad_for_leaf_count_adds_a_chunk_for_each_missing_leaf() {
    let mut bytes = vec![1u8; 10];
    pad_for_leaf_count(3, &mut bytes);
    assert_eq!(bytes.len(), 42);
    assert_eq!(&bytes[10..], &[0u8; 32][..]);

    let mut bytes = vec![1u8; 10];
    pad_for_leaf_count(4, &mut bytes);
    assert_eq!(bytes, vec![1u8; 10]);

    let mut bytes = Vec::new();
    pad_for_leaf_count(0, &mut bytes);
    assert_eq!(bytes, vec![0u8; 32]);

    let mut bytes = Vec::new();
    pad_for_leaf_count(5, &mut bytes);
    assert_eq!(bytes, vec![0u8; 96]);
}

#[test]
fn node_arithmetic() {
    assert_eq!(children(0), (1, 2));
    assert_eq!(children(1), (3, 4));
    assert_eq!(children(6), (13, 14));
    assert_eq!(num_nodes(1), 1);
    assert_eq!(num_nodes(4), 7);
    assert_eq!(num_nodes(8), 15);
    assert_eq!(num_bytes(0), 0);
    assert_eq!(num_bytes(3), 96);
}

#[test]
fn leaf_counts_round_up() {
    assert!(!last_leaf_needs_padding(0));
    assert!(last_leaf_needs_padding(1));
    assert!(last_leaf_needs_padding(33));
    assert!(!last_leaf_needs_padding(64));
    assert_eq!(num_unsanitized_leaves(0), 0);
    assert_eq!(num_unsanitized_leaves(1), 1);
    assert_eq!(num_unsanitized_leaves(32), 1);
    assert_eq!(num_unsanitized_leaves(33), 2);
    assert_eq!(num_unsanitized_leaves(usize::MAX), usize::MAX / 32 + 1);
    assert_eq!(num_sanitized_leaves(0), 1);
    assert_eq!(num_sanitized_leaves(32), 1);
    assert_eq!(num_sanitized_leaves(65), 4);
    assert_eq!(num_sanitized_leaves(128), 4);
    assert_eq!(num_sanitized_leaves(129), 8);
}

#[test]
fn powers_of_two_agree_with_the_standard_library() {
    for n in 0usize..=1025 {
        assert_eq!(is_power_of_two(n), n.is_power_of_two(), "{}", n);
        assert_eq!(next_power_of_two(n), n.next_power_of_two(), "{}", n);
    }
    assert_eq!(next_power_of_two(0), 1);
    assert_eq!(next_power_of_two(5), 8);
    assert!(!is_power_of_two(0));
    assert!(is_power_of_two(1 << 20));
}

#[test]
fn write_chunk_overwrites_one_chunk() {
    let mut buf = vec![0u8; 96];
    write_chunk(&mut buf, 32, &[3u8; 32]);
    assert_eq!(&buf[..32], &[0u8; 32][..]);
    assert_eq!(&buf[32..64], &[3u8; 32][..]);
    assert_eq!(&buf[64..], &[0u8; 32][..]);
}
