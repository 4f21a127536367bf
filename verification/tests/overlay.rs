use cached_tree_hash::{BTreeOverlay, Error};

#[test]
fn three_single_chunk_leaves_make_a_tree_of_seven_nodes() {
    let overlay = BTreeOverlay::from_lengths(0, vec![1, 1, 1]).unwrap();
    assert_eq!(overlay.num_leaf_nodes(), 4);
    assert_eq!(overlay.num_internal_nodes(), 3);
    assert_eq!(overlay.total_nodes(), 7);
    assert_eq!(overlay.next_node(), 7);
    assert_eq!(overlay.first_leaf_node(), Ok(3));
    assert_eq!(overlay.root(), 0);
}

#[test]
fn internal_nodes_come_with_their_children() {
    let overlay = BTreeOverlay::from_lengths(0, vec![1, 1, 1]).unwrap();
    assert_eq!(
        overlay.iter_internal_nodes(),
        vec![(0, (1, 2)), (1, (3, 4)), (2, (5, 6))]
    );
    assert_eq!(overlay.iter_leaf_nodes(), vec![3, 4, 5, 6]);
    let mut backwards = overlay.iter_internal_nodes();
    backwards.reverse();
    assert_eq!(backwards[0], (2, (5, 6)));
    assert_eq!(backwards[2], (0, (1, 2)));
}

#[test]
fn leaves_take_as_many_chunks_as_their_subtrees() {
    let overlay = BTreeOverlay::from_lengths(10, vec![3, 1, 7]).unwrap();
    assert_eq!(overlay.num_leaf_nodes(), 4);
    assert_eq!(overlay.num_internal_nodes(), 3);
    assert_eq!(overlay.iter_leaf_nodes(), vec![13, 16, 17, 24]);
    assert_eq!(overlay.next_node(), 25);
    assert_eq!(overlay.first_leaf_node(), Ok(13));
    assert_eq!(
        overlay.iter_internal_nodes(),
        vec![(10, (11, 12)), (11, (13, 16)), (12, (17, 24))]
    );
}

#[test]
fn a_power_of_two_of_leaves_is_not_padded() {
    let overlay = BTreeOverlay::from_lengths(5, vec![2, 2]).unwrap();
    assert_eq!(overlay.num_leaf_nodes(), 2);
    assert_eq!(overlay.num_internal_nodes(), 1);
    assert_eq!(overlay.total_nodes(), 3);
    assert_eq!(overlay.iter_leaf_nodes(), vec![6, 8]);
    assert_eq!(overlay.next_node(), 10);
}

#[test]
fn a_single_leaf_is_its_own_root() {
    let overlay = BTreeOverlay::from_lengths(4, vec![1]).unwrap();
    assert_eq!(overlay.num_leaf_nodes(), 1);
    assert_eq!(overlay.num_internal_nodes(), 0);
    assert_eq!(overlay.total_nodes(), 1);
    assert_eq!(overlay.first_leaf_node(), Ok(4));
    assert_eq!(overlay.root(), 4);
    assert_eq!(overlay.next_node(), 5);
    assert!(overlay.iter_internal_nodes().is_empty());
}

#[test]
fn no_lengths_make_one_padding_leaf() {
    let overlay = BTreeOverlay::from_lengths(0, vec![]).unwrap();
    assert_eq!(overlay.num_leaf_nodes(), 1);
    assert_eq!(overlay.num_internal_nodes(), 0);
    assert_eq!(overlay.iter_leaf_nodes(), vec![0]);
    assert_eq!(overlay.next_node(), 1);
}

#[test]
fn the_overlay_of_nothing_has_no_first_leaf() {
    let overlay = BTreeOverlay::empty();
    assert_eq!(overlay.first_leaf_node(), Err(Error::NoFirstNode));
    assert_eq!(overlay.num_leaf_nodes(), 0);
}

#[test]
fn the_overlay_of_a_list_follows_its_leaves() {
    let list: Vec<u64> = (0..9).collect();
    let overlay = BTreeOverlay::new(&list, 2).unwrap();
    assert_eq!(overlay.num_leaf_nodes(), 4);
    assert_eq!(overlay.num_internal_nodes(), 3);
    assert_eq!(overlay.iter_leaf_nodes(), vec![5, 6, 7, 8]);
    assert_eq!(overlay.next_node(), 9);

    let nested: Vec<Vec<u64>> = vec![(0..5).collect(), vec![1], vec![]];
    let overlay = BTreeOverlay::new(&nested, 0).unwrap();
    assert_eq!(overlay.num_leaf_nodes(), 4);
    assert_eq!(overlay.iter_leaf_nodes(), vec![3, 6, 7, 8]);
    assert_eq!(overlay.next_node(), 9);
}

#[test]
fn a_scalar_has_no_overlay() {
    assert_eq!(
        BTreeOverlay::new(&7u64, 0).err(),
        Some(Error::ShouldNotProduceBTreeOverlay)
    );
}

#[test]
fn with_lengths_makes_what_from_lengths_makes() {
    let overlay = BTreeOverlay::with_lengths(2, vec![2, 1, 1]);
    let same = BTreeOverlay::from_lengths(2, vec![2, 1, 1]).unwrap();
    assert_eq!(overlay.iter_leaf_nodes(), same.iter_leaf_nodes());
    assert_eq!(overlay.iter_internal_nodes(), same.iter_internal_nodes());
    assert_eq!(overlay.next_node(), 10);
    assert_eq!(same.next_node(), 10);
}
