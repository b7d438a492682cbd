use kasma::byte_range::ByteRange;
use kasma::byte_range_tree::{ByteRangeNode, ByteRangeStatus, ByteRangeTree};

fn leaf_ranges(t: &ByteRangeTree) -> Vec<(u64, u64)> {
    t.lowest_level_nodes.iter().map(|&i| (t.nodes[i].range.start, t.nodes[i].range.end)).collect()
}

fn leaves_tile(t: &ByteRangeTree) -> bool {
    let r = leaf_ranges(t);
    r.windows(2).all(|w| w[0].1 + 1 == w[1].0)
}

#[test]
fn tree_from_whole_missing_file_is_one_root() {
    let t = ByteRangeTree::new_from_missing_bytes(1_000_000, 7, vec![ByteRange::new(0, 999_999)]);
    assert_eq!(t.nodes.len(), 1);
    assert_eq!(t.root, 0);
    assert_eq!(t.max_worker_num, 7);
    assert_eq!(leaf_ranges(&t), vec![(0, 1_000_000)]);
    assert_eq!(t.nodes[0].status, ByteRangeStatus::Initial);
}

#[test]
fn tree_from_missing_prefix_has_two_leaves() {
    let t = ByteRangeTree::new_from_missing_bytes(1_000_000, 7, vec![ByteRange::new(0, 499_999)]);
    assert_eq!(leaf_ranges(&t), vec![(0, 499_999), (500_000, 1_000_000)]);
    assert_eq!(t.max_worker_num, 1);
    let left = t.nodes[t.lowest_level_nodes[0]];
    let right = t.nodes[t.lowest_level_nodes[1]];
    assert_eq!(left.status, ByteRangeStatus::Initial);
    assert_eq!(left.worker_number, 0);
    assert_eq!(right.status, ByteRangeStatus::Complete);
    assert_eq!(right.worker_number, 1);
    assert_eq!(left.parent, Some(0));
    assert!(leaves_tile(&t));
}

#[test]
fn split_of_root_halves_it() {
    let mut t = ByteRangeTree::new_from_missing_bytes(1_000_000, 7, vec![ByteRange::new(0, 999_999)]);
    assert!(t.split().is_ok());
    assert_eq!(leaf_ranges(&t), vec![(0, 500_000), (500_001, 1_000_000)]);
    let left = t.nodes[t.lowest_level_nodes[0]];
    let right = t.nodes[t.lowest_level_nodes[1]];
    assert_eq!(left.worker_number, 0);
    assert_eq!(right.worker_number, 8);
    assert_eq!(t.max_worker_num, 8);
    assert_eq!(left.parent, Some(0));
    assert_eq!(right.parent, Some(0));
    assert_eq!(t.nodes[0].left_child, Some(t.lowest_level_nodes[0]));
    assert_eq!(t.nodes[0].right_child, Some(t.lowest_level_nodes[1]));
    assert!(leaves_tile(&t));
}

#[test]
fn second_split_halves_every_leaf() {
    let root = ByteRangeNode::new(ByteRange::new(0, 200_000), ByteRangeStatus::Initial, 0);
    let mut t = ByteRangeTree::new(root, 0);
    assert_eq!(t.split(), Ok(()));
    assert_eq!(leaf_ranges(&t), vec![(0, 100_000), (100_001, 200_000)]);
    assert_eq!(t.split(), Ok(()));
    assert_eq!(leaf_ranges(&t), vec![(0, 50_000), (50_001, 100_000), (100_001, 150_000), (150_001, 200_000)]);
    assert_eq!(t.max_worker_num, 3);
    assert!(leaves_tile(&t));
}

#[test]
fn third_split_gives_eighths() {
    let mut t = ByteRangeTree::new_from_missing_bytes(1_000_000, 7, vec![ByteRange::new(0, 999_999)]);
    assert!(t.split().is_ok());
    assert!(t.split().is_ok());
    assert!(t.split().is_ok());
    assert_eq!(
        leaf_ranges(&t),
        vec![
            (0, 125_000),
            (125_001, 250_000),
            (250_001, 375_000),
            (375_001, 500_000),
            (500_001, 625_000),
            (625_001, 750_000),
            (750_001, 875_000),
            (875_001, 1_000_000)
        ]
    );
    assert_eq!(t.max_worker_num, 14);
    assert!(leaves_tile(&t));
}

#[test]
fn split_skips_complete_leaves() {
    let mut t = ByteRangeTree::new_from_missing_bytes(1_000_000, 7, vec![ByteRange::new(0, 999_999)]);
    assert!(t.split().is_ok());
    let right = t.lowest_level_nodes[1];
    t.set_status(right, ByteRangeStatus::Complete);
    assert!(t.split().is_ok());
    assert_eq!(leaf_ranges(&t), vec![(0, 250_000), (250_001, 500_000), (500_001, 1_000_000)]);
}

#[test]
fn split_halves_a_range_that_does_not_start_at_zero() {
    let root = ByteRangeNode::new(ByteRange::new(1000, 101_000), ByteRangeStatus::Initial, 0);
    let mut t = ByteRangeTree::new(root, 0);
    assert_eq!(t.split_byte_range_node(0, true), Ok(()));
    assert_eq!(leaf_ranges(&t), vec![(1000, 51_000), (51_001, 101_000)]);
}

#[test]
fn split_of_too_small_range_fails() {
    let mut t = ByteRangeTree::new(ByteRangeNode::new(ByteRange::new(0, 10_000), ByteRangeStatus::Initial, 0), 0);
    assert_eq!(t.split_byte_range_node(0, true), Err("range was invalid".to_string()));
    let mut t = ByteRangeTree::new(ByteRangeNode::new(ByteRange::new(5, 6), ByteRangeStatus::Initial, 0), 0);
    assert_eq!(t.split_byte_range_node(0, false), Err("Split byte is zero".to_string()));
    assert_eq!(leaf_ranges(&t), vec![(5, 6)]);
}

#[test]
fn node_children_link_to_parent() {
    let mut nodes = vec![ByteRangeNode::new(ByteRange::new(0, 100), ByteRangeStatus::Initial, 0)];
    ByteRangeNode::create_left_child(&mut nodes, 0, ByteRange::new(0, 50), ByteRangeStatus::InUse, 1);
    ByteRangeNode::create_right_child(&mut nodes, 0, ByteRange::new(51, 100), ByteRangeStatus::Complete, 2);
    assert_eq!(nodes.len(), 3);
    assert_eq!(nodes[0].left_child, Some(1));
    assert_eq!(nodes[0].right_child, Some(2));
    assert_eq!(nodes[1].parent, Some(0));
    assert_eq!(nodes[2].parent, Some(0));
    assert_eq!(nodes[2].worker_number, 2);
    let mut root = nodes[0];
    root.remove_children();
    assert_eq!(root.left_child, None);
    assert_eq!(root.right_child, None);
}

#[test]
fn tree_queries_by_status_worker_and_range() {
    let mut t = ByteRangeTree::new_from_missing_bytes(1_000_000, 7, vec![ByteRange::new(0, 999_999)]);
    t.split().unwrap();
    let left = t.lowest_level_nodes[0];
    let right = t.lowest_level_nodes[1];
    t.set_status(right, ByteRangeStatus::ReuseRequested);
    assert!(t.any_leaf_with_status(ByteRangeStatus::ReuseRequested));
    assert!(!t.any_leaf_with_status(ByteRangeStatus::Complete));
    assert_eq!(t.find_leaf_of_worker(ByteRangeStatus::ReuseRequested, 8), Some(1));
    assert_eq!(t.find_leaf_of_worker(ByteRangeStatus::ReuseRequested, 0), None);
    assert_eq!(t.find_leaf_of_any_status(0), Some(0));
    assert_eq!(t.lowest_level_nodes_by_status(ByteRangeStatus::Initial), vec![left]);
    assert_eq!(t.find_leaf_with_range(ByteRange::new(500_001, 1_000_000)), Some(1));
    assert_eq!(t.search_node(ByteRange::new(0, 500_000)), Some(left));
    assert_eq!(t.search_node(ByteRange::new(0, 1_000_000)), None);
    assert_eq!(t.family_of(ByteRange::new(0, 500_000)), Some((0, left, right)));
    assert_eq!(t.family_of(ByteRange::new(0, 1_000_000)), None);
}

#[test]
fn leaf_edits_insert_and_drop() {
    let mut t = ByteRangeTree::new_from_missing_bytes(1_000_000, 7, vec![ByteRange::new(0, 999_999)]);
    t.split().unwrap();
    t.insert_leaf(0, 0);
    assert_eq!(leaf_ranges(&t), vec![(0, 1_000_000), (0, 500_000), (500_001, 1_000_000)]);
    t.remove_leaf_with_range(ByteRange::new(0, 500_000));
    t.remove_leaf_with_range(ByteRange::new(500_001, 1_000_000));
    t.remove_leaf_with_range(ByteRange::new(1, 2));
    assert_eq!(leaf_ranges(&t), vec![(0, 1_000_000)]);
    t.set_range(0, ByteRange::new(0, 10));
    assert_eq!(leaf_ranges(&t), vec![(0, 10)]);
}
