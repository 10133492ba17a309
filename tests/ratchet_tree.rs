use anonify::ratchet_tree::{NodeData, RatchetTree, TreeError};

fn node(key: u8) -> NodeData {
    NodeData { public_key: vec![key], private_key: None, unmerged_leaves: vec![] }
}

fn key_at(t: &RatchetTree, x: usize) -> Option<Vec<u8>> {
    t.nodes[x].as_ref().map(|n| n.public_key.clone())
}

/// A tree of `n` leaves, each leaf `j` holding key `j`, every internal node blank.
fn leaves_only(n: usize) -> RatchetTree {
    let mut t = RatchetTree::new(node(0));
    for j in 1..n {
        assert_eq!(t.add_leaf(node(j as u8)), Ok(j));
    }
    t
}

/// A full tree of four leaves with every node filled, node `x` holding key `100 + x`.
fn full_four() -> RatchetTree {
    let mut t = leaves_only(4);
    for x in [1usize, 3, 5] {
        t.nodes[x] = Some(node(100 + x as u8));
    }
    t
}

#[test]
fn resolution_of_filled_node_is_itself() {
    let t = full_four();
    assert_eq!(t.resolution(3), Ok(vec![3]));
    assert_eq!(t.resolution(4), Ok(vec![4]));
}

#[test]
fn resolution_of_blank_node_is_union_of_children() {
    let t = leaves_only(4);
    assert_eq!(t.resolution(1), Ok(vec![0, 2]));
    assert_eq!(t.resolution(3), Ok(vec![0, 2, 4, 6]));
    let mut t = full_four();
    t.nodes[3] = None;
    t.nodes[1] = None;
    assert_eq!(t.resolution(3), Ok(vec![0, 2, 5]));
}

#[test]
fn resolution_of_blank_leaf_is_empty() {
    let mut t = leaves_only(3);
    assert_eq!(t.resolution(6), Ok(vec![]));
    assert_eq!(t.blank_path(1), Ok(()));
    assert_eq!(t.resolution(2), Ok(vec![]));
    assert!(t.resolution(7).is_err());
}

#[test]
fn add_records_unmerged_leaves_and_keeps_keys() {
    let mut t = leaves_only(3);
    t.nodes[1] = Some(node(201));
    t.nodes[3] = Some(node(203));
    assert_eq!(t.add_leaf(node(3)), Ok(3));
    assert_eq!(t.num_leaves, 4);
    assert_eq!(t.nodes.len(), 7);
    assert_eq!(key_at(&t, 6), Some(vec![3]));
    assert_eq!(key_at(&t, 1), Some(vec![201]));
    assert_eq!(key_at(&t, 3), Some(vec![203]));
    assert!(t.nodes[1].as_ref().unwrap().unmerged_leaves.is_empty());
    assert_eq!(t.nodes[3].as_ref().unwrap().unmerged_leaves, vec![3]);
    assert!(t.nodes[5].is_none());
}

#[test]
fn add_to_full_tree_doubles_capacity() {
    let mut t = full_four();
    assert_eq!(t.nodes.len(), 7);
    assert_eq!(t.add_leaf(node(4)), Ok(4));
    assert_eq!(t.num_leaves, 5);
    assert_eq!(t.nodes.len(), 15);
    for x in 0..7usize {
        let expected = if x % 2 == 0 { x as u8 / 2 } else { 100 + x as u8 };
        assert_eq!(key_at(&t, x), Some(vec![expected]));
    }
    assert_eq!(key_at(&t, 8), Some(vec![4]));
    assert!(t.nodes[7].is_none());
    assert!(t.nodes[9].is_none() && t.nodes[11].is_none());
    assert!(t.nodes[3].as_ref().unwrap().unmerged_leaves.is_empty());
}

#[test]
fn remove_blanks_leaf_and_direct_path() {
    let mut t = full_four();
    assert_eq!(t.blank_path(2), Ok(()));
    for x in [4usize, 5, 3] {
        assert!(t.nodes[x].is_none());
    }
    for x in [0usize, 1, 2, 6] {
        assert!(t.nodes[x].is_some());
    }
    assert_eq!(t.blank_path(4), Err(TreeError::IndexError));
}

#[test]
fn update_after_remove_refills_path_to_root() {
    let mut t = full_four();
    assert_eq!(t.blank_path(2), Ok(()));
    assert_eq!(t.merge_path(3, node(56), vec![node(55), node(53)]), Ok(()));
    assert_eq!(key_at(&t, 6), Some(vec![56]));
    assert_eq!(key_at(&t, 5), Some(vec![55]));
    assert_eq!(key_at(&t, 3), Some(vec![53]));
    assert!(t.nodes[4].is_none());
}

#[test]
fn merge_path_rejects_wrong_length() {
    let mut t = full_four();
    assert_eq!(t.merge_path(0, node(1), vec![node(2)]), Err(TreeError::PathLengthMismatch));
    assert_eq!(key_at(&t, 0), Some(vec![0]));
    assert_eq!(t.merge_path(4, node(1), vec![node(2), node(3)]), Err(TreeError::IndexError));
}

fn with_private(mut t: RatchetTree, xs: &[usize]) -> RatchetTree {
    for &x in xs {
        if let Some(n) = t.nodes[x].as_mut() {
            n.private_key = Some(vec![0xff, x as u8]);
        }
    }
    t
}

#[test]
fn encryption_targets_are_copath_resolutions() {
    let t = full_four();
    assert_eq!(t.encryption_targets(2), Ok(vec![vec![6], vec![1]]));
    let mut t = full_four();
    t.nodes[1] = None;
    assert_eq!(t.encryption_targets(2), Ok(vec![vec![6], vec![0, 2]]));
    assert_eq!(t.encryption_targets(3), Ok(vec![vec![4], vec![0, 2]]));
    assert_eq!(t.encryption_targets(4), Err(TreeError::IndexError));
}

#[test]
fn decryption_target_at_common_ancestor() {
    let t = with_private(full_four(), &[0, 1, 3]);
    assert_eq!(t.decryption_target(2, 0), Ok((1, 0)));
    assert_eq!(t.decryption_target(1, 0), Ok((0, 0)));
    let mut t = with_private(full_four(), &[0, 1, 3]);
    t.nodes[1] = None;
    assert_eq!(t.decryption_target(3, 0), Ok((1, 0)));
    let mut t = with_private(full_four(), &[2, 1, 3]);
    t.nodes[1] = None;
    assert_eq!(t.decryption_target(3, 1), Ok((1, 1)));
}

#[test]
fn decryption_target_failures() {
    let t = full_four();
    assert_eq!(t.decryption_target(2, 0), Err(TreeError::CannotDecrypt));
    let t = with_private(full_four(), &[0, 1, 3]);
    assert_eq!(t.decryption_target(0, 0), Err(TreeError::CannotDecrypt));
    assert_eq!(t.decryption_target(4, 0), Err(TreeError::IndexError));
    assert_eq!(t.decryption_target(0, 4), Err(TreeError::IndexError));
}
