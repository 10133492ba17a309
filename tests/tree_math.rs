use anonify::tree_math::{
    coords, copath, direct_path, left_child, node_width, parent, right_child, sibling, tree_depth,
    IndexError, MAX_LEAVES,
};

#[test]
fn depth_is_ceiling_log2() {
    assert_eq!(tree_depth(1), 0);
    assert_eq!(tree_depth(2), 1);
    assert_eq!(tree_depth(3), 2);
    assert_eq!(tree_depth(4), 2);
    assert_eq!(tree_depth(5), 3);
    assert_eq!(tree_depth(8), 3);
    assert_eq!(tree_depth(9), 4);
}

#[test]
fn width_of_trees() {
    assert_eq!(node_width(1), 1);
    assert_eq!(node_width(4), 7);
    assert_eq!(node_width(5), 15);
}

#[test]
fn parent_and_sibling() {
    assert_eq!(parent(0, 4), Ok(1));
    assert_eq!(parent(2, 4), Ok(1));
    assert_eq!(parent(1, 4), Ok(3));
    assert_eq!(parent(5, 4), Ok(3));
    assert_eq!(parent(6, 4), Ok(5));
    assert_eq!(parent(3, 4), Err(IndexError));
    assert_eq!(parent(7, 4), Err(IndexError));
    assert_eq!(sibling(0, 4), Ok(2));
    assert_eq!(sibling(6, 4), Ok(4));
    assert_eq!(sibling(1, 4), Ok(5));
    assert_eq!(sibling(3, 4), Err(IndexError));
}

#[test]
fn children() {
    assert_eq!(left_child(3, 4), Ok(1));
    assert_eq!(right_child(3, 4), Ok(5));
    assert_eq!(left_child(5, 4), Ok(4));
    assert_eq!(right_child(5, 4), Ok(6));
    assert_eq!(left_child(0, 4), Err(IndexError));
    assert_eq!(right_child(9, 4), Err(IndexError));
    assert_eq!(left_child(7, 5), Ok(3));
    assert_eq!(right_child(7, 5), Ok(11));
}

#[test]
fn direct_paths() {
    assert_eq!(direct_path(2, 4), Ok(vec![5, 3]));
    assert_eq!(direct_path(0, 5), Ok(vec![1, 3, 7]));
    assert_eq!(direct_path(4, 5), Ok(vec![9, 11, 7]));
    assert_eq!(direct_path(0, 1), Ok(vec![]));
    assert_eq!(direct_path(4, 4), Err(IndexError));
}

#[test]
fn direct_path_length_is_ceiling_log2() {
    for n in 1usize..=40 {
        let mut d = 0usize;
        while (1usize << d) < n {
            d += 1;
        }
        for leaf in 0..n {
            assert_eq!(direct_path(leaf, n).unwrap().len(), d);
        }
    }
}

#[test]
fn copaths() {
    assert_eq!(copath(2, 4), Ok(vec![6, 1]));
    assert_eq!(copath(0, 5), Ok(vec![2, 5, 11]));
    assert_eq!(copath(5, 5), Err(IndexError));
}

#[test]
fn coordinates_of_indices() {
    assert_eq!(coords(0), (0, 0));
    assert_eq!(coords(6), (0, 3));
    assert_eq!(coords(5), (1, 1));
    assert_eq!(coords(7), (3, 0));
    assert_eq!(coords(11), (2, 1));
}

#[test]
fn largest_tree() {
    assert_eq!(tree_depth(MAX_LEAVES), 30);
    assert_eq!(tree_depth(MAX_LEAVES - 1), 30);
    assert_eq!(node_width(MAX_LEAVES), (1usize << 31) - 1);
    assert_eq!(direct_path(MAX_LEAVES - 1, MAX_LEAVES).unwrap().len(), 30);
    assert_eq!(parent((1usize << 31) - 2, MAX_LEAVES), Ok((1usize << 31) - 3));
}
