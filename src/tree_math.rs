//! Index arithmetic over an array-backed perfect binary tree.
//!
//! Nodes are numbered in order: leaves at even indices, internal nodes at odd
//! ones. A node is also named by its coordinates: its `level` (0 for leaves)
//! and its `pos`ition from the left within that level. A tree for `n` leaves
//! has depth `d`, the least with `n <= 2^d`, and `2 * 2^d - 1` nodes.
use vstd::prelude::*;
use vstd::arithmetic::power2::{
    pow2,
    lemma_pow2_pos,
    lemma_pow2_unfold,
    lemma_pow2_adds,
    lemma_pow2_strictly_increases,
    lemma2_to64,
};

verus! {

/// Largest number of leaves a tree may hold.
pub const MAX_LEAVES: usize = 0x4000_0000;

/// A node index or leaf number that lies outside the tree.
#[derive(Debug, PartialEq, Eq, Structural)]
pub struct IndexError;

/// The in-order index of the node at `level` and `pos`.
pub open spec fn node_index(level: nat, pos: nat) -> nat {
    (pos * pow2(level + 1) + pow2(level) - 1) as nat
}

/// The level of in-order index `x`: the number of its trailing one bits.
pub open spec fn level_of(x: nat) -> nat
    decreases x,
{
    if x % 2 == 0 {
        0
    } else {
        1 + level_of(x / 2)
    }
}

/// The position of in-order index `x` within its level.
pub open spec fn pos_of(x: nat) -> nat
    decreases x,
{
    if x % 2 == 0 {
        x / 2
    } else {
        pos_of(x / 2)
    }
}

/// `d` is the ceiling of `log2(n)`.
pub open spec fn is_ceil_log2(n: nat, d: nat) -> bool {
    n <= pow2(d) && (d == 0 || pow2((d - 1) as nat) < n)
}

/// The depth of the tree for `n` leaves.
pub open spec fn depth(n: nat) -> nat {
    choose|d: nat| is_ceil_log2(n, d)
}

/// The number of nodes of a tree of depth `d`.
pub open spec fn width(d: nat) -> nat {
    (2 * pow2(d) - 1) as nat
}

/// The node at `level` and `pos` lies in a tree of depth `d`.
pub open spec fn in_tree(level: nat, pos: nat, d: nat) -> bool {
    level <= d && pos < pow2((d - level) as nat)
}

pub open spec fn valid_leaf_count(n: nat) -> bool {
    1 <= n <= MAX_LEAVES
}

/// The position, `k` levels up, of the ancestor of the node at `pos`.
pub open spec fn ancestor_pos(pos: nat, k: nat) -> nat
    decreases k,
{
    if k == 0 {
        pos
    } else {
        ancestor_pos(pos, (k - 1) as nat) / 2
    }
}

pub open spec fn sibling_pos(pos: nat) -> nat {
    if pos % 2 == 0 {
        pos + 1
    } else {
        (pos - 1) as nat
    }
}

/// The ancestors of `leaf` in a tree of depth `d`, from its parent up to and
/// including the root.
pub open spec fn direct_path_of(leaf: nat, d: nat) -> Seq<nat> {
    Seq::new(d, |i: int| node_index((i + 1) as nat, ancestor_pos(leaf, (i + 1) as nat)))
}

/// The siblings of `leaf` and of each of its ancestors below the root.
pub open spec fn copath_of(leaf: nat, d: nat) -> Seq<nat> {
    Seq::new(d, |i: int| node_index(i as nat, sibling_pos(ancestor_pos(leaf, i as nat))))
}

pub proof fn lemma_depth_unique(n: nat, d: nat)
    requires
        is_ceil_log2(n, d),
    ensures
        depth(n) == d,
{
    let e = depth(n);
    assert(is_ceil_log2(n, e));
    if e + 1 < d {
        lemma_pow2_strictly_increases(e, (d - 1) as nat);
    } else if d + 1 < e {
        lemma_pow2_strictly_increases(d, (e - 1) as nat);
    }
}

proof fn lemma_ceil_log2_exists(n: nat, e: nat)
    requires
        1 <= n <= pow2(e),
    ensures
        exists|d: nat| d <= e && is_ceil_log2(n, d),
    decreases e,
{
    if e == 0 || pow2((e - 1) as nat) < n {
        assert(is_ceil_log2(n, e));
    } else {
        lemma_ceil_log2_exists(n, (e - 1) as nat);
    }
}

/// The depth of a tree within the leaf bound is its ceiling logarithm, and
/// at most 30.
pub proof fn lemma_depth_bound(n: nat)
    requires
        valid_leaf_count(n),
    ensures
        is_ceil_log2(n, depth(n)),
        depth(n) <= 30,
{
    lemma2_to64();
    lemma_ceil_log2_exists(n, 30);
    let d = depth(n);
    if d > 30 {
        if 30 < (d - 1) as nat {
            lemma_pow2_strictly_increases(30, (d - 1) as nat);
        }
    }
}

pub proof fn lemma_index_coords(level: nat, pos: nat)
    ensures
        level_of(node_index(level, pos)) == level,
        pos_of(node_index(level, pos)) == pos,
    decreases level,
{
    lemma_pow2_unfold(level + 1);
    lemma_pow2_pos(level);
    if level == 0 {
        lemma2_to64();
        assert(node_index(0, pos) == 2 * pos);
    } else {
        lemma_pow2_unfold(level);
        let p = pow2((level - 1) as nat);
        lemma_pow2_pos((level - 1) as nat);
        let x = node_index(level, pos);
        assert(x == pos * (4 * p) + 2 * p - 1) by (nonlinear_arith)
            requires
                x == pos * pow2(level + 1) + pow2(level) - 1,
                pow2(level + 1) == 2 * pow2(level),
                pow2(level) == 2 * p,
        ;
        let q = pos * (2 * p) + p - 1;
        assert(x == 2 * q + 1 && q >= 0) by (nonlinear_arith)
            requires
                x == pos * (4 * p) + 2 * p - 1,
                q == pos * (2 * p) + p - 1,
                p >= 1,
        ;
        assert(x % 2 == 1 && x / 2 == q);
        assert(x / 2 == node_index((level - 1) as nat, pos));
        lemma_index_coords((level - 1) as nat, pos);
    }
}

pub proof fn lemma_coords_index(x: nat)
    ensures
        node_index(level_of(x), pos_of(x)) == x,
    decreases x,
{
    lemma_pow2_unfold(1);
    lemma2_to64();
    if x % 2 == 0 {
        assert(node_index(0, x / 2) == (x / 2) * 2 + 1 - 1);
    } else {
        let y = x / 2;
        lemma_coords_index(y);
        let k = level_of(y);
        let p = pow2(k);
        lemma_pow2_pos(k);
        lemma_pow2_unfold(k + 1);
        lemma_pow2_unfold(k + 2);
        let j = pos_of(y);
        assert(x == j * pow2(k + 2) + pow2(k + 1) - 1) by (nonlinear_arith)
            requires
                y == j * pow2(k + 1) + p - 1,
                x == 2 * y + 1,
                pow2(k + 1) == 2 * p,
                pow2(k + 2) == 2 * pow2(k + 1),
                p >= 1,
        ;
        assert(level_of(x) == k + 1);
        assert(pos_of(x) == j);
        assert(node_index(k + 1, j) == j * pow2(k + 2) + pow2(k + 1) - 1);
    }
}

/// A node at coordinates inside the tree has an index below its width.
pub proof fn lemma_in_tree_bound(level: nat, pos: nat, d: nat)
    requires
        in_tree(level, pos, d),
    ensures
        node_index(level, pos) < width(d),
{
    let a = pow2((d - level) as nat);
    let c = pow2(level);
    lemma_pow2_unfold(level + 1);
    lemma_pow2_unfold(d + 1);
    lemma_pow2_adds((d - level) as nat, level + 1);
    assert((d - level) as nat + level + 1 == d + 1);
    lemma_pow2_pos(level);
    assert(pos * (2 * c) + c - 1 < 2 * (a * c) - 1) by (nonlinear_arith)
        requires
            pos < a,
            c >= 1,
    ;
    assert(pow2(d + 1) == a * (2 * c)) by (nonlinear_arith)
        requires
            pow2(d + 1) == a * pow2(level + 1),
            pow2(level + 1) == 2 * c,
    ;
    assert(a * (2 * c) == 2 * (a * c)) by (nonlinear_arith);
}

/// An index below the width lies inside the tree.
pub proof fn lemma_index_in_tree(x: nat, d: nat)
    requires
        x < width(d),
    ensures
        in_tree(level_of(x), pos_of(x), d),
{
    lemma_coords_index(x);
    let k = level_of(x);
    let j = pos_of(x);
    lemma_pow2_unfold(d + 1);
    lemma_pow2_pos(d);
    assert(width(d) == 2 * pow2(d) - 1);
    assert(pow2(d + 1) == 2 * pow2(d));
    assert(x < pow2(d + 1) - 1);
    lemma_pow2_unfold(k + 1);
    lemma_pow2_pos(k);
    if k > d {
        if d + 1 < k {
            lemma_pow2_strictly_increases(d + 1, k);
        }
        assert(pow2(k) >= pow2(d + 1));
        assert(x >= pow2(k) - 1) by (nonlinear_arith)
            requires
                x == j * pow2(k + 1) + pow2(k) - 1,
                pow2(k) >= 1,
        ;
    } else {
        let a = pow2((d - k) as nat);
        lemma_pow2_adds((d - k) as nat, k + 1);
        assert((d - k) as nat + k + 1 == d + 1);
        assert(pow2(d + 1) == a * pow2(k + 1));
        assert(x == j * pow2(k + 1) + pow2(k) - 1);
        if j >= a {
            assert(j * pow2(k + 1) >= a * pow2(k + 1)) by (nonlinear_arith)
                requires
                    j >= a,
            ;
            assert(false);
        }
    }
}

/// The parent, sibling and children of a node inside the tree are inside it.
pub proof fn lemma_neighbours_in_tree(level: nat, pos: nat, d: nat)
    requires
        in_tree(level, pos, d),
    ensures
        level < d ==> in_tree(level + 1, pos / 2, d),
        level < d ==> in_tree(level, sibling_pos(pos), d),
        level > 0 ==> in_tree((level - 1) as nat, 2 * pos, d),
        level > 0 ==> in_tree((level - 1) as nat, 2 * pos + 1, d),
{
    if level < d {
        lemma_pow2_unfold((d - level) as nat);
        assert((d - level - 1) as nat == (d - (level + 1)) as nat);
    }
    if level > 0 {
        lemma_pow2_unfold((d - level + 1) as nat);
        assert((d - level + 1 - 1) as nat == (d - level) as nat);
        assert((d - (level - 1) as nat) as nat == (d - level + 1) as nat);
    }
}

pub proof fn lemma_ancestor_in_tree(pos: nat, k: nat, d: nat)
    requires
        in_tree(0, pos, d),
        k <= d,
    ensures
        in_tree(k, ancestor_pos(pos, k), d),
    decreases k,
{
    if k > 0 {
        lemma_ancestor_in_tree(pos, (k - 1) as nat, d);
        lemma_neighbours_in_tree((k - 1) as nat, ancestor_pos(pos, (k - 1) as nat), d);
    }
}

pub proof fn lemma_level_bound(x: nat, m: nat)
    requires
        x < pow2(m),
    ensures
        level_of(x) <= m,
    decreases x,
{
    if x % 2 == 1 {
        if m == 0 {
            lemma2_to64();
        } else {
            lemma_pow2_unfold(m);
            lemma_level_bound(x / 2, (m - 1) as nat);
        }
    }
}

/// 2 to the power `k`.
pub(crate) fn pow2_usize(k: u32) -> (r: usize)
    requires
        k <= 30,
    ensures
        r == pow2(k as nat),
{
    proof {
        lemma2_to64();
    }
    let mut r: usize = 1;
    let mut i: u32 = 0;
    while i < k
        invariant
            i <= k <= 30,
            r == pow2(i as nat),
            pow2(30) == 0x4000_0000,
        decreases k - i,
    {
        proof {
            lemma_pow2_unfold((i + 1) as nat);
            if i + 1 < 30 {
                lemma_pow2_strictly_increases((i + 1) as nat, 30);
            }
        }
        r = r * 2;
        i = i + 1;
    }
    r
}

/// The depth of the tree for `num_leaves` leaves: the ceiling of its base-2
/// logarithm.
pub fn tree_depth(num_leaves: usize) -> (d: u32)
    requires
        valid_leaf_count(num_leaves as nat),
    ensures
        d == depth(num_leaves as nat),
        is_ceil_log2(num_leaves as nat, d as nat),
        d <= 30,
{
    proof {
        lemma2_to64();
    }
    let mut d: u32 = 0;
    let mut cap: usize = 1;
    while cap < num_leaves
        invariant
            cap == pow2(d as nat),
            d == 0 || pow2((d - 1) as nat) < num_leaves,
            1 <= num_leaves <= MAX_LEAVES,
            d <= 30,
            pow2(30) == 0x4000_0000,
        decreases 30 - d,
    {
        proof {
            lemma_pow2_unfold((d + 1) as nat);
            if d == 30 {
                assert(false);
            }
        }
        cap = cap * 2;
        d = d + 1;
    }
    proof {
        lemma_depth_unique(num_leaves as nat, d as nat);
    }
    d
}

/// The number of nodes of the tree for `num_leaves` leaves.
pub fn node_width(num_leaves: usize) -> (r: usize)
    requires
        valid_leaf_count(num_leaves as nat),
    ensures
        r == width(depth(num_leaves as nat)),
{
    let d = tree_depth(num_leaves);
    proof {
        lemma2_to64();
        if d < 30 {
            lemma_pow2_strictly_increases(d as nat, 30);
        }
    }
    2 * pow2_usize(d) - 1
}

/// The coordinates of in-order index `x`.
pub fn coords(x: usize) -> (r: (u32, usize))
    ensures
        r.0 == level_of(x as nat),
        r.1 == pos_of(x as nat),
        node_index(r.0 as nat, r.1 as nat) == x,
{
    proof {
        lemma_coords_index(x as nat);
        lemma2_to64();
        lemma_level_bound(x as nat, 64);
    }
    let mut y: usize = x;
    let mut k: u32 = 0;
    while y % 2 == 1
        invariant
            y <= x,
            level_of(x as nat) <= 64,
            level_of(x as nat) == k + level_of(y as nat),
            pos_of(x as nat) == pos_of(y as nat),
        decreases y,
    {
        y = y / 2;
        k = k + 1;
    }
    (k, y / 2)
}

/// The in-order index of the node at `level` and `pos` in a tree of depth `d`.
pub(crate) fn index_at(level: u32, pos: usize, d: u32) -> (r: usize)
    requires
        d <= 30,
        in_tree(level as nat, pos as nat, d as nat),
    ensures
        r == node_index(level as nat, pos as nat),
        r < width(d as nat),
{
    proof {
        lemma_in_tree_bound(level as nat, pos as nat, d as nat);
        lemma2_to64();
        if d < 30 {
            lemma_pow2_strictly_increases(d as nat, 30);
        }
        if level < d {
            lemma_pow2_strictly_increases(level as nat, d as nat);
        }
        lemma_pow2_unfold(level as nat + 1);
        lemma_pow2_pos(level as nat);
    }
    let p = pow2_usize(level);
    assert(pos * (2 * p) <= node_index(level as nat, pos as nat)) by (nonlinear_arith)
        requires
            node_index(level as nat, pos as nat) == pos * (2 * p) + p - 1,
            p >= 1,
    ;
    pos * (2 * p) + p - 1
}

/// The coordinates of `x` when it is a node of the tree of depth `d`.
fn coords_in(x: usize, d: u32) -> (r: (u32, usize))
    requires
        x < width(d as nat),
    ensures
        r.0 == level_of(x as nat),
        r.1 == pos_of(x as nat),
        in_tree(r.0 as nat, r.1 as nat, d as nat),
{
    proof {
        lemma_index_in_tree(x as nat, d as nat);
    }
    coords(x)
}

/// The parent of node `x`; an error for the root or an index outside the tree.
pub fn parent(x: usize, num_leaves: usize) -> (r: Result<usize, IndexError>)
    requires
        valid_leaf_count(num_leaves as nat),
    ensures
        r is Ok <==> x < width(depth(num_leaves as nat)) && level_of(x as nat) < depth(
            num_leaves as nat,
        ),
        r is Ok ==> r->Ok_0 == node_index(level_of(x as nat) + 1, pos_of(x as nat) / 2),
{
    let d = tree_depth(num_leaves);
    if x >= node_width(num_leaves) {
        return Err(IndexError);
    }
    let (k, j) = coords_in(x, d);
    if k >= d {
        return Err(IndexError);
    }
    proof {
        lemma_neighbours_in_tree(k as nat, j as nat, d as nat);
    }
    Ok(index_at(k + 1, j / 2, d))
}

/// The sibling of node `x`; an error for the root or an index outside the tree.
pub fn sibling(x: usize, num_leaves: usize) -> (r: Result<usize, IndexError>)
    requires
        valid_leaf_count(num_leaves as nat),
    ensures
        r is Ok <==> x < width(depth(num_leaves as nat)) && level_of(x as nat) < depth(
            num_leaves as nat,
        ),
        r is Ok ==> r->Ok_0 == node_index(level_of(x as nat), sibling_pos(pos_of(x as nat))),
{
    let d = tree_depth(num_leaves);
    if x >= node_width(num_leaves) {
        return Err(IndexError);
    }
    let (k, j) = coords_in(x, d);
    if k >= d {
        return Err(IndexError);
    }
    proof {
        lemma_neighbours_in_tree(k as nat, j as nat, d as nat);
    }
    let sj = if j % 2 == 0 {
        j + 1
    } else {
        j - 1
    };
    Ok(index_at(k, sj, d))
}

/// The left child of node `x`; an error for a leaf or an index outside the tree.
pub fn left_child(x: usize, num_leaves: usize) -> (r: Result<usize, IndexError>)
    requires
        valid_leaf_count(num_leaves as nat),
    ensures
        r is Ok <==> x < width(depth(num_leaves as nat)) && level_of(x as nat) > 0,
        r is Ok ==> r->Ok_0 == node_index((level_of(x as nat) - 1) as nat, 2 * pos_of(x as nat)),
{
    let d = tree_depth(num_leaves);
    if x >= node_width(num_leaves) {
        return Err(IndexError);
    }
    let (k, j) = coords_in(x, d);
    if k == 0 {
        return Err(IndexError);
    }
    proof {
        lemma_neighbours_in_tree(k as nat, j as nat, d as nat);
        lemma2_to64();
        if d - k < 30 {
            lemma_pow2_strictly_increases((d - k) as nat, 30);
        }
    }
    Ok(index_at(k - 1, 2 * j, d))
}

/// The right child of node `x`; an error for a leaf or an index outside the tree.
pub fn right_child(x: usize, num_leaves: usize) -> (r: Result<usize, IndexError>)
    requires
        valid_leaf_count(num_leaves as nat),
    ensures
        r is Ok <==> x < width(depth(num_leaves as nat)) && level_of(x as nat) > 0,
        r is Ok ==> r->Ok_0 == node_index(
            (level_of(x as nat) - 1) as nat,
            2 * pos_of(x as nat) + 1,
        ),
{
    let d = tree_depth(num_leaves);
    if x >= node_width(num_leaves) {
        return Err(IndexError);
    }
    let (k, j) = coords_in(x, d);
    if k == 0 {
        return Err(IndexError);
    }
    proof {
        lemma_neighbours_in_tree(k as nat, j as nat, d as nat);
        lemma2_to64();
        if d - k < 30 {
            lemma_pow2_strictly_increases((d - k) as nat, 30);
        }
    }
    Ok(index_at(k - 1, 2 * j + 1, d))
}

/// The ancestors of leaf number `leaf`, from its parent up to the root: as
/// many as the ceiling of `log2(num_leaves)`.
pub fn direct_path(leaf: usize, num_leaves: usize) -> (r: Result<Vec<usize>, IndexError>)
    requires
        valid_leaf_count(num_leaves as nat),
    ensures
        r is Ok <==> leaf < num_leaves,
        r is Ok ==> is_ceil_log2(num_leaves as nat, r->Ok_0@.len()),
        r is Ok ==> r->Ok_0@.len() == depth(num_leaves as nat),
        r is Ok ==> forall|i: int|
            0 <= i < r->Ok_0@.len() ==> r->Ok_0@[i] == direct_path_of(
                leaf as nat,
                depth(num_leaves as nat),
            )[i],
{
    if leaf >= num_leaves {
        return Err(IndexError);
    }
    let d = tree_depth(num_leaves);
    let mut path: Vec<usize> = Vec::new();
    let mut k: u32 = 0;
    let mut j: usize = leaf;
    while k < d
        invariant
            d == depth(num_leaves as nat),
            d <= 30,
            k <= d,
            leaf < num_leaves <= pow2(d as nat),
            j == ancestor_pos(leaf as nat, k as nat),
            path@.len() == k,
            forall|i: int| 0 <= i < k ==> path@[i] == direct_path_of(leaf as nat, d as nat)[i],
        decreases d - k,
    {
        proof {
            lemma_ancestor_in_tree(leaf as nat, (k + 1) as nat, d as nat);
        }
        j = j / 2;
        k = k + 1;
        let x = index_at(k, j, d);
        path.push(x);
    }
    Ok(path)
}

/// The siblings of leaf number `leaf` and of each of its ancestors below the
/// root.
pub fn copath(leaf: usize, num_leaves: usize) -> (r: Result<Vec<usize>, IndexError>)
    requires
        valid_leaf_count(num_leaves as nat),
    ensures
        r is Ok <==> leaf < num_leaves,
        r is Ok ==> r->Ok_0@.len() == depth(num_leaves as nat),
        r is Ok ==> forall|i: int|
            0 <= i < r->Ok_0@.len() ==> r->Ok_0@[i] == copath_of(
                leaf as nat,
                depth(num_leaves as nat),
            )[i],
{
    if leaf >= num_leaves {
        return Err(IndexError);
    }
    let d = tree_depth(num_leaves);
    let mut path: Vec<usize> = Vec::new();
    let mut k: u32 = 0;
    let mut j: usize = leaf;
    while k < d
        invariant
            d == depth(num_leaves as nat),
            d <= 30,
            k <= d,
            leaf < num_leaves <= pow2(d as nat),
            j == ancestor_pos(leaf as nat, k as nat),
            path@.len() == k,
            forall|i: int| 0 <= i < k ==> path@[i] == copath_of(leaf as nat, d as nat)[i],
        decreases d - k,
    {
        proof {
            lemma_ancestor_in_tree(leaf as nat, k as nat, d as nat);
            lemma_neighbours_in_tree(k as nat, j as nat, d as nat);
        }
        let sj = if j % 2 == 0 {
            j + 1
        } else {
            j - 1
        };
        let x = index_at(k, sj, d);
        path.push(x);
        j = j / 2;
        k = k + 1;
    }
    Ok(path)
}

} // verus!
