//! The ratchet tree: key material of each node, or a blank.
use vstd::prelude::*;
use vstd::arithmetic::power2::{pow2, lemma_pow2_unfold, lemma_pow2_strictly_increases, lemma2_to64};
use crate::tree_math::{
    node_index,
    level_of,
    pos_of,
    depth,
    width,
    is_ceil_log2,
    in_tree,
    valid_leaf_count,
    ancestor_pos,
    IndexError,
    MAX_LEAVES,
    index_at,
    tree_depth,
    coords,
    lemma_index_coords,
    lemma_coords_index,
    lemma_index_in_tree,
    lemma_neighbours_in_tree,
    lemma_ancestor_in_tree,
    lemma_depth_unique,
    lemma_depth_bound,
    pow2_usize,
    sibling_pos,
    lemma_in_tree_bound,
};

verus! {

/// Key material held by a filled node.
pub struct NodeData {
    pub public_key: Vec<u8>,
    /// Present iff this party derived the node.
    pub private_key: Option<Vec<u8>>,
    /// Leaves added below this node since its key was last refreshed.
    pub unmerged_leaves: Vec<usize>,
}

/// Errors of tree operations.
#[derive(Debug, PartialEq, Eq, Structural)]
pub enum TreeError {
    /// A leaf or node index outside the tree.
    IndexError,
    /// No entry of a path could be decrypted with the keys held here.
    CannotDecrypt,
    /// A path's length differs from the tree's depth.
    PathLengthMismatch,
}

/// An array-backed tree: `nodes[x]` is the node at in-order index `x`, `None`
/// for a blank.
pub struct RatchetTree {
    pub nodes: Vec<Option<NodeData>>,
    pub num_leaves: usize,
}

/// Node `x` lies on the path from the node at position `pos` of level `lo`
/// up to level `hi`.
pub open spec fn on_path(pos: nat, x: nat, lo: nat, hi: nat) -> bool {
    lo <= level_of(x) <= hi && pos_of(x) == ancestor_pos(pos, level_of(x))
}

/// The resolution of the node at `level` and `pos`: itself if filled, else
/// the resolutions of its children, left before right.
pub open spec fn resolution_at(nodes: Seq<Option<NodeData>>, level: nat, pos: nat) -> Seq<nat>
    decreases level,
{
    let x = node_index(level, pos);
    if nodes[x as int] is Some {
        seq![x]
    } else if level == 0 {
        Seq::empty()
    } else {
        resolution_at(nodes, (level - 1) as nat, 2 * pos) + resolution_at(
            nodes,
            (level - 1) as nat,
            2 * pos + 1,
        )
    }
}

/// The resolution of a filled node is the node alone; of a blank internal node,
/// the union of its children's resolutions, left before right; of a blank
/// leaf, empty.
pub proof fn lemma_resolution(nodes: Seq<Option<NodeData>>, level: nat, pos: nat)
    ensures
        nodes[node_index(level, pos) as int] is Some ==> resolution_at(nodes, level, pos) == seq![
            node_index(level, pos),
        ],
        nodes[node_index(level, pos) as int] is None && level > 0 ==> resolution_at(
            nodes,
            level,
            pos,
        ) == resolution_at(nodes, (level - 1) as nat, 2 * pos) + resolution_at(
            nodes,
            (level - 1) as nat,
            2 * pos + 1,
        ),
        nodes[node_index(level, pos) as int] is None && level == 0 ==> resolution_at(
            nodes,
            level,
            pos,
        ).len() == 0,
{
}

proof fn lemma_on_path_step(pos: nat, x: nat, lo: nat, k: nat)
    requires
        lo <= k + 1,
    ensures
        on_path(pos, x, lo, k + 1) <==> (on_path(pos, x, lo, k) || x == node_index(
            k + 1,
            ancestor_pos(pos, k + 1),
        )),
{
    lemma_index_coords(k + 1, ancestor_pos(pos, k + 1));
    lemma_coords_index(x);
}

proof fn lemma_odd_above_leaves(x: nat)
    requires
        level_of(x) >= 1,
    ensures
        x % 2 == 1,
{
}

/// `nodes` with the leaf at `leaf` and its ancestors up to level `hi` blank.
pub open spec fn blanked(nodes: Seq<Option<NodeData>>, leaf: nat, hi: nat) -> Seq<
    Option<NodeData>,
> {
    Seq::new(nodes.len(), |x: int| if on_path(leaf, x as nat, 0, hi) { None } else { nodes[x] })
}

/// `nodes` with the leaf at `leaf` set to `leaf_node` and its ancestor at each
/// level `k` from 1 up to `hi` set to `path[k - 1]`.
pub open spec fn merged(
    nodes: Seq<Option<NodeData>>,
    leaf: nat,
    leaf_node: NodeData,
    path: Seq<NodeData>,
    hi: nat,
) -> Seq<Option<NodeData>> {
    Seq::new(
        nodes.len(),
        |x: int|
            if on_path(leaf, x as nat, 0, hi) {
                if level_of(x as nat) == 0 {
                    Some(leaf_node)
                } else {
                    Some(path[level_of(x as nat) - 1])
                }
            } else {
                nodes[x]
            },
    )
}

/// After a leaf and its direct path are blanked, merging the path of any leaf
/// fills that leaf and every node of its direct path up to the root.
pub proof fn lemma_update_after_remove(
    nodes: Seq<Option<NodeData>>,
    removed: nat,
    updater: nat,
    leaf_node: NodeData,
    path: Seq<NodeData>,
    d: nat,
)
    ensures
        forall|x: nat|
            x < nodes.len() && on_path(updater, x, 0, d) ==> (#[trigger] merged(
                blanked(nodes, removed, d),
                updater,
                leaf_node,
                path,
                d,
            )[x as int]) is Some,
{
}

proof fn lemma_leaf_on_path(leaf: nat, x: nat)
    ensures
        on_path(leaf, x, 0, 0) <==> x == 2 * leaf,
        node_index(0, leaf) == 2 * leaf,
{
    lemma2_to64();
    lemma_index_coords(0, leaf);
    lemma_coords_index(x);
}

/// `b` is `a` with `leaf` appended to its unmerged leaves, keys unchanged.
pub open spec fn with_unmerged(a: Option<NodeData>, b: Option<NodeData>, leaf: usize) -> bool {
    &&& (b is Some <==> a is Some)
    &&& b is Some ==> {
        &&& b->Some_0.public_key == a->Some_0.public_key
        &&& b->Some_0.private_key == a->Some_0.private_key
        &&& b->Some_0.unmerged_leaves@ == a->Some_0.unmerged_leaves@.push(leaf)
    }
}

/// The lowest level, from `k` up to `d`, at which leaves `a` and `b` share an
/// ancestor (`d`, the root's level, at the latest).
pub open spec fn meet_from(a: nat, b: nat, k: nat, d: nat) -> nat
    decreases d - k,
{
    if k >= d || ancestor_pos(a, k) == ancestor_pos(b, k) {
        k
    } else {
        meet_from(a, b, k + 1, d)
    }
}

/// Node `x` is leaf `me` or one of its ancestors, is filled, and holds a
/// private key here.
pub open spec fn holds_key_for(nodes: Seq<Option<NodeData>>, me: nat, x: nat) -> bool {
    &&& pos_of(x) == ancestor_pos(me, level_of(x))
    &&& nodes[x as int] is Some
    &&& nodes[x as int]->Some_0.private_key is Some
}

/// The resolution, in a tree of depth `d`, of the copath node at which a
/// path from leaf `sender` is encrypted to leaf `me`: the child, on `me`'s
/// side, of their lowest common ancestor.
pub open spec fn recipient_resolution(nodes: Seq<Option<NodeData>>, sender: nat, me: nat, d: nat) -> Seq<nat> {
    let k = meet_from(sender, me, 1, d);
    resolution_at(nodes, (k - 1) as nat, ancestor_pos(me, (k - 1) as nat))
}

proof fn lemma_resolution_in_tree(nodes: Seq<Option<NodeData>>, level: nat, pos: nat, d: nat)
    requires
        in_tree(level, pos, d),
    ensures
        forall|t: int|
            0 <= t < resolution_at(nodes, level, pos).len() ==> #[trigger] resolution_at(
                nodes,
                level,
                pos,
            )[t] < width(d),
    decreases level,
{
    lemma_in_tree_bound(level, pos, d);
    if level > 0 {
        lemma_neighbours_in_tree(level, pos, d);
        lemma_resolution_in_tree(nodes, (level - 1) as nat, 2 * pos, d);
        lemma_resolution_in_tree(nodes, (level - 1) as nat, 2 * pos + 1, d);
        let l = resolution_at(nodes, (level - 1) as nat, 2 * pos);
        let r = resolution_at(nodes, (level - 1) as nat, 2 * pos + 1);
        assert forall|t: int| 0 <= t < (l + r).len() implies #[trigger] (l + r)[t] < width(d) by {
            if t < l.len() {
                assert((l + r)[t] == l[t]);
            } else {
                assert((l + r)[t] == r[t - l.len()]);
            }
        }
    }
}

impl RatchetTree {
    pub open spec fn depth(&self) -> nat {
        depth(self.num_leaves as nat)
    }

    /// The node array has the tree's width, and leaf slots beyond the leaf
    /// count are blank.
    pub open spec fn wf(&self) -> bool {
        &&& valid_leaf_count(self.num_leaves as nat)
        &&& self.nodes@.len() == width(self.depth())
        &&& forall|j: nat|
            self.num_leaves <= j < pow2(self.depth()) ==> (#[trigger] self.nodes@[2 * j as int]) is None
    }

    /// A one-leaf tree holding `leaf`.
    pub fn new(leaf: NodeData) -> (r: Self)
        ensures
            r.wf(),
            r.num_leaves == 1,
            r.nodes@ == seq![Some(leaf)],
    {
        let mut nodes: Vec<Option<NodeData>> = Vec::new();
        nodes.push(Some(leaf));
        proof {
            lemma2_to64();
            lemma_depth_unique(1, 0);
        }
        RatchetTree { nodes, num_leaves: 1 }
    }

    fn resolution_rec(&self, level: u32, pos: usize, d: u32) -> (r: Vec<usize>)
        requires
            self.wf(),
            d == self.depth(),
            in_tree(level as nat, pos as nat, d as nat),
        ensures
            r@.len() == resolution_at(self.nodes@, level as nat, pos as nat).len(),
            forall|i: int|
                0 <= i < r@.len() ==> r@[i] == resolution_at(self.nodes@, level as nat, pos as nat)[i],
        decreases level,
    {
        proof {
            lemma_depth_bound(self.num_leaves as nat);
            lemma2_to64();
            if d - level < 30 {
                lemma_pow2_strictly_increases((d - level) as nat, 30);
            }
        }
        let x = index_at(level, pos, d);
        if self.nodes[x].is_some() {
            let mut r: Vec<usize> = Vec::new();
            r.push(x);
            r
        } else if level == 0 {
            Vec::new()
        } else {
            proof {
                lemma_neighbours_in_tree(level as nat, pos as nat, d as nat);
            }
            let mut left = self.resolution_rec(level - 1, 2 * pos, d);
            let mut right = self.resolution_rec(level - 1, 2 * pos + 1, d);
            left.append(&mut right);
            left
        }
    }

    /// The resolution of node `x`; an error for an index outside the tree.
    pub fn resolution(&self, x: usize) -> (r: Result<Vec<usize>, IndexError>)
        requires
            self.wf(),
        ensures
            r is Ok <==> x < self.nodes@.len(),
            r is Ok ==> r->Ok_0@.len() == resolution_at(
                self.nodes@,
                level_of(x as nat),
                pos_of(x as nat),
            ).len(),
            r is Ok ==> forall|i: int|
                0 <= i < r->Ok_0@.len() ==> r->Ok_0@[i] == resolution_at(
                    self.nodes@,
                    level_of(x as nat),
                    pos_of(x as nat),
                )[i],
    {
        if x >= self.nodes.len() {
            return Err(IndexError);
        }
        let d = tree_depth(self.num_leaves);
        proof {
            lemma_index_in_tree(x as nat, d as nat);
        }
        let (k, j) = coords(x);
        Ok(self.resolution_rec(k, j, d))
    }

    /// Blanks leaf `leaf` and its whole direct path; an error, with the tree
    /// unchanged, for a leaf outside the tree.
    pub fn blank_path(&mut self, leaf: usize) -> (r: Result<(), TreeError>)
        requires
            old(self).wf(),
        ensures
            r is Ok <==> leaf < old(self).num_leaves,
            r is Err ==> r == Err::<(), TreeError>(TreeError::IndexError),
            final(self).wf(),
            final(self).num_leaves == old(self).num_leaves,
            r is Ok ==> final(self).nodes@ == blanked(
                old(self).nodes@,
                leaf as nat,
                old(self).depth(),
            ),
            r is Err ==> *final(self) == *old(self),
    {
        if leaf >= self.num_leaves {
            return Err(TreeError::IndexError);
        }
        let ghost orig = self.nodes@;
        let d = tree_depth(self.num_leaves);
        proof {
            lemma_depth_bound(self.num_leaves as nat);
            lemma_ancestor_in_tree(leaf as nat, 0, d as nat);
        }
        let x0 = index_at(0, leaf, d);
        self.nodes.set(x0, None);
        proof {
            assert forall|x: nat| #[trigger] on_path(leaf as nat, x, 0, 0) <==> x == x0 by {
                lemma_leaf_on_path(leaf as nat, x);
            }
            assert(self.nodes@ =~= blanked(orig, leaf as nat, 0));
        }
        let mut k: u32 = 0;
        let mut j: usize = leaf;
        while k < d
            invariant
                d == self.depth(),
                d <= 30,
                k <= d,
                leaf < self.num_leaves <= pow2(d as nat),
                valid_leaf_count(self.num_leaves as nat),
                self.num_leaves == old(self).num_leaves,
                j == ancestor_pos(leaf as nat, k as nat),
                self.nodes@ == blanked(orig, leaf as nat, k as nat),
                orig.len() == width(d as nat),
                forall|jj: nat|
                    self.num_leaves <= jj < pow2(d as nat) ==> (#[trigger] orig[2 * jj as int]) is None,
            decreases d - k,
        {
            proof {
                lemma_ancestor_in_tree(leaf as nat, (k + 1) as nat, d as nat);
            }
            j = j / 2;
            let x = index_at(k + 1, j, d);
            self.nodes.set(x, None);
            proof {
                assert forall|y: nat| #[trigger] on_path(leaf as nat, y, 0, (k + 1) as nat) <==> (
                on_path(leaf as nat, y, 0, k as nat) || y == x) by {
                    lemma_on_path_step(leaf as nat, y, 0, k as nat);
                }
                assert(self.nodes@ =~= blanked(orig, leaf as nat, (k + 1) as nat));
            }
            k = k + 1;
        }
        Ok(())
    }

    /// Installs a refreshed direct path for leaf `leaf`: `leaf_node` at the
    /// leaf and `path[k - 1]` at its ancestor on level `k`, up to the root.
    pub fn merge_path(&mut self, leaf: usize, leaf_node: NodeData, path: Vec<NodeData>) -> (r:
        Result<(), TreeError>)
        requires
            old(self).wf(),
        ensures
            r is Ok <==> leaf < old(self).num_leaves && path@.len() == old(self).depth(),
            leaf >= old(self).num_leaves ==> r == Err::<(), TreeError>(TreeError::IndexError),
            leaf < old(self).num_leaves && path@.len() != old(self).depth() ==> r == Err::<
                (),
                TreeError,
            >(TreeError::PathLengthMismatch),
            final(self).wf(),
            final(self).num_leaves == old(self).num_leaves,
            r is Ok ==> final(self).nodes@ == merged(
                old(self).nodes@,
                leaf as nat,
                leaf_node,
                path@,
                old(self).depth(),
            ),
            r is Err ==> *final(self) == *old(self),
    {
        if leaf >= self.num_leaves {
            return Err(TreeError::IndexError);
        }
        let d = tree_depth(self.num_leaves);
        if path.len() != d as usize {
            return Err(TreeError::PathLengthMismatch);
        }
        let ghost orig = self.nodes@;
        let ghost orig_path = path@;
        let ghost ln = leaf_node;
        let mut path = path;
        proof {
            lemma_depth_bound(self.num_leaves as nat);
            lemma_ancestor_in_tree(leaf as nat, 0, d as nat);
        }
        let x0 = index_at(0, leaf, d);
        self.nodes.set(x0, Some(leaf_node));
        proof {
            assert forall|x: nat| #[trigger] on_path(leaf as nat, x, 0, 0) <==> x == x0 by {
                lemma_leaf_on_path(leaf as nat, x);
            }
            assert(level_of(x0 as nat) == 0) by {
                lemma_leaf_on_path(leaf as nat, x0 as nat);
            }
            assert(self.nodes@ =~= merged(orig, leaf as nat, ln, orig_path, 0));
            assert forall|jj: nat|
                self.num_leaves <= jj < pow2(d as nat) implies (#[trigger] self.nodes@[2
                * jj as int]) is None by {
                assert(2 * jj != x0);
            }
        }
        let mut k: u32 = 0;
        let mut j: usize = leaf;
        while k < d
            invariant
                d == self.depth(),
                d <= 30,
                k <= d,
                leaf < self.num_leaves <= pow2(d as nat),
                valid_leaf_count(self.num_leaves as nat),
                self.num_leaves == old(self).num_leaves,
                j == ancestor_pos(leaf as nat, k as nat),
                path@ == orig_path.subrange(k as int, d as int),
                orig_path.len() == d,
                self.nodes@ == merged(orig, leaf as nat, ln, orig_path, k as nat),
                self.nodes@.len() == width(d as nat),
                forall|jj: nat|
                    self.num_leaves <= jj < pow2(d as nat) ==> (#[trigger] self.nodes@[2
                        * jj as int]) is None,
            decreases d - k,
        {
            proof {
                lemma_ancestor_in_tree(leaf as nat, (k + 1) as nat, d as nat);
            }
            j = j / 2;
            let x = index_at(k + 1, j, d);
            let node = path.remove(0);
            let ghost before = self.nodes@;
            self.nodes.set(x, Some(node));
            proof {
                lemma_index_coords((k + 1) as nat, j as nat);
                lemma_odd_above_leaves(x as nat);
                assert forall|y: nat| #[trigger] on_path(leaf as nat, y, 0, (k + 1) as nat) <==> (
                on_path(leaf as nat, y, 0, k as nat) || y == x) by {
                    lemma_on_path_step(leaf as nat, y, 0, k as nat);
                }
                assert(self.nodes@ =~= merged(orig, leaf as nat, ln, orig_path, (k + 1) as nat));
                assert forall|jj: nat|
                    self.num_leaves <= jj < pow2(d as nat) implies (#[trigger] self.nodes@[2
                    * jj as int]) is None by {
                    assert(before[2 * jj as int] is None);
                }
            }
            k = k + 1;
        }
        Ok(())
    }

    /// Adds a leaf holding `leaf_node` after the existing ones, doubling the
    /// capacity when the tree is full, and records the new leaf as unmerged at
    /// each filled node of its direct path. Returns the new leaf's number; an
    /// error, with the tree unchanged, when the leaf bound is reached.
    pub fn add_leaf(&mut self, leaf_node: NodeData) -> (r: Result<usize, TreeError>)
        requires
            old(self).wf(),
        ensures
            r is Ok <==> old(self).num_leaves < MAX_LEAVES,
            r is Err ==> r == Err::<usize, TreeError>(TreeError::IndexError) && *final(self)
                == *old(self),
            final(self).wf(),
            r is Ok ==> r->Ok_0 == old(self).num_leaves && final(self).num_leaves == old(
                self,
            ).num_leaves + 1,
            r is Ok ==> final(self).depth() == if old(self).num_leaves == pow2(old(self).depth()) {
                old(self).depth() + 1
            } else {
                old(self).depth()
            },
            r is Ok ==> final(self).nodes@[2 * old(self).num_leaves] == Some(leaf_node),
            r is Ok ==> forall|x: nat|
                x < final(self).nodes@.len() && !on_path(
                    old(self).num_leaves as nat,
                    x,
                    0,
                    final(self).depth(),
                ) ==> #[trigger] final(self).nodes@[x as int] == if x < old(self).nodes@.len() {
                    old(self).nodes@[x as int]
                } else {
                    None
                },
            r is Ok ==> forall|x: nat|
                x < final(self).nodes@.len() && on_path(
                    old(self).num_leaves as nat,
                    x,
                    1,
                    final(self).depth(),
                ) ==> with_unmerged(
                    if x < old(self).nodes@.len() {
                        old(self).nodes@[x as int]
                    } else {
                        None
                    },
                    #[trigger] final(self).nodes@[x as int],
                    old(self).num_leaves,
                ),
            r is Ok ==> forall|x: nat|
                x < old(self).nodes@.len() && (#[trigger] old(self).nodes@[x as int]) is Some
                    ==> final(self).nodes@[x as int] is Some && final(self).nodes@[x as int]->Some_0.public_key
                    == old(self).nodes@[x as int]->Some_0.public_key && final(self).nodes@[x as int]->Some_0.private_key
                    == old(self).nodes@[x as int]->Some_0.private_key,
    {
        if self.num_leaves >= MAX_LEAVES {
            return Err(TreeError::IndexError);
        }
        let ghost orig = self.nodes@;
        let n = self.num_leaves;
        let d = tree_depth(n);
        let cap = pow2_usize(d);
        let mut nd: u32 = d;
        proof {
            lemma_depth_bound(n as nat);
            lemma2_to64();
            lemma_pow2_unfold(d as nat + 1);
        }
        if n == cap {
            let mut i: usize = 0;
            while i < 2 * cap
                invariant
                    cap == pow2(d as nat),
                    cap <= MAX_LEAVES,
                    i <= 2 * cap,
                    self.nodes@.len() == orig.len() + i,
                    forall|x: int| 0 <= x < orig.len() ==> self.nodes@[x] == orig[x],
                    forall|x: int| orig.len() <= x < self.nodes@.len() ==> self.nodes@[x] is None,
                decreases 2 * cap - i,
            {
                self.nodes.push(None);
                i = i + 1;
            }
            nd = d + 1;
            proof {
                lemma_depth_unique((n + 1) as nat, nd as nat);
            }
        } else {
            proof {
                lemma_depth_unique((n + 1) as nat, d as nat);
            }
        }
        self.num_leaves = n + 1;
        let ghost grown = self.nodes@;
        proof {
            lemma_depth_bound((n + 1) as nat);
            lemma_ancestor_in_tree(n as nat, 0, nd as nat);
        }
        let x0 = index_at(0, n, nd);
        self.nodes.set(x0, Some(leaf_node));
        let ghost ext = self.nodes@;
        proof {
            lemma_leaf_on_path(n as nat, x0 as nat);
            assert forall|jj: nat|
                self.num_leaves <= jj < pow2(nd as nat) implies (#[trigger] self.nodes@[2
                * jj as int]) is None by {
                if jj < pow2(d as nat) {
                    assert(orig[2 * jj as int] is None);
                }
            }
            assert forall|x: nat| x < orig.len() && (#[trigger] orig[x as int]) is Some implies x
                != x0 by {
                if n < pow2(d as nat) {
                    assert(orig[2 * n as int] is None);
                }
            }
        }
        let mut k: u32 = 0;
        let mut j: usize = n;
        while k < nd
            invariant
                nd == self.depth(),
                nd <= 30,
                k <= nd,
                self.num_leaves == n + 1,
                valid_leaf_count(self.num_leaves as nat),
                n < pow2(nd as nat),
                j == ancestor_pos(n as nat, k as nat),
                self.nodes@.len() == ext.len(),
                ext.len() == width(nd as nat),
                forall|x: nat|
                    x < ext.len() ==> if on_path(n as nat, x, 1, k as nat) {
                        with_unmerged(ext[x as int], #[trigger] self.nodes@[x as int], n)
                    } else {
                        self.nodes@[x as int] == ext[x as int]
                    },
                forall|jj: nat|
                    self.num_leaves <= jj < pow2(nd as nat) ==> (#[trigger] self.nodes@[2
                        * jj as int]) is None,
            decreases nd - k,
        {
            proof {
                lemma_ancestor_in_tree(n as nat, (k + 1) as nat, nd as nat);
            }
            j = j / 2;
            let x = index_at(k + 1, j, nd);
            let ghost before = self.nodes@;
            let mut slot: Option<NodeData> = None;
            self.nodes.set_and_swap(x, &mut slot);
            match slot {
                Some(node) => {
                    let mut node = node;
                    node.unmerged_leaves.push(n);
                    self.nodes.set(x, Some(node));
                },
                None => {},
            }
            proof {
                lemma_index_coords((k + 1) as nat, j as nat);
                lemma_odd_above_leaves(x as nat);
                assert(!on_path(n as nat, x as nat, 1, k as nat));
                assert forall|y: nat| y < ext.len() implies if on_path(
                    n as nat,
                    y,
                    1,
                    (k + 1) as nat,
                ) {
                    with_unmerged(ext[y as int], #[trigger] self.nodes@[y as int], n)
                } else {
                    self.nodes@[y as int] == ext[y as int]
                } by {
                    lemma_on_path_step(n as nat, y, 1, k as nat);
                }
                assert forall|jj: nat|
                    self.num_leaves <= jj < pow2(nd as nat) implies (#[trigger] self.nodes@[2
                    * jj as int]) is None by {
                    assert(before[2 * jj as int] is None);
                }
            }
            k = k + 1;
        }
        proof {
            assert forall|x: nat|
                x < self.nodes@.len() && !on_path(n as nat, x, 0, nd as nat) implies #[trigger] self.nodes@[x as int]
                == if x < orig.len() {
                orig[x as int]
            } else {
                None
            } by {
                lemma_leaf_on_path(n as nat, x);
            }
            assert forall|x: nat|
                x < self.nodes@.len() && on_path(n as nat, x, 1, nd as nat) implies with_unmerged(
                if x < orig.len() {
                    orig[x as int]
                } else {
                    None
                },
                #[trigger] self.nodes@[x as int],
                n,
            ) by {
                lemma_leaf_on_path(n as nat, x);
            }
            assert forall|x: nat|
                x < orig.len() && (#[trigger] orig[x as int]) is Some implies self.nodes@[x as int] is Some
                && self.nodes@[x as int]->Some_0.public_key == orig[x as int]->Some_0.public_key
                && self.nodes@[x as int]->Some_0.private_key == orig[x as int]->Some_0.private_key by {
                assert(x != x0);
                if on_path(n as nat, x, 1, nd as nat) {
                    assert(with_unmerged(ext[x as int], self.nodes@[x as int], n));
                } else {
                    assert(self.nodes@[x as int] == ext[x as int]);
                }
            }
        }
        Ok(n)
    }

    /// For leaf `leaf`, the resolution of each copath node, leaf level first:
    /// the nodes a path secret is sealed to at each level of its direct path.
    /// Resolutions are as `resolution_at` defines them: a filled node stands
    /// for itself alone, so unmerged leaves are neither listed on their own
    /// nor taken out of a resolution here.
    pub fn encryption_targets(&self, leaf: usize) -> (r: Result<Vec<Vec<usize>>, TreeError>)
        requires
            self.wf(),
        ensures
            r is Ok <==> leaf < self.num_leaves,
            r is Err ==> r == Err::<Vec<Vec<usize>>, TreeError>(TreeError::IndexError),
            r is Ok ==> r->Ok_0@.len() == self.depth(),
            r is Ok ==> forall|i: int|
                #![trigger r->Ok_0@[i]]
                0 <= i < r->Ok_0@.len() ==> {
                    let res = resolution_at(
                        self.nodes@,
                        i as nat,
                        sibling_pos(ancestor_pos(leaf as nat, i as nat)),
                    );
                    &&& r->Ok_0@[i]@.len() == res.len()
                    &&& forall|t: int| 0 <= t < res.len() ==> r->Ok_0@[i]@[t] == res[t]
                },
    {
        if leaf >= self.num_leaves {
            return Err(TreeError::IndexError);
        }
        let d = tree_depth(self.num_leaves);
        proof {
            lemma_depth_bound(self.num_leaves as nat);
        }
        let mut out: Vec<Vec<usize>> = Vec::new();
        let mut k: u32 = 0;
        let mut j: usize = leaf;
        while k < d
            invariant
                self.wf(),
                d == self.depth(),
                d <= 30,
                k <= d,
                leaf < self.num_leaves <= pow2(d as nat),
                j == ancestor_pos(leaf as nat, k as nat),
                out@.len() == k,
                forall|i: int|
                    #![trigger out@[i]]
                    0 <= i < k ==> {
                        let res = resolution_at(
                            self.nodes@,
                            i as nat,
                            sibling_pos(ancestor_pos(leaf as nat, i as nat)),
                        );
                        &&& out@[i]@.len() == res.len()
                        &&& forall|t: int| 0 <= t < res.len() ==> out@[i]@[t] == res[t]
                    },
            decreases d - k,
        {
            proof {
                lemma_ancestor_in_tree(leaf as nat, k as nat, d as nat);
                lemma_neighbours_in_tree(k as nat, j as nat, d as nat);
            }
            let sj = if j % 2 == 0 {
                j + 1
            } else {
                j - 1
            };
            let res = self.resolution_rec(k, sj, d);
            out.push(res);
            j = j / 2;
            k = k + 1;
        }
        Ok(out)
    }

    fn ancestor_at(pos: usize, k: u32) -> (r: usize)
        ensures
            r == ancestor_pos(pos as nat, k as nat),
    {
        let mut i: u32 = 0;
        let mut p: usize = pos;
        while i < k
            invariant
                i <= k,
                p == ancestor_pos(pos as nat, i as nat),
            decreases k - i,
        {
            p = p / 2;
            i = i + 1;
        }
        p
    }

    fn holds_key(&self, me: usize, x: usize) -> (r: bool)
        requires
            x < self.nodes@.len(),
        ensures
            r == holds_key_for(self.nodes@, me as nat, x as nat),
    {
        let (lvl, p) = coords(x);
        if p != Self::ancestor_at(me, lvl) {
            return false;
        }
        match &self.nodes[x] {
            Some(n) => n.private_key.is_some(),
            None => false,
        }
    }

    /// Where leaf `me` can decrypt a path sent by leaf `sender`: the index, in
    /// the sender's direct path, of their lowest common ancestor, and the
    /// index, in the resolution of the copath node below it on `me`'s side, of
    /// the first node that covers `me` and whose private key is held here.
    pub fn decryption_target(&self, sender: usize, me: usize) -> (r: Result<(usize, usize), TreeError>)
        requires
            self.wf(),
        ensures
            sender >= self.num_leaves || me >= self.num_leaves ==> r == Err::<
                (usize, usize),
                TreeError,
            >(TreeError::IndexError),
            sender < self.num_leaves && me < self.num_leaves && r is Err ==> r == Err::<
                (usize, usize),
                TreeError,
            >(TreeError::CannotDecrypt),
            sender < self.num_leaves && me < self.num_leaves ==> (r == Err::<
                (usize, usize),
                TreeError,
            >(TreeError::CannotDecrypt) <==> (sender == me || forall|t: int|
                0 <= t < recipient_resolution(
                    self.nodes@,
                    sender as nat,
                    me as nat,
                    self.depth(),
                ).len() ==> !holds_key_for(
                    self.nodes@,
                    me as nat,
                    #[trigger] recipient_resolution(
                        self.nodes@,
                        sender as nat,
                        me as nat,
                        self.depth(),
                    )[t],
                ))),
            r is Ok ==> {
                let (i, t) = r->Ok_0;
                let res = recipient_resolution(self.nodes@, sender as nat, me as nat, self.depth());
                &&& sender != me
                &&& i + 1 == meet_from(sender as nat, me as nat, 1, self.depth())
                &&& ancestor_pos(sender as nat, i as nat + 1) == ancestor_pos(me as nat, i as nat + 1)
                &&& t < res.len()
                &&& holds_key_for(self.nodes@, me as nat, res[t as int])
                &&& forall|u: int| 0 <= u < t ==> !holds_key_for(self.nodes@, me as nat, #[trigger] res[u])
            },
    {
        if sender >= self.num_leaves || me >= self.num_leaves {
            return Err(TreeError::IndexError);
        }
        if sender == me {
            return Err(TreeError::CannotDecrypt);
        }
        let d = tree_depth(self.num_leaves);
        proof {
            lemma_depth_bound(self.num_leaves as nat);
            lemma2_to64();
            lemma_ancestor_in_tree(sender as nat, d as nat, d as nat);
            lemma_ancestor_in_tree(me as nat, d as nat, d as nat);
            assert((d - d) as nat == 0);
            if d == 0 {
                assert(sender < 1 && me < 1);
            }
            assert(ancestor_pos(sender as nat, 0) == sender);
            assert(ancestor_pos(me as nat, 0) == me);
            assert(ancestor_pos(sender as nat, 1) == sender / 2);
            assert(ancestor_pos(me as nat, 1) == me / 2);
        }
        let mut k: u32 = 1;
        let mut ja: usize = sender / 2;
        let mut jb: usize = me / 2;
        let mut jm: usize = me;
        while k < d && ja != jb
            invariant
                1 <= k <= d,
                d == self.depth(),
                d <= 30,
                ja == ancestor_pos(sender as nat, k as nat),
                jb == ancestor_pos(me as nat, k as nat),
                jm == ancestor_pos(me as nat, (k - 1) as nat),
                meet_from(sender as nat, me as nat, 1, d as nat) == meet_from(
                    sender as nat,
                    me as nat,
                    k as nat,
                    d as nat,
                ),
                ancestor_pos(sender as nat, d as nat) == 0,
                ancestor_pos(me as nat, d as nat) == 0,
            decreases d - k,
        {
            jm = jb;
            ja = ja / 2;
            jb = jb / 2;
            k = k + 1;
        }
        let ghost res_spec = recipient_resolution(self.nodes@, sender as nat, me as nat, d as nat);
        proof {
            assert(meet_from(sender as nat, me as nat, k as nat, d as nat) == k);
            lemma_ancestor_in_tree(me as nat, (k - 1) as nat, d as nat);
            lemma_pow2_unfold(1);
            assert(me < pow2(d as nat));
        }
        let res = self.resolution_rec(k - 1, jm, d);
        proof {
            lemma_resolution_in_tree(self.nodes@, (k - 1) as nat, jm as nat, d as nat);
        }
        let mut t: usize = 0;
        while t < res.len()
            invariant
                self.wf(),
                1 <= k <= d,
                d == self.depth(),
                sender < self.num_leaves,
                me < self.num_leaves,
                sender != me,
                meet_from(sender as nat, me as nat, 1, d as nat) == k,
                ancestor_pos(sender as nat, k as nat) == ancestor_pos(me as nat, k as nat),
                t <= res@.len(),
                res@.len() == recipient_resolution(self.nodes@, sender as nat, me as nat, d as nat).len(),
                forall|u: int|
                    0 <= u < res@.len() ==> res@[u] == recipient_resolution(
                        self.nodes@,
                        sender as nat,
                        me as nat,
                        d as nat,
                    )[u],
                res_spec == recipient_resolution(self.nodes@, sender as nat, me as nat, d as nat),
                forall|u: int|
                    0 <= u < t ==> !holds_key_for(self.nodes@, me as nat, #[trigger] res_spec[u]),
                forall|u: int| 0 <= u < res_spec.len() ==> #[trigger] res_spec[u] < self.nodes@.len(),
            decreases res@.len() - t,
        {
            assert(res@[t as int] == res_spec[t as int]);
            if self.holds_key(me, res[t]) {
                return Ok(((k - 1) as usize, t));
            }
            t = t + 1;
        }
        Err(TreeError::CannotDecrypt)
    }
}

} // verus!
