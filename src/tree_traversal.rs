//! Trees with ordered children, their sizes, and the test trees.
use vstd::prelude::*;

verus! {

broadcast use vstd::std_specs::vec::axiom_vec_index_decreases, vstd::std_specs::vec::axiom_vec_decreases_to_view;

/// A node of a tree with any number of ordered children.
#[derive(Debug)]
pub struct TreeNode<T> {
    pub value: T,
    pub children: Vec<TreeNode<T>>,
}

/// Nodes of a tree.
pub open spec fn size_of<T>(t: TreeNode<T>) -> nat
    decreases t, 0nat,
{
    1 + forest_size(t.children@, t.children@.len() as int)
}

/// Nodes of the first `k` trees of a forest.
pub open spec fn forest_size<T>(f: Seq<TreeNode<T>>, k: int) -> nat
    decreases f, k,
{
    if k <= 0 || k > f.len() {
        0
    } else {
        forest_size(f, k - 1) + size_of(f[k - 1])
    }
}

/// Leaves of a tree.
pub open spec fn leaves_of<T>(t: TreeNode<T>) -> nat
    decreases t, 0nat,
{
    if t.children@.len() == 0 {
        1
    } else {
        forest_leaves(t.children@, t.children@.len() as int)
    }
}

/// Leaves of the first `k` trees of a forest.
pub open spec fn forest_leaves<T>(f: Seq<TreeNode<T>>, k: int) -> nat
    decreases f, k,
{
    if k <= 0 || k > f.len() {
        0
    } else {
        forest_leaves(f, k - 1) + leaves_of(f[k - 1])
    }
}

/// Levels of a tree: one for a leaf, one more than its deepest child otherwise.
pub open spec fn depth_of<T>(t: TreeNode<T>) -> nat
    decreases t, 0nat,
{
    1 + forest_depth(t.children@, t.children@.len() as int)
}

/// The greatest depth among the first `k` trees of a forest, zero for none.
pub open spec fn forest_depth<T>(f: Seq<TreeNode<T>>, k: int) -> nat
    decreases f, k,
{
    if k <= 0 || k > f.len() {
        0
    } else {
        let a = forest_depth(f, k - 1);
        let b = depth_of(f[k - 1]);
        if a >= b { a } else { b }
    }
}

proof fn lemma_forest_bounds<T>(f: Seq<TreeNode<T>>, k: int)
    requires
        0 <= k <= f.len(),
    ensures
        forest_leaves(f, k) <= forest_size(f, k),
        forest_depth(f, k) <= forest_size(f, k),
        forall|i: int| 0 <= i < k ==> size_of(#[trigger] f[i]) <= forest_size(f, k),
    decreases f, k,
{
    if k > 0 {
        lemma_forest_bounds(f, k - 1);
        lemma_tree_bounds(f[k - 1]);
    }
}

/// A tree has at least as many nodes as leaves and as levels.
pub proof fn lemma_tree_bounds<T>(t: TreeNode<T>)
    ensures
        leaves_of(t) <= size_of(t),
        depth_of(t) <= size_of(t),
    decreases t, 1nat,
{
    lemma_forest_bounds(t.children@, t.children@.len() as int);
}

impl<T> TreeNode<T> {
    /// A leaf holding `value`.
    pub fn new(value: T) -> (n: TreeNode<T>)
        ensures
            n.value == value,
            n.children@.len() == 0,
    {
        TreeNode { value, children: Vec::new() }
    }

    /// Appends `child` as the last child.
    pub fn add_child(&mut self, child: TreeNode<T>)
        ensures
            final(self).value == old(self).value,
            final(self).children@ == old(self).children@.push(child),
    {
        self.children.push(child);
    }

    /// Whether the node has no children.
    pub fn is_leaf(&self) -> (b: bool)
        ensures
            b == (self.children@.len() == 0),
    {
        self.children.len() == 0
    }

    /// Number of levels below and including this node.
    pub fn depth(&self) -> (d: usize)
        requires
            size_of(*self) <= usize::MAX,
        ensures
            d == depth_of(*self),
        decreases *self,
    {
        proof {
            lemma_tree_bounds(*self);
        }
        if self.is_leaf() {
            return 1;
        }
        let mut best: usize = 0;
        let mut i: usize = 0;
        while i < self.children.len()
            invariant
                i <= self.children@.len(),
                size_of(*self) <= usize::MAX,
                best == forest_depth(self.children@, i as int),
                forest_depth(self.children@, i as int) <= forest_size(self.children@, i as int),
                forest_size(self.children@, i as int) <= forest_size(self.children@, self.children@.len() as int),
            decreases self.children@.len() - i,
        {
            proof {
                lemma_forest_bounds(self.children@, self.children@.len() as int);
                lemma_forest_bounds(self.children@, i + 1);
                lemma_forest_prefix(self.children@, i + 1, self.children@.len() as int);
                assert(decreases_to!(*self => self.children));
            }
            let d = self.children[i].depth();
            if d > best {
                best = d;
            }
            i = i + 1;
        }
        best + 1
    }

    /// Number of nodes below and including this node.
    pub fn count_nodes(&self) -> (n: usize)
        requires
            size_of(*self) <= usize::MAX,
        ensures
            n == size_of(*self),
        decreases *self,
    {
        let mut total: usize = 0;
        let mut i: usize = 0;
        while i < self.children.len()
            invariant
                i <= self.children@.len(),
                size_of(*self) <= usize::MAX,
                total == forest_size(self.children@, i as int),
            decreases self.children@.len() - i,
        {
            proof {
                lemma_forest_bounds(self.children@, i + 1);
                lemma_forest_prefix(self.children@, i + 1, self.children@.len() as int);
                assert(decreases_to!(*self => self.children));
            }
            let c = self.children[i].count_nodes();
            total = total + c;
            i = i + 1;
        }
        total + 1
    }

    /// Number of leaves below and including this node.
    pub fn count_leaves(&self) -> (n: usize)
        requires
            size_of(*self) <= usize::MAX,
        ensures
            n == leaves_of(*self),
        decreases *self,
    {
        if self.is_leaf() {
            return 1;
        }
        let mut total: usize = 0;
        let mut i: usize = 0;
        while i < self.children.len()
            invariant
                i <= self.children@.len(),
                size_of(*self) <= usize::MAX,
                total == forest_leaves(self.children@, i as int),
            decreases self.children@.len() - i,
        {
            proof {
                lemma_forest_bounds(self.children@, i + 1);
                lemma_forest_prefix(self.children@, i + 1, self.children@.len() as int);
                assert(decreases_to!(*self => self.children));
            }
            let c = self.children[i].count_leaves();
            total = total + c;
            i = i + 1;
        }
        total
    }
}

proof fn lemma_forest_prefix<T>(f: Seq<TreeNode<T>>, i: int, k: int)
    requires
        0 <= i <= k <= f.len(),
    ensures
        forest_size(f, i) <= forest_size(f, k),
    decreases k - i,
{
    if i < k {
        lemma_forest_prefix(f, i, k - 1);
    }
}

/// The largest label a node of a complete tree with `depth` levels may carry so
/// that the labels of its descendants (ten times the parent's plus the child's
/// place, one to nine) fit in an `i32`.
pub open spec fn label_room(depth: nat) -> int
    decreases depth,
{
    if depth <= 1 {
        i32::MAX as int
    } else {
        (label_room((depth - 1) as nat) - 9) / 10
    }
}

proof fn lemma_label_room_max(depth: nat)
    ensures
        label_room(depth) <= i32::MAX,
    decreases depth,
{
    if depth > 1 {
        lemma_label_room_max((depth - 1) as nat);
    }
}

/// A complete tree with `depth` levels (at least one) and `children_per_node`
/// children per inner node; the root carries `value` and the `i`-th child of a
/// node labelled `v` carries `10 * v + i + 1`.
pub fn create_complete_tree(depth: usize, children_per_node: usize, value: i32) -> (t: TreeNode<i32>)
    requires
        children_per_node <= 9,
        0 <= value <= label_room(depth as nat),
    ensures
        t.value == value,
        t.children@.len() == if depth > 1 { children_per_node as int } else { 0 },
        forall|i: int| 0 <= i < t.children@.len() ==> (#[trigger] t.children@[i]).value == 10 * value + i + 1,
    decreases depth,
{
    let mut node = TreeNode::new(value);
    if depth > 1 {
        let mut i: usize = 0;
        while i < children_per_node
            invariant
                depth > 1,
                children_per_node <= 9,
                0 <= value <= label_room(depth as nat),
                i <= children_per_node,
                node.value == value,
                node.children@.len() == i,
                forall|j: int| 0 <= j < i ==> (#[trigger] node.children@[j]).value == 10 * value + j + 1,
            decreases children_per_node - i,
        {
            proof {
                lemma_label_room_max((depth - 1) as nat);
                let r = label_room((depth - 1) as nat);
                assert(label_room(depth as nat) == (r - 9) / 10);
                assert(10 * value + i + 1 <= r) by (nonlinear_arith)
                    requires
                        value <= (r - 9) / 10,
                        i < 9,
                        value >= 0,
                ;
            }
            let child_value = value * 10 + (i as i32) + 1;
            node.add_child(create_complete_tree(depth - 1, children_per_node, child_value));
            i = i + 1;
        }
    }
    node
}

/// A root labelled one whose children are labelled two to `nodes`; each child but
/// the last has one child labelled one more than itself. No nodes gives a single
/// node labelled zero.
pub fn create_unbalanced_tree(nodes: usize) -> (t: TreeNode<i32>)
    requires
        nodes < i32::MAX,
    ensures
        nodes == 0 ==> t.value == 0 && t.children@.len() == 0,
        nodes > 0 ==> t.value == 1 && t.children@.len() == nodes - 1,
        forall|i: int| 0 <= i < t.children@.len() ==> (#[trigger] t.children@[i]).value == i + 2
            && t.children@[i].children@.len() == if i + 2 < nodes { 1int } else { 0 },
{
    if nodes == 0 {
        return TreeNode::new(0);
    }
    let mut node = TreeNode::new(1);
    let mut i: usize = 2;
    while i <= nodes
        invariant
            2 <= i <= nodes + 1,
            nodes < i32::MAX,
            node.value == 1,
            node.children@.len() == i - 2,
            forall|j: int| 0 <= j < node.children@.len() ==> (#[trigger] node.children@[j]).value == j + 2
                && node.children@[j].children@.len() == if j + 2 < nodes { 1int } else { 0 },
        decreases nodes + 1 - i,
    {
        let mut child = TreeNode::new(i as i32);
        if i < nodes {
            child.add_child(TreeNode::new((i + 1) as i32));
        }
        node.add_child(child);
        i = i + 1;
    }
    node
}

/// Holds the trees that traversal benchmarks run on.
pub struct TreeTraversalCoordinator {
    pub test_trees: Vec<TreeNode<i32>>,
}

impl TreeTraversalCoordinator {
    /// A coordinator with its five test trees: binary with four levels, ternary with
    /// three, eight children under one root, an unbalanced tree of six nodes, and
    /// binary with six levels.
    pub fn new() -> (c: TreeTraversalCoordinator)
        ensures
            c.test_trees@.len() == 5,
    {
        let mut coordinator = TreeTraversalCoordinator { test_trees: Vec::new() };
        coordinator.generate_test_trees();
        coordinator
    }

    fn generate_test_trees(&mut self)
        ensures
            final(self).test_trees@.len() == old(self).test_trees@.len() + 5,
    {
        proof {
            reveal_with_fuel(label_room, 7);
        }
        self.test_trees.push(create_complete_tree(4, 2, 1));
        self.test_trees.push(create_complete_tree(3, 3, 1));
        self.test_trees.push(create_complete_tree(2, 8, 1));
        self.test_trees.push(create_unbalanced_tree(6));
        self.test_trees.push(create_complete_tree(6, 2, 1));
    }
}

} // verus!
