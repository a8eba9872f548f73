//! The shape of a bounding volume hierarchy and the depth-first walk that
//! queries it.
//!
//! A hierarchy is stored as a list of nodes, each after its children, the
//! root last. A leaf holds the index of an item. A query walks the nodes
//! from the root with a stack, left child first, and prunes every node that
//! fails the query's test (a box or a ray against the node's bounding box);
//! the test itself is handed in, one node at a time, as a `bool`.
use vstd::prelude::*;

verus! {

/// A node of a bounding volume hierarchy: a leaf holds the index of an item,
/// a branch the indices of its two children.
#[derive(Debug, Clone, Copy, PartialEq, Eq, Structural)]
pub enum BvhNode {
    Leaf { item: usize },
    Branch { left: usize, right: usize },
}

/// Every branch refers to nodes stored before it.
pub open spec fn children_before(nodes: Seq<BvhNode>) -> bool {
    forall|i: int|
        #![trigger nodes[i]]
        0 <= i < nodes.len() ==> (nodes[i] matches BvhNode::Branch { left, right } ==> left < i && right < i)
}

/// The items of the leaves under node `i` that a query reaches when `hit`
/// tells which nodes pass its test: a node that fails prunes everything
/// under it. Items come from left to right.
pub open spec fn leaves_under(nodes: Seq<BvhNode>, i: int, hit: Seq<bool>) -> Seq<usize>
    decreases i,
{
    if 0 <= i < nodes.len() && hit[i] {
        match nodes[i] {
            BvhNode::Leaf { item } => seq![item],
            BvhNode::Branch { left, right } => if left < i && right < i {
                leaves_under(nodes, left as int, hit) + leaves_under(nodes, right as int, hit)
            } else {
                Seq::empty()
            },
        }
    } else {
        Seq::empty()
    }
}

/// The number of nodes under node `i`, itself included.
pub open spec fn subtree_size(nodes: Seq<BvhNode>, i: int) -> nat
    decreases i,
{
    if 0 <= i < nodes.len() {
        match nodes[i] {
            BvhNode::Leaf { .. } => 1,
            BvhNode::Branch { left, right } => if left < i && right < i {
                1 + subtree_size(nodes, left as int) + subtree_size(nodes, right as int)
            } else {
                1
            },
        }
    } else {
        0
    }
}

/// The items that a walk with `stack` still has to give: those under the
/// top of the stack first.
pub open spec fn pending(nodes: Seq<BvhNode>, stack: Seq<usize>, hit: Seq<bool>) -> Seq<usize>
    decreases stack.len(),
{
    if stack.len() == 0 {
        Seq::empty()
    } else {
        leaves_under(nodes, stack.last() as int, hit) + pending(nodes, stack.drop_last(), hit)
    }
}

/// The number of nodes a walk with `stack` can still visit.
pub open spec fn stack_size(nodes: Seq<BvhNode>, stack: Seq<usize>) -> nat
    decreases stack.len(),
{
    if stack.len() == 0 {
        0
    } else {
        subtree_size(nodes, stack.last() as int) + stack_size(nodes, stack.drop_last())
    }
}

/// The items a whole query gives: those under the root, if there is one.
pub open spec fn query_result(nodes: Seq<BvhNode>, hit: Seq<bool>) -> Seq<usize> {
    if nodes.len() == 0 {
        Seq::empty()
    } else {
        leaves_under(nodes, nodes.len() - 1, hit)
    }
}

/// The item a step gave, as a sequence of zero or one items.
pub open spec fn given(r: Option<usize>) -> Seq<usize> {
    match r {
        Some(item) => seq![item],
        None => Seq::empty(),
    }
}

/// Node `j` lies under node `i` along a path of nodes that all pass the
/// query's test, both ends included.
pub open spec fn reached(nodes: Seq<BvhNode>, i: int, j: int, hit: Seq<bool>) -> bool
    decreases i,
{
    if 0 <= i < nodes.len() && hit[i] {
        i == j || match nodes[i] {
            BvhNode::Branch { left, right } => left < i && right < i && (reached(nodes, left as int, j, hit)
                || reached(nodes, right as int, j, hit)),
            BvhNode::Leaf { .. } => false,
        }
    } else {
        false
    }
}

/// A query gives an item exactly when the item sits in a leaf that the walk
/// reaches from node `i` through nodes that all pass the test: pruning drops
/// nothing else, and every item it gives passed its own test.
pub proof fn lemma_query_gives_reached_leaves(nodes: Seq<BvhNode>, i: int, hit: Seq<bool>, x: usize)
    ensures
        leaves_under(nodes, i, hit).contains(x) <==> exists|j: int|
            #[trigger] reached(nodes, i, j, hit) && nodes[j] == (BvhNode::Leaf { item: x }),
    decreases i,
{
    if 0 <= i < nodes.len() && hit[i] {
        match nodes[i] {
            BvhNode::Leaf { item } => {
                if leaves_under(nodes, i, hit).contains(x) {
                    assert(leaves_under(nodes, i, hit)[0] == item);
                    assert(reached(nodes, i, i, hit));
                }
                if exists|j: int| #[trigger] reached(nodes, i, j, hit) && nodes[j] == (BvhNode::Leaf { item: x }) {
                    let j = choose|j: int| #[trigger] reached(nodes, i, j, hit) && nodes[j] == (BvhNode::Leaf { item: x });
                    assert(j == i);
                    assert(leaves_under(nodes, i, hit)[0] == x);
                }
            },
            BvhNode::Branch { left, right } => {
                if left < i && right < i {
                    let l = left as int;
                    let r = right as int;
                    lemma_query_gives_reached_leaves(nodes, l, hit, x);
                    lemma_query_gives_reached_leaves(nodes, r, hit, x);
                    let both = leaves_under(nodes, l, hit) + leaves_under(nodes, r, hit);
                    assert(leaves_under(nodes, i, hit) == both);
                    if both.contains(x) {
                        let k = choose|k: int| 0 <= k < both.len() && both[k] == x;
                        if k < leaves_under(nodes, l, hit).len() {
                            assert(leaves_under(nodes, l, hit)[k] == x);
                            let j = choose|j: int| #[trigger] reached(nodes, l, j, hit) && nodes[j] == (BvhNode::Leaf { item: x });
                            assert(reached(nodes, i, j, hit));
                        } else {
                            let k2 = k - leaves_under(nodes, l, hit).len();
                            assert(leaves_under(nodes, r, hit)[k2] == x);
                            let j = choose|j: int| #[trigger] reached(nodes, r, j, hit) && nodes[j] == (BvhNode::Leaf { item: x });
                            assert(reached(nodes, i, j, hit));
                        }
                    }
                    if exists|j: int| #[trigger] reached(nodes, i, j, hit) && nodes[j] == (BvhNode::Leaf { item: x }) {
                        let j = choose|j: int| #[trigger] reached(nodes, i, j, hit) && nodes[j] == (BvhNode::Leaf { item: x });
                        assert(j != i);
                        if reached(nodes, l, j, hit) {
                            let k = choose|k: int| 0 <= k < leaves_under(nodes, l, hit).len() && leaves_under(nodes, l, hit)[k] == x;
                            assert(both[k] == x);
                        } else {
                            assert(reached(nodes, r, j, hit));
                            let k = choose|k: int| 0 <= k < leaves_under(nodes, r, hit).len() && leaves_under(nodes, r, hit)[k] == x;
                            assert(both[leaves_under(nodes, l, hit).len() + k] == x);
                        }
                    }
                } else {
                    if exists|j: int| #[trigger] reached(nodes, i, j, hit) && nodes[j] == (BvhNode::Leaf { item: x }) {
                        let j = choose|j: int| #[trigger] reached(nodes, i, j, hit) && nodes[j] == (BvhNode::Leaf { item: x });
                        assert(j == i);
                    }
                }
            },
        }
    } else {
        if exists|j: int| #[trigger] reached(nodes, i, j, hit) && nodes[j] == (BvhNode::Leaf { item: x }) {
            let j = choose|j: int| #[trigger] reached(nodes, i, j, hit) && nodes[j] == (BvhNode::Leaf { item: x });
            assert(!reached(nodes, i, j, hit));
        }
    }
}

/// A node reached when fewer nodes pass the test is reached when more pass.
proof fn lemma_reached_monotone(nodes: Seq<BvhNode>, i: int, j: int, fewer: Seq<bool>, more: Seq<bool>)
    requires
        forall|k: int| 0 <= k < nodes.len() && #[trigger] fewer[k] ==> more[k],
        reached(nodes, i, j, fewer),
    ensures
        reached(nodes, i, j, more),
    decreases i,
{
    if i != j {
        if let BvhNode::Branch { left, right } = nodes[i] {
            if reached(nodes, left as int, j, fewer) {
                lemma_reached_monotone(nodes, left as int, j, fewer, more);
            } else {
                lemma_reached_monotone(nodes, right as int, j, fewer, more);
            }
        }
    }
}

/// Pruning only removes: when every node that passes one test also passes
/// another, each item the first query gives, the second gives too. In
/// particular a query gives no item that the walk without pruning (every
/// node passing) would not give.
pub proof fn lemma_pruning_only_removes(nodes: Seq<BvhNode>, i: int, fewer: Seq<bool>, more: Seq<bool>, x: usize)
    requires
        forall|k: int| 0 <= k < nodes.len() && #[trigger] fewer[k] ==> more[k],
        leaves_under(nodes, i, fewer).contains(x),
    ensures
        leaves_under(nodes, i, more).contains(x),
{
    lemma_query_gives_reached_leaves(nodes, i, fewer, x);
    let j = choose|j: int| #[trigger] reached(nodes, i, j, fewer) && nodes[j] == (BvhNode::Leaf { item: x });
    lemma_reached_monotone(nodes, i, j, fewer, more);
    lemma_query_gives_reached_leaves(nodes, i, more, x);
}

/// Node `n` is a branch with `j` as one of its children.
pub open spec fn refers(n: BvhNode, j: int) -> bool {
    n matches BvhNode::Branch { left, right } && (left == j || right == j)
}

/// Some branch has node `j` as a child.
pub open spec fn has_parent(nodes: Seq<BvhNode>, j: int) -> bool {
    exists|i: int| 0 <= i < nodes.len() && #[trigger] refers(nodes[i], j)
}

/// Every branch refers to nodes before it, to two different ones, and no
/// node is the child of two branches: the nodes form a forest.
pub open spec fn is_forest(nodes: Seq<BvhNode>) -> bool {
    &&& children_before(nodes)
    &&& forall|i: int|
        #![trigger nodes[i]]
        0 <= i < nodes.len() ==> (nodes[i] matches BvhNode::Branch { left, right } ==> left != right)
    &&& forall|i1: int, i2: int, j: int|
        0 <= i1 < nodes.len() && 0 <= i2 < nodes.len() && #[trigger] refers(nodes[i1], j) && #[trigger] refers(
            nodes[i2],
            j,
        ) ==> i1 == i2
}

/// The nodes form one tree: a forest in which every node but the root (the
/// last one) is the child of a branch.
pub open spec fn is_tree(nodes: Seq<BvhNode>) -> bool {
    &&& is_forest(nodes)
    &&& forall|j: int| 0 <= j < nodes.len() - 1 ==> #[trigger] has_parent(nodes, j)
}

/// No two leaves hold the same item.
pub open spec fn distinct_items(nodes: Seq<BvhNode>) -> bool {
    forall|j1: int, j2: int|
        0 <= j1 < nodes.len() && 0 <= j2 < nodes.len() && #[trigger] nodes[j1] == #[trigger] nodes[j2] && nodes[j1] is Leaf
            ==> j1 == j2
}

/// Every node passes the test.
pub open spec fn all_pass(n: nat) -> Seq<bool> {
    Seq::new(n, |i: int| true)
}

/// A node reached from `i` is stored no later than `i`, and passes.
proof fn lemma_reached_below(nodes: Seq<BvhNode>, i: int, j: int, hit: Seq<bool>)
    requires
        reached(nodes, i, j, hit),
    ensures
        0 <= j <= i < nodes.len(),
        hit[j],
    decreases i,
{
    if i != j {
        if let BvhNode::Branch { left, right } = nodes[i] {
            if reached(nodes, left as int, j, hit) {
                lemma_reached_below(nodes, left as int, j, hit);
            } else {
                lemma_reached_below(nodes, right as int, j, hit);
            }
        }
    }
}

/// A node reached from a node reached from `a` is reached from `a`.
proof fn lemma_reached_trans(nodes: Seq<BvhNode>, a: int, b: int, c: int, hit: Seq<bool>)
    requires
        reached(nodes, a, b, hit),
        reached(nodes, b, c, hit),
    ensures
        reached(nodes, a, c, hit),
    decreases a,
{
    if a != b {
        if let BvhNode::Branch { left, right } = nodes[a] {
            if reached(nodes, left as int, b, hit) {
                lemma_reached_trans(nodes, left as int, b, c, hit);
            } else {
                lemma_reached_trans(nodes, right as int, b, c, hit);
            }
        }
    }
}

/// In a tree, a path from `a` down to `j != a` passes through the parent
/// of `j`.
proof fn lemma_reached_parent(nodes: Seq<BvhNode>, a: int, j: int, p: int, hit: Seq<bool>)
    requires
        is_tree(nodes),
        reached(nodes, a, j, hit),
        a != j,
        0 <= p < nodes.len(),
        refers(nodes[p], j),
    ensures
        reached(nodes, a, p, hit),
    decreases a,
{
    if let BvhNode::Branch { left, right } = nodes[a] {
        let l = left as int;
        let r = right as int;
        if reached(nodes, l, j, hit) {
            if l == j {
                assert(refers(nodes[a], j));
                assert(a == p);
            } else {
                lemma_reached_parent(nodes, l, j, p, hit);
            }
        } else {
            if r == j {
                assert(refers(nodes[a], j));
                assert(a == p);
            } else {
                lemma_reached_parent(nodes, r, j, p, hit);
            }
        }
    }
}

/// In a tree, two nodes above a common node lie one above the other.
proof fn lemma_common_descendant(nodes: Seq<BvhNode>, a: int, b: int, j: int, hit: Seq<bool>)
    requires
        is_tree(nodes),
        reached(nodes, a, j, hit),
        reached(nodes, b, j, hit),
    ensures
        reached(nodes, a, b, hit) || reached(nodes, b, a, hit),
    decreases a + b - 2 * j,
{
    lemma_reached_below(nodes, a, j, hit);
    lemma_reached_below(nodes, b, j, hit);
    if a != j && b != j {
        assert(j < nodes.len() - 1);
        assert(has_parent(nodes, j));
        let p = choose|i: int| 0 <= i < nodes.len() && #[trigger] refers(nodes[i], j);
        assert(j < p) by {
            if let BvhNode::Branch { left, right } = nodes[p] {
            }
        }
        lemma_reached_parent(nodes, a, j, p, hit);
        lemma_reached_parent(nodes, b, j, p, hit);
        lemma_reached_below(nodes, a, p, hit);
        lemma_reached_below(nodes, b, p, hit);
        lemma_common_descendant(nodes, a, b, p, hit);
    }
}

/// In a tree, a query gives no item twice when no two leaves hold the same
/// item.
proof fn lemma_query_no_duplicates(nodes: Seq<BvhNode>, i: int, hit: Seq<bool>)
    requires
        is_tree(nodes),
        distinct_items(nodes),
    ensures
        leaves_under(nodes, i, hit).no_duplicates(),
    decreases i,
{
    if 0 <= i < nodes.len() && hit[i] {
        if let BvhNode::Branch { left, right } = nodes[i] {
            let l = left as int;
            let r = right as int;
            lemma_query_no_duplicates(nodes, l, hit);
            lemma_query_no_duplicates(nodes, r, hit);
            let sl = leaves_under(nodes, l, hit);
            let sr = leaves_under(nodes, r, hit);
            assert(leaves_under(nodes, i, hit) == sl + sr);
            assert forall|a: int, b: int| 0 <= a < b < (sl + sr).len() implies (sl + sr)[a] != (sl + sr)[b] by {
                if a < sl.len() && b >= sl.len() {
                    let x = sl[a];
                    if sr[b - sl.len()] == x {
                        assert(sl.contains(x));
                        assert(sr.contains(x));
                        lemma_query_gives_reached_leaves(nodes, l, hit, x);
                        lemma_query_gives_reached_leaves(nodes, r, hit, x);
                        let jl = choose|j: int| #[trigger] reached(nodes, l, j, hit) && nodes[j] == (BvhNode::Leaf { item: x });
                        let jr = choose|j: int| #[trigger] reached(nodes, r, j, hit) && nodes[j] == (BvhNode::Leaf { item: x });
                        lemma_reached_below(nodes, l, jl, hit);
                        lemma_reached_below(nodes, r, jr, hit);
                        assert(jl == jr);
                        lemma_common_descendant(nodes, l, r, jl, hit);
                        assert(refers(nodes[i], l));
                        assert(refers(nodes[i], r));
                        if reached(nodes, l, r, hit) {
                            lemma_reached_parent(nodes, l, r, i, hit);
                            lemma_reached_below(nodes, l, i, hit);
                        } else {
                            lemma_reached_parent(nodes, r, l, i, hit);
                            lemma_reached_below(nodes, r, i, hit);
                        }
                    }
                }
            }
        }
    }
}

/// In a tree, the root reaches every leaf that passes the test whose
/// ancestors all pass too.
proof fn lemma_root_reaches(nodes: Seq<BvhNode>, j: int, hit: Seq<bool>)
    requires
        is_tree(nodes),
        0 <= j < nodes.len(),
        hit[j],
        forall|p: int| #[trigger] reached(nodes, p, j, all_pass(nodes.len())) ==> hit[p],
    ensures
        reached(nodes, nodes.len() - 1, j, hit),
    decreases nodes.len() - j,
{
    let all = all_pass(nodes.len());
    if j < nodes.len() - 1 {
        assert(has_parent(nodes, j));
        let p = choose|i: int| 0 <= i < nodes.len() && #[trigger] refers(nodes[i], j);
        assert(reached(nodes, j, j, all));
        assert(reached(nodes, p, j, all));
        assert forall|q: int| #[trigger] reached(nodes, q, p, all) implies hit[q] by {
            lemma_reached_trans(nodes, q, p, j, all);
        }
        assert(j < p);
        lemma_root_reaches(nodes, p, hit);
        assert(reached(nodes, j, j, hit));
        assert(reached(nodes, p, j, hit));
        lemma_reached_trans(nodes, nodes.len() - 1, p, j, hit);
    }
}

/// In a tree whose leaves hold distinct items, a query gives each item at
/// most once, and gives exactly the items of the leaves that pass their
/// test, provided that every ancestor of a passing leaf passes too (as a box
/// that meets a leaf's box meets the boxes of the branches above it). With
/// every node passing, the query gives every item of the tree once.
pub proof fn lemma_tree_query_gives_passing_items(nodes: Seq<BvhNode>, hit: Seq<bool>, x: usize)
    requires
        is_tree(nodes),
        distinct_items(nodes),
        hit.len() == nodes.len(),
        forall|p: int, j: int|
            0 <= j < nodes.len() && hit[j] && nodes[j] is Leaf && #[trigger] reached(nodes, p, j, all_pass(nodes.len()))
                ==> #[trigger] hit[p],
    ensures
        query_result(nodes, hit).no_duplicates(),
        query_result(nodes, hit).contains(x) <==> exists|j: int|
            0 <= j < nodes.len() && hit[j] && #[trigger] nodes[j] == (BvhNode::Leaf { item: x }),
{
    if nodes.len() > 0 {
        let root = nodes.len() - 1;
        lemma_query_no_duplicates(nodes, root, hit);
        lemma_query_gives_reached_leaves(nodes, root, hit, x);
        if query_result(nodes, hit).contains(x) {
            let j = choose|j: int| #[trigger] reached(nodes, root, j, hit) && nodes[j] == (BvhNode::Leaf { item: x });
            lemma_reached_below(nodes, root, j, hit);
        }
        if exists|j: int| 0 <= j < nodes.len() && hit[j] && #[trigger] nodes[j] == (BvhNode::Leaf { item: x }) {
            let j = choose|j: int| 0 <= j < nodes.len() && hit[j] && #[trigger] nodes[j] == (BvhNode::Leaf { item: x });
            assert forall|p: int| #[trigger] reached(nodes, p, j, all_pass(nodes.len())) implies hit[p] by {}
            lemma_root_reaches(nodes, j, hit);
        }
    }
}

/// With every node passing, a query over a tree whose leaves hold distinct
/// items gives each item of the tree exactly once.
pub proof fn lemma_full_query_gives_each_item_once(nodes: Seq<BvhNode>, x: usize)
    requires
        is_tree(nodes),
        distinct_items(nodes),
    ensures
        query_result(nodes, all_pass(nodes.len())).no_duplicates(),
        query_result(nodes, all_pass(nodes.len())).contains(x) <==> exists|j: int|
            0 <= j < nodes.len() && #[trigger] nodes[j] == (BvhNode::Leaf { item: x }),
{
    let all = all_pass(nodes.len());
    lemma_tree_query_gives_passing_items(nodes, all, x);
    if exists|j: int| 0 <= j < nodes.len() && #[trigger] nodes[j] == (BvhNode::Leaf { item: x }) {
        let j = choose|j: int| 0 <= j < nodes.len() && #[trigger] nodes[j] == (BvhNode::Leaf { item: x });
        assert(all[j]);
    }
}

/// The nodes of a bounding volume hierarchy, each stored after its
/// children; the last one is the root. Each node records whether a branch
/// has taken it as a child yet.
#[derive(Debug, Clone, PartialEq, Eq)]
pub struct BvhTree {
    nodes: Vec<BvhNode>,
    parented: Vec<bool>,
}

impl BvhTree {
    /// The nodes, in the order they were added.
    pub closed spec fn spec_nodes(&self) -> Seq<BvhNode> {
        self.nodes@
    }

    /// For each node, whether a branch has it as a child.
    pub closed spec fn spec_parented(&self) -> Seq<bool> {
        self.parented@
    }

    /// The nodes form a forest, and the record of which nodes have a parent
    /// is right.
    pub open spec fn wf(&self) -> bool {
        &&& is_forest(self.spec_nodes())
        &&& self.spec_parented().len() == self.spec_nodes().len()
        &&& forall|j: int|
            0 <= j < self.spec_nodes().len() ==> #[trigger] self.spec_parented()[j] == has_parent(self.spec_nodes(), j)
    }

    /// A hierarchy without nodes.
    pub fn new() -> (t: Self)
        ensures
            t.wf(),
            t.spec_nodes() == Seq::<BvhNode>::empty(),
    {
        BvhTree { nodes: Vec::new(), parented: Vec::new() }
    }

    /// The number of nodes.
    pub fn len(&self) -> (r: usize)
        ensures
            r == self.spec_nodes().len(),
    {
        self.nodes.len()
    }

    /// The node at index `i`.
    pub fn node(&self, i: usize) -> (r: BvhNode)
        requires
            i < self.spec_nodes().len(),
        ensures
            r == self.spec_nodes()[i as int],
    {
        self.nodes[i]
    }

    /// Whether a branch has node `i` as a child.
    pub fn has_parent(&self, i: usize) -> (r: bool)
        requires
            self.wf(),
            i < self.spec_nodes().len(),
        ensures
            r == has_parent(self.spec_nodes(), i as int),
    {
        self.parented[i]
    }

    /// The index of the root: the last node added, if any.
    pub fn root(&self) -> (r: Option<usize>)
        ensures
            r == if self.spec_nodes().len() == 0 {
                None
            } else {
                Some((self.spec_nodes().len() - 1) as usize)
            },
    {
        if self.nodes.len() == 0 {
            None
        } else {
            Some(self.nodes.len() - 1)
        }
    }

    /// Whether the nodes form one tree: every node but the root is the
    /// child of a branch.
    pub fn is_whole(&self) -> (r: bool)
        requires
            self.wf(),
        ensures
            r == is_tree(self.spec_nodes()),
    {
        let n = self.nodes.len();
        if n == 0 {
            return true;
        }
        let mut j: usize = 0;
        while j < n - 1
            invariant
                self.wf(),
                n == self.spec_nodes().len(),
                n > 0,
                j <= n - 1,
                forall|k: int| 0 <= k < j ==> #[trigger] has_parent(self.spec_nodes(), k),
            decreases n - 1 - j,
        {
            if !self.parented[j] {
                assert(!has_parent(self.spec_nodes(), j as int));
                return false;
            }
            j = j + 1;
        }
        true
    }

    /// Add a leaf that holds `item`; gives its index.
    pub fn push_leaf(&mut self, item: usize) -> (r: usize)
        requires
            old(self).wf(),
        ensures
            final(self).wf(),
            r == old(self).spec_nodes().len(),
            final(self).spec_nodes() == old(self).spec_nodes().push(BvhNode::Leaf { item }),
    {
        let ghost old_nodes = self.nodes@;
        let r = self.nodes.len();
        self.nodes.push(BvhNode::Leaf { item });
        self.parented.push(false);
        let ghost nodes = self.nodes@;
        assert forall|j: int| 0 <= j < nodes.len() implies #[trigger] self.parented@[j] == has_parent(nodes, j) by {
            if has_parent(nodes, j) {
                let i = choose|i: int| 0 <= i < nodes.len() && #[trigger] refers(nodes[i], j);
                assert(i < old_nodes.len());
                assert(nodes[i] == old_nodes[i]);
                assert(has_parent(old_nodes, j));
            }
            if j < old_nodes.len() && has_parent(old_nodes, j) {
                let i = choose|i: int| 0 <= i < old_nodes.len() && #[trigger] refers(old_nodes[i], j);
                assert(nodes[i] == old_nodes[i]);
                assert(has_parent(nodes, j));
            }
        }
        assert forall|i1: int, i2: int, j: int|
            0 <= i1 < nodes.len() && 0 <= i2 < nodes.len() && #[trigger] refers(nodes[i1], j) && #[trigger] refers(
                nodes[i2],
                j,
            ) implies i1 == i2 by {
            assert(i1 < old_nodes.len() && i2 < old_nodes.len());
            assert(nodes[i1] == old_nodes[i1] && nodes[i2] == old_nodes[i2]);
        }
        r
    }

    /// Add a branch over the nodes `left` and `right`, which must already be
    /// there, differ, and not be the child of another branch yet; gives its
    /// index.
    pub fn push_branch(&mut self, left: usize, right: usize) -> (r: usize)
        requires
            old(self).wf(),
            left < old(self).spec_nodes().len(),
            right < old(self).spec_nodes().len(),
            left != right,
            !has_parent(old(self).spec_nodes(), left as int),
            !has_parent(old(self).spec_nodes(), right as int),
        ensures
            final(self).wf(),
            r == old(self).spec_nodes().len(),
            final(self).spec_nodes() == old(self).spec_nodes().push(BvhNode::Branch { left, right }),
    {
        let ghost old_nodes = self.nodes@;
        let r = self.nodes.len();
        self.nodes.push(BvhNode::Branch { left, right });
        self.parented.push(false);
        self.parented.set(left, true);
        self.parented.set(right, true);
        let ghost nodes = self.nodes@;
        assert(refers(nodes[r as int], left as int));
        assert(refers(nodes[r as int], right as int));
        assert forall|j: int| 0 <= j < nodes.len() implies #[trigger] self.parented@[j] == has_parent(nodes, j) by {
            if has_parent(nodes, j) {
                let i = choose|i: int| 0 <= i < nodes.len() && #[trigger] refers(nodes[i], j);
                if i < old_nodes.len() {
                    assert(nodes[i] == old_nodes[i]);
                    assert(has_parent(old_nodes, j));
                    assert(j < i);
                } else {
                    assert(j == left || j == right);
                }
            }
            if j < old_nodes.len() && has_parent(old_nodes, j) {
                let i = choose|i: int| 0 <= i < old_nodes.len() && #[trigger] refers(old_nodes[i], j);
                assert(nodes[i] == old_nodes[i]);
                assert(has_parent(nodes, j));
            }
            if j == left || j == right {
                assert(has_parent(nodes, j));
            }
        }
        assert forall|i1: int, i2: int, j: int|
            0 <= i1 < nodes.len() && 0 <= i2 < nodes.len() && #[trigger] refers(nodes[i1], j) && #[trigger] refers(
                nodes[i2],
                j,
            ) implies i1 == i2 by {
            if i1 < old_nodes.len() && i2 < old_nodes.len() {
                assert(nodes[i1] == old_nodes[i1] && nodes[i2] == old_nodes[i2]);
            } else if i1 < old_nodes.len() {
                assert(nodes[i1] == old_nodes[i1]);
                assert(has_parent(old_nodes, j));
            } else if i2 < old_nodes.len() {
                assert(nodes[i2] == old_nodes[i2]);
                assert(has_parent(old_nodes, j));
            }
        }
        assert forall|i: int|
            #![trigger nodes[i]]
            0 <= i < nodes.len() implies (nodes[i] matches BvhNode::Branch { left, right } ==> left < i && right < i) by {
            if i < old_nodes.len() {
                assert(nodes[i] == old_nodes[i]);
            }
        }
        r
    }
}

/// A depth-first walk over a hierarchy: the nodes still to visit, the next
/// one last.
#[derive(Debug, Clone)]
pub struct BvhWalk {
    stack: Vec<usize>,
}

impl BvhWalk {
    /// The nodes still to visit, the next one last.
    pub closed spec fn spec_stack(&self) -> Seq<usize> {
        self.stack@
    }

    /// Every node on the stack is a node of `tree`.
    pub open spec fn fits(&self, tree: &BvhTree) -> bool {
        forall|k: int| 0 <= k < self.spec_stack().len() ==> #[trigger] self.spec_stack()[k] < tree.spec_nodes().len()
    }

    /// A walk that starts at the root of `tree`; with no root it has nothing
    /// to visit. What it gives, whatever the tests answer, is what the whole
    /// query gives.
    pub fn start(tree: &BvhTree) -> (w: Self)
        ensures
            w.fits(tree),
            w.spec_stack() == if tree.spec_nodes().len() == 0 {
                Seq::<usize>::empty()
            } else {
                seq![(tree.spec_nodes().len() - 1) as usize]
            },
            forall|h: Seq<bool>| #[trigger] pending(tree.spec_nodes(), w.spec_stack(), h) == query_result(tree.spec_nodes(), h),
    {
        let mut stack: Vec<usize> = Vec::new();
        if tree.len() > 0 {
            stack.push(tree.len() - 1);
        }
        let w = BvhWalk { stack };
        assert forall|h: Seq<bool>| #[trigger] pending(tree.spec_nodes(), w.spec_stack(), h) == query_result(tree.spec_nodes(), h) by {
            assert(pending(tree.spec_nodes(), Seq::<usize>::empty(), h) == Seq::<usize>::empty());
            if tree.spec_nodes().len() > 0 {
                assert(w.spec_stack().drop_last() =~= Seq::<usize>::empty());
                assert(leaves_under(tree.spec_nodes(), w.spec_stack().last() as int, h) + Seq::<usize>::empty()
                    =~= leaves_under(tree.spec_nodes(), w.spec_stack().last() as int, h));
            }
        }
        w
    }

    /// The node the walk visits next, if any.
    pub fn next_node(&self) -> (r: Option<usize>)
        ensures
            r == if self.spec_stack().len() == 0 {
                None
            } else {
                Some(self.spec_stack().last())
            },
    {
        if self.stack.len() == 0 {
            None
        } else {
            Some(self.stack[self.stack.len() - 1])
        }
    }

    /// Visit the next node, given whether it passes the query's test. A leaf
    /// that passes gives its item; a branch that passes puts its children on
    /// the stack, the left one to be visited first; a node that fails is
    /// dropped with all it holds. The items given so far followed by those
    /// still pending never change.
    pub fn advance(&mut self, tree: &BvhTree, hit: bool) -> (r: Option<usize>)
        requires
            tree.wf(),
            old(self).fits(tree),
            old(self).spec_stack().len() > 0,
        ensures
            final(self).fits(tree),
            ({
                let top = old(self).spec_stack().last();
                let rest = old(self).spec_stack().drop_last();
                match tree.spec_nodes()[top as int] {
                    BvhNode::Leaf { item } => r == (if hit {
                        Some(item)
                    } else {
                        None
                    }) && final(self).spec_stack() == rest,
                    BvhNode::Branch { left, right } => r is None && final(self).spec_stack() == (if hit {
                        rest.push(right).push(left)
                    } else {
                        rest
                    }),
                }
            }),
            forall|h: Seq<bool>|
                h.len() == tree.spec_nodes().len() && h[old(self).spec_stack().last() as int] == hit
                    ==> #[trigger] pending(tree.spec_nodes(), old(self).spec_stack(), h) == given(r) + pending(
                    tree.spec_nodes(),
                    final(self).spec_stack(),
                    h,
                ),
            stack_size(tree.spec_nodes(), final(self).spec_stack()) < stack_size(tree.spec_nodes(), old(self).spec_stack()),
    {
        let ghost nodes = tree.spec_nodes();
        let ghost old_stack = self.stack@;
        let top = self.stack.pop().unwrap();
        let ghost rest = self.stack@;
        assert(rest =~= old_stack.drop_last());
        assert(top == old_stack.last());
        assert(top < nodes.len());
        match tree.node(top) {
            BvhNode::Leaf { item } => {
                assert forall|h: Seq<bool>|
                    h.len() == nodes.len() && h[top as int] == hit implies #[trigger] pending(nodes, old_stack, h)
                    == given(if hit { Some(item) } else { None }) + pending(nodes, rest, h) by {
                    if hit {
                        assert(leaves_under(nodes, top as int, h) =~= seq![item]);
                    } else {
                        assert(leaves_under(nodes, top as int, h) =~= Seq::<usize>::empty());
                    }
                    assert(given(if hit { Some(item) } else { None }) =~= leaves_under(nodes, top as int, h));
                }
                if hit {
                    Some(item)
                } else {
                    None
                }
            },
            BvhNode::Branch { left, right } => {
                assert(left < top && right < top);
                if hit {
                    self.stack.push(right);
                    self.stack.push(left);
                    let ghost mid = rest.push(right);
                    assert(self.stack@ =~= mid.push(left));
                    assert(self.stack@.drop_last() =~= mid);
                    assert(mid.drop_last() =~= rest);
                    assert forall|h: Seq<bool>|
                        h.len() == nodes.len() && h[top as int] == hit implies #[trigger] pending(nodes, old_stack, h)
                        == given(None) + pending(nodes, self.stack@, h) by {
                        assert(pending(nodes, self.stack@, h) == leaves_under(nodes, left as int, h) + pending(nodes, mid, h));
                        assert(pending(nodes, mid, h) == leaves_under(nodes, right as int, h) + pending(nodes, rest, h));
                        assert(given(None) + pending(nodes, self.stack@, h) =~= pending(nodes, self.stack@, h));
                        assert(leaves_under(nodes, top as int, h) =~= leaves_under(nodes, left as int, h)
                            + leaves_under(nodes, right as int, h));
                        assert(pending(nodes, old_stack, h) =~= leaves_under(nodes, left as int, h) + (leaves_under(
                            nodes,
                            right as int,
                            h,
                        ) + pending(nodes, rest, h)));
                    }
                    assert(stack_size(nodes, self.stack@) == subtree_size(nodes, left as int) + stack_size(nodes, mid));
                    assert(stack_size(nodes, mid) == subtree_size(nodes, right as int) + stack_size(nodes, rest));
                } else {
                    assert forall|h: Seq<bool>|
                        h.len() == nodes.len() && h[top as int] == hit implies #[trigger] pending(nodes, old_stack, h)
                        == given(None) + pending(nodes, rest, h) by {
                        assert(leaves_under(nodes, top as int, h) =~= Seq::<usize>::empty());
                        assert(pending(nodes, old_stack, h) =~= pending(nodes, rest, h));
                        assert(given(None) + pending(nodes, rest, h) =~= pending(nodes, rest, h));
                    }
                }
                None
            },
        }
    }
}

/// Run a whole query: `hit` tells, for each node, whether it passes the
/// query's test. Gives the items of the leaves the walk reaches, left to
/// right.
pub fn query(tree: &BvhTree, hit: &Vec<bool>) -> (r: Vec<usize>)
    requires
        tree.wf(),
        hit@.len() == tree.spec_nodes().len(),
    ensures
        r@ == query_result(tree.spec_nodes(), hit@),
{
    let mut walk = BvhWalk::start(tree);
    let mut out: Vec<usize> = Vec::new();
    loop
        invariant
            tree.wf(),
            hit@.len() == tree.spec_nodes().len(),
            walk.fits(tree),
            out@ + pending(tree.spec_nodes(), walk.spec_stack(), hit@) == query_result(tree.spec_nodes(), hit@),
        ensures
            walk.spec_stack().len() == 0,
        decreases stack_size(tree.spec_nodes(), walk.spec_stack()),
    {
        match walk.next_node() {
            None => {
                break;
            },
            Some(n) => {
                let h = hit[n];
                let ghost before = out@;
                let ghost old_stack = walk.spec_stack();
                let r = walk.advance(tree, h);
                assert(pending(tree.spec_nodes(), old_stack, hit@) == given(r) + pending(
                    tree.spec_nodes(),
                    walk.spec_stack(),
                    hit@,
                ));
                if let Some(item) = r {
                    out.push(item);
                    assert(out@ =~= before + given(r));
                } else {
                    assert(out@ =~= before + given(r));
                }
                assert(before + (given(r) + pending(tree.spec_nodes(), walk.spec_stack(), hit@)) =~= out@ + pending(
                    tree.spec_nodes(),
                    walk.spec_stack(),
                    hit@,
                ));
            },
        }
    }
    assert(out@ + Seq::<usize>::empty() =~= out@);
    out
}

} // verus!
