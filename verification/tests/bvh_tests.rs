use geo::spatial_index::bvh::{query, BvhNode, BvhTree, BvhWalk};

/// The shape the median split gives three points: a leaf, then a branch
/// over two leaves.
fn three_leaves() -> BvhTree {
    let mut t = BvhTree::new();
    let a = t.push_leaf(0);
    let b = t.push_leaf(1);
    let c = t.push_leaf(2);
    let bc = t.push_branch(b, c);
    let root = t.push_branch(a, bc);
    assert_eq!(root, 4);
    t
}

#[test]
fn bvh_tree_records_nodes_in_order() {
    let t = three_leaves();
    assert_eq!(t.len(), 5);
    assert_eq!(t.root(), Some(4));
    assert_eq!(t.node(0), BvhNode::Leaf { item: 0 });
    assert_eq!(t.node(3), BvhNode::Branch { left: 1, right: 2 });
    assert_eq!(t.node(4), BvhNode::Branch { left: 0, right: 3 });
    assert_eq!(BvhTree::new().root(), None);
}

#[test]
fn bvh_full_query_gives_leaves_left_to_right() {
    let t = three_leaves();
    assert_eq!(query(&t, &vec![true; 5]), vec![0, 1, 2]);
}

#[test]
fn bvh_query_prunes_failed_nodes() {
    let t = three_leaves();
    // the inner branch fails: both leaves under it are dropped
    assert_eq!(query(&t, &vec![true, true, true, false, true]), vec![0]);
    // a leaf fails on its own
    assert_eq!(query(&t, &vec![true, false, true, true, true]), vec![0, 2]);
    // the root fails: nothing
    assert_eq!(query(&t, &vec![true, true, true, true, false]), Vec::<usize>::new());
    assert_eq!(query(&BvhTree::new(), &vec![]), Vec::<usize>::new());
}

#[test]
fn bvh_walk_steps_one_node_at_a_time() {
    let t = three_leaves();
    let mut w = BvhWalk::start(&t);
    assert_eq!(w.next_node(), Some(4));
    assert_eq!(w.advance(&t, true), None);
    // the left child comes first
    assert_eq!(w.next_node(), Some(0));
    assert_eq!(w.advance(&t, true), Some(0));
    assert_eq!(w.next_node(), Some(3));
    assert_eq!(w.advance(&t, true), None);
    assert_eq!(w.next_node(), Some(1));
    assert_eq!(w.advance(&t, false), None);
    assert_eq!(w.next_node(), Some(2));
    assert_eq!(w.advance(&t, true), Some(2));
    assert_eq!(w.next_node(), None);
    assert_eq!(BvhWalk::start(&BvhTree::new()).next_node(), None);
}

#[test]
fn bvh_tree_tracks_parents() {
    let mut t = BvhTree::new();
    let a = t.push_leaf(0);
    let b = t.push_leaf(1);
    assert!(!t.has_parent(a));
    assert!(!t.is_whole());
    let ab = t.push_branch(a, b);
    assert!(t.has_parent(a));
    assert!(t.has_parent(b));
    assert!(!t.has_parent(ab));
    assert!(t.is_whole());
    let c = t.push_leaf(2);
    // two roots: a forest, not one tree
    assert!(!t.is_whole());
    t.push_branch(ab, c);
    assert!(t.is_whole());
    assert!(BvhTree::new().is_whole());
    assert!(three_leaves().is_whole());
}

#[test]
fn bvh_query_gives_each_passing_item_once() {
    let t = three_leaves();
    // every ancestor of a passing leaf passes: exactly the passing leaves
    assert_eq!(query(&t, &vec![false, true, false, true, true]), vec![1]);
    assert_eq!(query(&t, &vec![true, true, true, true, true]), vec![0, 1, 2]);
}
