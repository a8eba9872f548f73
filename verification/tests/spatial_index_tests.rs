use geo::spatial_index::{best_partitioning_axis, partition, partition_size, LEAF_SIZE};
use geo::Axis;

#[test]
fn partition_size_is_the_bigger_side() {
    let sides = vec![(true, false), (true, true), (false, true), (true, false)];
    assert_eq!(partition_size(&sides), 3);
    assert_eq!(partition_size(&vec![]), 0);
    assert_eq!(partition_size(&vec![(false, false), (false, true)]), 1);
    let (l, r) = partition(&sides);
    assert_eq!(l, vec![3, 1, 0]);
    assert_eq!(r, vec![2, 1]);
    assert_eq!(partition_size(&sides), l.len().max(r.len()));
}

#[test]
fn best_axis_is_first_minimum() {
    assert_eq!(best_partitioning_axis(&[5, 3, 3], 10), Some(Axis::Y));
    assert_eq!(best_partitioning_axis(&[3, 3, 3], 10), Some(Axis::X));
    assert_eq!(best_partitioning_axis(&[9, 8, 2], 10), Some(Axis::Z));
    assert_eq!(best_partitioning_axis(&[10, 10, 10], 10), None);
    assert_eq!(LEAF_SIZE, 8);
}

/// The per-axis decisions for three boxes: X at its median 4 splits them
/// 2 / 2, Y at 2 and Z at 5 keep 3 on one side, so X is chosen.
#[test]
fn kdtree_test_best_partitioning() {
    let x = vec![(false, true), (true, true), (true, false)];
    let y = vec![(true, true), (true, true), (true, false)];
    let z = vec![(true, true), (true, true), (true, false)];
    let sizes = [partition_size(&x), partition_size(&y), partition_size(&z)];
    assert_eq!(sizes, [2, 3, 3]);
    assert_eq!(best_partitioning_axis(&sizes, 3), Some(Axis::X));

    // seven points: X at 3 gives 5, Y at 2 gives 4, Z at 2 gives 7
    let x = vec![(true, false), (true, false), (true, true), (true, true), (true, true), (false, true), (false, true)];
    let y = vec![(true, false), (true, false), (true, false), (true, true), (false, true), (false, true), (false, true)];
    let z = vec![(true, false), (true, false), (true, true), (true, true), (true, true), (true, true), (true, true)];
    let sizes = [partition_size(&x), partition_size(&y), partition_size(&z)];
    assert_eq!(sizes, [5, 4, 7]);
    assert_eq!(best_partitioning_axis(&sizes, 7), Some(Axis::Y));
}

/// Nine boxes whose medians all leave every box on one side: no split.
#[test]
fn kdtree_test_best_partitioning_no_better() {
    let t = (true, true);
    let l = (true, false);
    let x = vec![t, t, l, t, t, t, t, t, t];
    let y = vec![t, t, t, t, t, t, l, l, l];
    let z = vec![l, l, l, t, t, t, t, t, l];
    let sizes = [partition_size(&x), partition_size(&y), partition_size(&z)];
    assert_eq!(sizes, [9, 9, 9]);
    assert_eq!(best_partitioning_axis(&sizes, 9), None);
}

/// Three points stay in one leaf; eleven are split on Y at 0, the points on
/// the split going to both sides, each side listed from the last point.
#[test]
fn kdtree_test_new() {
    assert!(3 <= LEAF_SIZE);
    assert!(11 > LEAF_SIZE);
    let x = vec![(true, true), (true, false), (false, true), (true, false), (true, true), (false, true), (true, false), (true, true), (true, false), (true, true), (false, true)];
    let y = vec![(true, true), (false, true), (false, true), (true, false), (true, true), (false, true), (true, false), (true, false), (true, false), (false, true), (true, false)];
    let z = vec![(true, true), (true, true), (true, false), (false, true), (false, true), (true, false), (true, false), (false, true), (false, true), (true, false), (false, true)];
    let sizes = [partition_size(&x), partition_size(&y), partition_size(&z)];
    assert_eq!(sizes, [8, 7, 7]);
    assert_eq!(best_partitioning_axis(&sizes, 11), Some(Axis::Y));
    let (left, right) = partition(&y);
    assert_eq!(left, vec![10, 8, 7, 6, 4, 3, 0]);
    assert_eq!(right, vec![9, 5, 4, 2, 1, 0]);
}
