//! The counting decisions of the k-d tree: how well a split value divides a
//! set of boxes, which axis splits them best, and which boxes go to each
//! side. Where a box lies with respect to a split is given as a pair of
//! flags: whether it reaches the left side and whether it reaches the right.
use vstd::prelude::*;
use crate::primitive::Axis;

pub mod bvh;

verus! {

/// Maximum number of elements each leaf can contain.
pub const LEAF_SIZE: usize = 8;

/// How many of the boxes reach the left side (`left`) or the right side.
pub open spec fn count_sides(sides: Seq<(bool, bool)>, left: bool) -> nat
    decreases sides.len(),
{
    if sides.len() == 0 {
        0
    } else {
        count_sides(sides.drop_last(), left) + if (if left {
            sides.last().0
        } else {
            sides.last().1
        }) {
            1nat
        } else {
            0nat
        }
    }
}

/// The size of the bigger of the two sides a split makes: the higher it is,
/// the more unbalanced the split.
pub open spec fn spec_partition_size(sides: Seq<(bool, bool)>) -> nat {
    let l = count_sides(sides, true);
    let r = count_sides(sides, false);
    if l >= r {
        l
    } else {
        r
    }
}

/// The number of boxes on the bigger side of a split.
pub fn partition_size(sides: &Vec<(bool, bool)>) -> (r: usize)
    ensures
        r == spec_partition_size(sides@),
        r <= sides@.len(),
{
    let mut lefties: usize = 0;
    let mut rightists: usize = 0;
    let mut i: usize = 0;
    while i < sides.len()
        invariant
            i <= sides@.len(),
            lefties == count_sides(sides@.take(i as int), true),
            rightists == count_sides(sides@.take(i as int), false),
            lefties <= i,
            rightists <= i,
        decreases sides@.len() - i,
    {
        assert(sides@.take(i + 1).drop_last() =~= sides@.take(i as int));
        let (l, r) = sides[i];
        if l {
            lefties = lefties + 1;
        }
        if r {
            rightists = rightists + 1;
        }
        i = i + 1;
    }
    assert(sides@.take(i as int) =~= sides@);
    if lefties >= rightists {
        lefties
    } else {
        rightists
    }
}

/// The axes in the order the k-d tree tries them.
pub open spec fn axis_at(k: int) -> Axis {
    if k == 0 {
        Axis::X
    } else if k == 1 {
        Axis::Y
    } else {
        Axis::Z
    }
}

/// The first of the three axes whose split leaves the smallest bigger side,
/// unless even that side holds all `n` boxes, in which case no split helps.
pub open spec fn spec_split_axis(sizes: Seq<usize>, n: nat) -> Option<Axis> {
    let k = if sizes[0] <= sizes[1] && sizes[0] <= sizes[2] {
        0int
    } else if sizes[1] <= sizes[2] {
        1int
    } else {
        2int
    };
    if sizes[k] == n {
        None
    } else {
        Some(axis_at(k))
    }
}

/// Choose the axis to split along, given for each of X, Y and Z the size of
/// the bigger side its median split makes, and the number of boxes.
pub fn best_partitioning_axis(sizes: &[usize; 3], n: usize) -> (r: Option<Axis>)
    ensures
        r == spec_split_axis(sizes@, n as nat),
{
    let k: usize = if sizes[0] <= sizes[1] && sizes[0] <= sizes[2] {
        0
    } else if sizes[1] <= sizes[2] {
        1
    } else {
        2
    };
    if sizes[k] == n {
        None
    } else if k == 0 {
        Some(Axis::X)
    } else if k == 1 {
        Some(Axis::Y)
    } else {
        Some(Axis::Z)
    }
}

/// The indices, from the last to the first, of the boxes whose flag (the
/// left one when `left`) is set.
pub open spec fn side_indices(sides: Seq<(bool, bool)>, left: bool) -> Seq<int>
    decreases sides.len(),
{
    if sides.len() == 0 {
        Seq::empty()
    } else {
        let flag = if left {
            sides.last().0
        } else {
            sides.last().1
        };
        (if flag {
            seq![sides.len() - 1]
        } else {
            Seq::empty()
        }) + side_indices(sides.drop_last(), left)
    }
}

/// The flag of a box for one side: whether it reaches the left side (when
/// `left`) or the right side.
pub open spec fn side_flag(side: (bool, bool), left: bool) -> bool {
    if left {
        side.0
    } else {
        side.1
    }
}

/// A side lists exactly the boxes whose flag for it is set, each once, from
/// the last box to the first: every listed index is a box, the indices
/// strictly decrease, and a box is listed exactly when its flag is set.
pub proof fn lemma_side_indices_exact(sides: Seq<(bool, bool)>, left: bool)
    ensures
        forall|k: int|
            0 <= k < side_indices(sides, left).len() ==> 0 <= #[trigger] side_indices(sides, left)[k] < sides.len(),
        forall|a: int, b: int|
            0 <= a < b < side_indices(sides, left).len() ==> #[trigger] side_indices(sides, left)[a]
                > #[trigger] side_indices(sides, left)[b],
        forall|i: int| 0 <= i < sides.len() ==> (side_indices(sides, left).contains(i) <==> side_flag(#[trigger] sides[i], left)),
    decreases sides.len(),
{
    if sides.len() > 0 {
        let front = sides.drop_last();
        lemma_side_indices_exact(front, left);
        let rest = side_indices(front, left);
        let s = side_indices(sides, left);
        let n = sides.len() - 1;
        let head: Seq<int> = if side_flag(sides.last(), left) {
            seq![n]
        } else {
            Seq::empty()
        };
        assert(s == head + rest);
        assert forall|i: int| 0 <= i < sides.len() implies (s.contains(i) <==> side_flag(#[trigger] sides[i], left)) by {
            if i < n {
                assert(front[i] == sides[i]);
                if s.contains(i) {
                    let k = choose|k: int| 0 <= k < s.len() && s[k] == i;
                    assert(k >= head.len());
                    assert(rest[k - head.len()] == i);
                }
                if rest.contains(i) {
                    let k = choose|k: int| 0 <= k < rest.len() && rest[k] == i;
                    assert(s[k + head.len()] == i);
                }
            } else {
                if side_flag(sides[i], left) {
                    assert(s[0] == i);
                }
                if s.contains(i) {
                    let k = choose|k: int| 0 <= k < s.len() && s[k] == i;
                    if k >= head.len() {
                        assert(rest[k - head.len()] < n);
                    }
                }
            }
        }
        assert forall|a: int, b: int| 0 <= a < b < s.len() implies #[trigger] s[a] > #[trigger] s[b] by {
            if a >= head.len() {
                assert(s[a] == rest[a - head.len()] && s[b] == rest[b - head.len()]);
            } else {
                assert(s[b] == rest[b - head.len()]);
            }
        }
    }
}

/// Split boxes into the two sides of a split: the indices of the boxes that
/// reach the left side and of those that reach the right side, each taken
/// from the last box to the first. A box that reaches both goes to both.
pub fn partition(sides: &Vec<(bool, bool)>) -> (r: (Vec<usize>, Vec<usize>))
    ensures
        r.0@.map_values(|i: usize| i as int) == side_indices(sides@, true),
        r.1@.map_values(|i: usize| i as int) == side_indices(sides@, false),
        forall|i: usize| i < sides@.len() ==> (r.0@.contains(i) <==> sides@[i as int].0),
        forall|i: usize| i < sides@.len() ==> (r.1@.contains(i) <==> sides@[i as int].1),
        forall|k: int| 0 <= k < r.0@.len() ==> #[trigger] r.0@[k] < sides@.len(),
        forall|k: int| 0 <= k < r.1@.len() ==> #[trigger] r.1@[k] < sides@.len(),
        r.0@.no_duplicates(),
        r.1@.no_duplicates(),
{
    let mut left: Vec<usize> = Vec::new();
    let mut right: Vec<usize> = Vec::new();
    let mut k: usize = sides.len();
    assert(sides@.take(k as int) =~= sides@);
    while k > 0
        invariant
            k <= sides@.len(),
            side_indices(sides@, true) == left@.map_values(|i: usize| i as int) + side_indices(sides@.take(k as int), true),
            side_indices(sides@, false) == right@.map_values(|i: usize| i as int) + side_indices(sides@.take(k as int), false),
        decreases k,
    {
        k = k - 1;
        let (l, r) = sides[k];
        let ghost lv = left@.map_values(|i: usize| i as int);
        let ghost rv = right@.map_values(|i: usize| i as int);
        let ghost pre = sides@.take(k + 1);
        assert(pre.drop_last() =~= sides@.take(k as int));
        assert(pre.last() == (l, r));
        if l {
            left.push(k);
        }
        if r {
            right.push(k);
        }
        proof {
            if l {
                assert(left@.map_values(|i: usize| i as int) =~= lv.push(k as int));
                assert(lv + side_indices(pre, true) =~= lv.push(k as int) + side_indices(sides@.take(k as int), true));
            } else {
                assert(left@.map_values(|i: usize| i as int) =~= lv);
                assert(side_indices(pre, true) =~= side_indices(sides@.take(k as int), true));
            }
            if r {
                assert(right@.map_values(|i: usize| i as int) =~= rv.push(k as int));
                assert(rv + side_indices(pre, false) =~= rv.push(k as int) + side_indices(sides@.take(k as int), false));
            } else {
                assert(right@.map_values(|i: usize| i as int) =~= rv);
                assert(side_indices(pre, false) =~= side_indices(sides@.take(k as int), false));
            }
        }
    }
    assert(side_indices(sides@.take(0), true) =~= Seq::<int>::empty());
    assert(side_indices(sides@.take(0), false) =~= Seq::<int>::empty());
    assert(left@.map_values(|i: usize| i as int) + Seq::<int>::empty() =~= left@.map_values(|i: usize| i as int));
    assert(right@.map_values(|i: usize| i as int) + Seq::<int>::empty() =~= right@.map_values(|i: usize| i as int));
    proof {
        lemma_partition_lists(sides@, left@, true);
        lemma_partition_lists(sides@, right@, false);
    }
    (left, right)
}

/// What `lemma_side_indices_exact` says of `side_indices`, said of a list
/// of `usize` whose values are those indices.
proof fn lemma_partition_lists(sides: Seq<(bool, bool)>, list: Seq<usize>, left: bool)
    requires
        list.map_values(|i: usize| i as int) == side_indices(sides, left),
    ensures
        forall|i: usize| i < sides.len() ==> (list.contains(i) <==> side_flag(sides[i as int], left)),
        forall|k: int| 0 <= k < list.len() ==> #[trigger] list[k] < sides.len(),
        list.no_duplicates(),
{
    lemma_side_indices_exact(sides, left);
    let s = side_indices(sides, left);
    assert forall|k: int| 0 <= k < list.len() implies #[trigger] list[k] < sides.len() by {
        assert(s[k] == list[k] as int);
    }
    assert forall|i: usize| i < sides.len() implies (list.contains(i) <==> side_flag(sides[i as int], left)) by {
        if list.contains(i) {
            let k = choose|k: int| 0 <= k < list.len() && list[k] == i;
            assert(s[k] == i as int);
        }
        if s.contains(i as int) {
            let k = choose|k: int| 0 <= k < s.len() && s[k] == i as int;
            assert(list[k] == i);
        }
    }
    assert forall|a: int, b: int| 0 <= a < list.len() && 0 <= b < list.len() && a != b implies list[a] != list[b] by {
        assert(s[a] == list[a] as int && s[b] == list[b] as int);
        if a < b {
            assert(s[a] > s[b]);
        } else {
            assert(s[b] > s[a]);
        }
    }
}

/// The size that `partition_size` reports is the length of the longer of
/// the two index lists that `partition` makes from the same flags: the
/// score measures exactly the bigger side of the split.
pub proof fn lemma_partition_size_is_bigger_side(sides: Seq<(bool, bool)>)
    ensures
        spec_partition_size(sides) == if side_indices(sides, true).len() >= side_indices(sides, false).len() {
            side_indices(sides, true).len()
        } else {
            side_indices(sides, false).len()
        },
{
    lemma_side_indices_len(sides, true);
    lemma_side_indices_len(sides, false);
}

proof fn lemma_side_indices_len(sides: Seq<(bool, bool)>, left: bool)
    ensures
        side_indices(sides, left).len() == count_sides(sides, left),
    decreases sides.len(),
{
    if sides.len() > 0 {
        lemma_side_indices_len(sides.drop_last(), left);
    }
}

/// The axis chosen for a split leaves a bigger side no larger than any other
/// axis would, is the first axis to do so, and leaves fewer than all the
/// boxes on that side; no axis is chosen only when every split keeps all
/// the boxes on one side.
pub proof fn lemma_split_axis_is_best(sizes: Seq<usize>, n: nat)
    requires
        sizes.len() == 3,
        forall|j: int| 0 <= j < 3 ==> sizes[j] <= n,
    ensures
        spec_split_axis(sizes, n) matches Some(a) ==> exists|k: int|
            0 <= k < 3 && axis_at(k) == a && sizes[k] < n && (forall|j: int| 0 <= j < 3 ==> sizes[k] <= #[trigger] sizes[j])
                && (forall|j: int| 0 <= j < k ==> sizes[k] < #[trigger] sizes[j]),
        spec_split_axis(sizes, n) is None <==> (forall|j: int| 0 <= j < 3 ==> #[trigger] sizes[j] == n),
{
    let k = if sizes[0] <= sizes[1] && sizes[0] <= sizes[2] {
        0int
    } else if sizes[1] <= sizes[2] {
        1int
    } else {
        2int
    };
    if let Some(a) = spec_split_axis(sizes, n) {
        assert(axis_at(k) == a);
    }
}

} // verus!
