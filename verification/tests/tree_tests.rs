use kdtree::{distance_to_space, ErrorKind, KdTree, DEFAULT_CAPACITY};

fn random_point() -> (Vec<i64>, i32) {
    let (coords, data) = rand::random::<([i32; 2], i32)>();
    (vec![coords[0] as i64, coords[1] as i64], data)
}

fn squared_euclidean(a: &[i64], b: &[i64]) -> u64 {
    a.iter().zip(b.iter()).map(|(x, y)| ((x - y) * (x - y)) as u64).sum()
}

fn saturating_manhattan(a: &[i64], b: &[i64]) -> u64 {
    a.iter()
        .zip(b.iter())
        .map(|(x, y)| (*x as i128 - *y as i128).unsigned_abs())
        .fold(0u64, |acc, d| acc.saturating_add(u64::try_from(d).unwrap_or(u64::MAX)))
}

#[test]
fn it_has_default_capacity() {
    let tree: KdTree<i32> = KdTree::new(2);
    assert_eq!(tree.capacity(), 2_usize.pow(4));
}

#[test]
fn it_can_be_cloned() {
    let mut tree: KdTree<i32> = KdTree::new(2);
    let (pos, data) = random_point();
    tree.add(pos.clone(), data).unwrap();
    let mut cloned_tree = tree.clone();
    cloned_tree.add(pos, data).unwrap();
    assert_eq!(tree.size(), 1);
    assert_eq!(cloned_tree.size(), 2);
}

#[test]
fn it_holds_on_to_its_capacity_before_splitting() {
    let mut tree: KdTree<i32> = KdTree::new(2);
    let capacity = 2_usize.pow(4);
    for _ in 0..capacity {
        let (pos, data) = random_point();
        tree.add(pos, data).unwrap();
    }
    assert_eq!(tree.size(), capacity);
    assert_eq!(tree.size(), capacity);
    assert!(tree.is_leaf());
    {
        let (pos, data) = random_point();
        tree.add(pos, data).unwrap();
    }
    assert_eq!(tree.size(), capacity + 1);
    assert_eq!(tree.size(), capacity + 1);
    assert!(!tree.is_leaf());
}

#[test]
fn no_items_can_be_added_to_a_zero_capacity_kdtree() {
    let mut tree: KdTree<i32> = KdTree::with_capacity(2, 0);
    let (pos, data) = random_point();
    let res = tree.add(pos, data);
    assert!(res.is_err());
}

#[test]
fn default_capacity_is_sixteen() {
    assert_eq!(DEFAULT_CAPACITY, 16);
    let tree: KdTree<u8> = KdTree::with_capacity(3, 5);
    assert_eq!(tree.capacity(), 5);
    assert_eq!(tree.size(), 0);
    assert!(tree.is_leaf());
}

#[test]
fn add_refuses_bad_points() {
    let mut tree: KdTree<i32> = KdTree::with_capacity(2, 0);
    assert_eq!(tree.add(vec![1, 2], 0), Err(ErrorKind::ZeroCapacity));
    let mut tree: KdTree<i32> = KdTree::new(2);
    assert_eq!(tree.add(vec![1], 0), Err(ErrorKind::WrongDimension));
    assert_eq!(tree.size(), 0);
    // Every integer coordinate is finite, the extreme ones too.
    assert_eq!(tree.add(vec![1, i64::MAX], 0), Ok(()));
    assert_eq!(tree.add(vec![i64::MIN, 1], 0), Ok(()));
    assert_eq!(tree.size(), 2);
    // A longer point is accepted: only the first coordinates count.
    assert_eq!(tree.add(vec![1, 2, 3], 7), Ok(()));
    assert_eq!(tree.size(), 3);
}

#[test]
fn a_box_without_extent_is_not_split() {
    let mut tree: KdTree<i32> = KdTree::with_capacity(2, 2);
    for i in 0..5 {
        tree.add(vec![3, 3], i).unwrap();
    }
    assert_eq!(tree.size(), 5);
    assert!(tree.is_leaf());
    tree.add(vec![4, 3], 9).unwrap();
    assert!(!tree.is_leaf());
    assert_eq!(tree.size(), 6);
}

fn grid_tree() -> KdTree<i32> {
    let mut tree: KdTree<i32> = KdTree::with_capacity(2, 2);
    let mut n = 0;
    for x in 0..5 {
        for y in 0..5 {
            tree.add(vec![x, y], n).unwrap();
            n += 1;
        }
    }
    tree
}

#[test]
fn nearest_finds_the_closest_entries_in_order() {
    let tree = grid_tree();
    assert_eq!(tree.size(), 25);
    let res = tree.nearest(&[2, 2], 1, &squared_euclidean).unwrap();
    assert_eq!(res, vec![(0, &12)]);
    let res = tree.nearest(&[0, 0], 3, &squared_euclidean).unwrap();
    assert_eq!(res.len(), 3);
    assert_eq!(res[0], (0, &0));
    assert_eq!(res[1].0, 1);
    assert_eq!(res[2].0, 1);
    let mut data: Vec<i32> = vec![*res[1].1, *res[2].1];
    data.sort();
    assert_eq!(data, vec![1, 5]);
    let res = tree.nearest(&[10, 10], 100, &squared_euclidean).unwrap();
    assert_eq!(res.len(), 25);
    assert_eq!(res[0], (72, &24));
    for w in res.windows(2) {
        assert!(w[0].0 <= w[1].0);
    }
    assert_eq!(tree.nearest(&[1, 1], 0, &squared_euclidean).unwrap().len(), 0);
}

#[test]
fn nearest_refuses_bad_points() {
    let tree = grid_tree();
    assert_eq!(tree.nearest(&[1], 1, &squared_euclidean), Err(ErrorKind::WrongDimension));
    let mut wide: KdTree<i32> = KdTree::with_capacity(2, 1);
    wide.add(vec![i64::MIN, 0], 1).unwrap();
    wide.add(vec![i64::MAX, 0], 2).unwrap();
    wide.add(vec![0, i64::MAX], 3).unwrap();
    assert_eq!(wide.nearest(&[i64::MAX, 0], 1, &saturating_manhattan), Ok(vec![(0, &2)]));
    assert_eq!(wide.nearest(&[i64::MIN, 1], 1, &saturating_manhattan), Ok(vec![(1, &1)]));
    assert_eq!(wide.nearest(&[5, i64::MAX], 1, &saturating_manhattan), Ok(vec![(5, &3)]));
    let empty: KdTree<i32> = KdTree::new(2);
    assert_eq!(empty.nearest(&[0, 0], 4, &squared_euclidean).unwrap().len(), 0);
}

#[test]
fn within_returns_every_entry_in_the_radius() {
    let tree = grid_tree();
    let res = tree.within(&[2, 2], 1, &squared_euclidean).unwrap();
    assert_eq!(res.len(), 5);
    assert_eq!(res[0], (0, &12));
    let mut data: Vec<i32> = res.iter().map(|(_, d)| **d).collect();
    data.sort();
    assert_eq!(data, vec![7, 11, 12, 13, 17]);
    assert!(res.iter().all(|(d, _)| *d <= 1));
    let res = tree.within(&[100, 100], 5, &squared_euclidean).unwrap();
    assert!(res.is_empty());
    assert_eq!(tree.within(&[0], 5, &squared_euclidean), Err(ErrorKind::WrongDimension));
}

#[test]
fn best_n_within_keeps_the_least_data() {
    let tree = grid_tree();
    let mut res = tree.best_n_within(&[2, 2], 2, 3, &squared_euclidean).unwrap();
    res.sort();
    // within squared distance 2 of (2, 2): data 6, 7, 8, 11, 12, 13, 16, 17, 18
    assert_eq!(res, vec![6, 7, 8]);
    let mut res = tree.best_n_within(&[2, 2], 1, 10, &squared_euclidean).unwrap();
    res.sort();
    assert_eq!(res, vec![7, 11, 12, 13, 17]);
    let mut res = tree.best_n_within_into_iter(&[2, 2], 2, 3, &squared_euclidean);
    res.sort();
    assert_eq!(res, vec![6, 7, 8]);
    assert_eq!(tree.best_n_within(&[2, i64::MIN], 2, 3, &saturating_manhattan), Ok(vec![]));
    assert_eq!(tree.best_n_within(&[2], 2, 3, &squared_euclidean), Err(ErrorKind::WrongDimension));
}

#[test]
fn remove_takes_out_every_entry_at_the_point() {
    let mut tree: KdTree<i32> = KdTree::with_capacity(2, 1);
    tree.add(vec![1, 1], 5).unwrap();
    tree.add(vec![2, 2], 6).unwrap();
    tree.add(vec![1, 1], 5).unwrap();
    tree.add(vec![3, 0], 7).unwrap();
    assert_eq!(tree.size(), 4);
    assert_eq!(tree.remove(&vec![1, 1], &5), Ok(2));
    assert_eq!(tree.size(), 2);
    assert_eq!(tree.remove(&vec![1, 1], &5), Ok(0));
    assert_eq!(tree.remove(&vec![9, 9], &5), Ok(0));
    assert_eq!(tree.remove(&vec![9], &5), Err(ErrorKind::WrongDimension));
    assert_eq!(tree.size(), 2);
    let res = tree.nearest(&[1, 1], 5, &squared_euclidean).unwrap();
    assert_eq!(res, vec![(2, &6), (5, &7)]);
}

#[test]
fn distance_to_space_measures_to_the_closest_point_of_the_box() {
    let d = distance_to_space(&[5, -3, 1], &[0, 0, 0], &[2, 2, 2], &squared_euclidean, 3);
    // closest point (2, 0, 1)
    assert_eq!(d, 9 + 9);
    let d = distance_to_space(&[1, 1], &[0, 0], &[2, 2], &squared_euclidean, 2);
    assert_eq!(d, 0);
}

#[test]
fn errors_describe_themselves() {
    assert_eq!(ErrorKind::WrongDimension.description(), "wrong dimension");
    assert_eq!(ErrorKind::NonFiniteCoordinate.description(), "non-finite coordinate");
    assert_eq!(ErrorKind::ZeroCapacity.description(), "zero capacity");
}

#[test]
fn iter_nearest_yields_every_entry_nearest_first() {
    let tree = grid_tree();
    let mut it = tree.iter_nearest(&[2, 2], &squared_euclidean).unwrap();
    let mut seen: Vec<(u64, i32)> = Vec::new();
    while let Some((d, t)) = it.next() {
        seen.push((d, *t));
    }
    assert_eq!(seen.len(), 25);
    assert_eq!(seen[0], (0, 12));
    for w in seen.windows(2) {
        assert!(w[0].0 <= w[1].0);
    }
    let mut data: Vec<i32> = seen.iter().map(|(_, t)| *t).collect();
    data.sort();
    assert_eq!(data, (0..25).collect::<Vec<i32>>());
    assert!(it.next().is_none());
    assert!(tree.iter_nearest(&[2], &squared_euclidean).is_err());
}

#[test]
fn clones_have_the_same_entries() {
    let tree = grid_tree();
    let copy = tree.clone();
    assert_eq!(copy.size(), 25);
    assert_eq!(copy.capacity(), 2);
    assert_eq!(copy.nearest(&[3, 1], 1, &squared_euclidean).unwrap(), vec![(0, &16)]);
}

#[test]
fn allocating_the_scratch_buffer_changes_no_result() {
    let mut tree = grid_tree();
    let before = tree.best_n_within(&[1, 1], 4, 2, &squared_euclidean).unwrap();
    tree.allocate_dist_scratch();
    let after = tree.best_n_within(&[1, 1], 4, 2, &squared_euclidean).unwrap();
    let mut b = before.clone();
    let mut a = after.clone();
    b.sort();
    a.sort();
    assert_eq!(a, b);
    assert_eq!(a, vec![0, 1]);
}

#[test]
fn removing_what_was_added_restores_the_tree() {
    let mut tree: KdTree<i32> = KdTree::with_capacity(2, 2);
    tree.add(vec![0, 0], 1).unwrap();
    tree.add(vec![5, 5], 2).unwrap();
    tree.add(vec![9, 1], 4).unwrap();
    assert_eq!(tree.remove(&vec![3, 3], &8), Ok(0));
    tree.add(vec![3, 3], 8).unwrap();
    assert_eq!(tree.size(), 4);
    assert_eq!(tree.remove(&vec![3, 3], &8), Ok(1));
    assert_eq!(tree.size(), 3);
    assert_eq!(tree.remove(&vec![3, 3], &8), Ok(0));
    let all = tree.nearest(&[0, 0], 10, &squared_euclidean).unwrap();
    assert_eq!(all, vec![(0, &1), (50, &2), (82, &4)]);
}

#[test]
fn fewer_nearest_results_are_a_prefix_by_distance() {
    let tree = grid_tree();
    let point = [3, 1];
    let all = tree.nearest(&point, 25, &squared_euclidean).unwrap();
    for n in 0..=25 {
        let some = tree.nearest(&point, n, &squared_euclidean).unwrap();
        assert_eq!(some.len(), n);
        for i in 0..n {
            assert_eq!(some[i].0, all[i].0);
        }
    }
}

#[test]
fn a_wider_radius_keeps_every_result() {
    let tree = grid_tree();
    let point = [1, 3];
    let mut last: Vec<u64> = Vec::new();
    for r in 0..40 {
        let res: Vec<u64> = tree
            .within(&point, r, &squared_euclidean)
            .unwrap()
            .iter()
            .map(|p| p.0)
            .collect();
        assert!(res.len() >= last.len());
        assert_eq!(&res[..last.len()], &last[..]);
        last = res;
    }
    assert_eq!(last.len(), 25);
}

#[test]
fn within_is_nearest_cut_at_the_radius() {
    let tree = grid_tree();
    let point = [4, 0];
    let all = tree.nearest(&point, 25, &squared_euclidean).unwrap();
    for r in [0u64, 1, 2, 4, 5, 9, 13, 31] {
        let res = tree.within(&point, r, &squared_euclidean).unwrap();
        let n = res.len();
        for i in 0..n {
            assert_eq!(res[i].0, all[i].0);
        }
        if n < all.len() {
            assert!(all[n].0 > r);
        }
    }
    let res = tree.within(&point, 1, &squared_euclidean).unwrap();
    assert_eq!(res.len(), 3);
}

#[test]
fn iterator_steps_match_nearest() {
    let tree = grid_tree();
    let point = [2, 4];
    for k in 0..=25 {
        let mut it = tree.iter_nearest(&point, &squared_euclidean).unwrap();
        let mut steps: Vec<u64> = Vec::new();
        for _ in 0..k {
            steps.push(it.next().unwrap().0);
        }
        let near: Vec<u64> = tree
            .nearest(&point, k, &squared_euclidean)
            .unwrap()
            .iter()
            .map(|p| p.0)
            .collect();
        assert_eq!(steps, near);
    }
}

#[test]
fn iter_nearest_mut_hands_out_each_entry_once() {
    let mut tree = grid_tree();
    let mut seen: Vec<(u64, i32)> = Vec::new();
    {
        let mut it = tree.iter_nearest_mut(&[1, 1], &squared_euclidean).unwrap();
        while let Some((d, t)) = it.next() {
            seen.push((d, *t));
            *t += 100;
        }
        assert!(it.next().is_none());
    }
    assert_eq!(seen.len(), 25);
    assert_eq!(seen[0], (0, 6));
    for w in seen.windows(2) {
        assert!(w[0].0 <= w[1].0);
    }
    let mut data: Vec<i32> = seen.iter().map(|(_, t)| *t).collect();
    data.sort();
    assert_eq!(data, (0..25).collect::<Vec<i32>>());
    let all = tree.nearest(&[1, 1], 25, &squared_euclidean).unwrap();
    let mut after: Vec<i32> = all.iter().map(|(_, t)| **t).collect();
    after.sort();
    assert_eq!(after, (100..125).collect::<Vec<i32>>());
    assert!(tree.iter_nearest_mut(&[1], &squared_euclidean).is_err());
}

#[test]
fn smaller_radius_entries_are_among_larger_ones() {
    let tree = grid_tree();
    let point = [3, 2];
    let big = tree.within(&point, 5, &squared_euclidean).unwrap();
    for r in 0..=5u64 {
        let mut small: Vec<i32> = tree
            .within(&point, r, &squared_euclidean)
            .unwrap()
            .iter()
            .map(|p| *p.1)
            .collect();
        let mut cut: Vec<i32> = big.iter().filter(|p| p.0 <= r).map(|p| *p.1).collect();
        small.sort();
        cut.sort();
        assert_eq!(small, cut);
    }
}

#[test]
fn within_reports_the_nearest_entries_in_the_radius() {
    let tree = grid_tree();
    let point = [0, 4];
    let all = tree.nearest(&point, 25, &squared_euclidean).unwrap();
    let mut inside: Vec<i32> = tree
        .within(&point, 4, &squared_euclidean)
        .unwrap()
        .iter()
        .map(|p| *p.1)
        .collect();
    let mut cut: Vec<i32> = all.iter().filter(|p| p.0 <= 4).map(|p| *p.1).collect();
    inside.sort();
    cut.sort();
    assert_eq!(inside, cut);
    assert_eq!(inside, vec![2, 3, 4, 8, 9, 14]);
}

#[test]
fn mutable_iterator_steps_come_in_order_once_each() {
    let mut tree = grid_tree();
    let mut dists: Vec<u64> = Vec::new();
    let mut data: Vec<i32> = Vec::new();
    {
        let mut it = tree.iter_nearest_mut(&[4, 4], &squared_euclidean).unwrap();
        for _ in 0..25 {
            let (d, t) = it.next().unwrap();
            dists.push(d);
            data.push(*t);
        }
        assert!(it.next().is_none());
    }
    for w in dists.windows(2) {
        assert!(w[0] <= w[1]);
    }
    data.sort();
    assert_eq!(data, (0..25).collect::<Vec<i32>>());
    assert_eq!(tree.size(), 25);
    assert_eq!(tree.iter_nearest_mut(&[4], &squared_euclidean).err(), Some(ErrorKind::WrongDimension));
    assert_eq!(tree.size(), 25);
}

#[test]
fn a_write_through_the_mutable_iterator_changes_that_entry_only() {
    let mut t: KdTree<i32> = KdTree::with_capacity(1, 1);
    assert_eq!(t.add(vec![0], 10), Ok(()));
    assert_eq!(t.add(vec![8], 20), Ok(()));
    assert_eq!(t.add(vec![12], 30), Ok(()));
    let sq = |a: &[i64], b: &[i64]| ((a[0] - b[0]) * (a[0] - b[0])) as u64;
    {
        let mut it = t.iter_nearest_mut(&[7], &sq).unwrap();
        let (dd, r) = it.next().unwrap();
        assert_eq!(dd, 1);
        *r = 99;
    }
    assert_eq!(t.size(), 3);
    assert_eq!(t.within(&[8], 0, &sq), Ok(vec![(0, &99)]));
    assert_eq!(t.within(&[0], 0, &sq), Ok(vec![(0, &10)]));
    assert_eq!(t.within(&[12], 0, &sq), Ok(vec![(0, &30)]));
}

#[test]
fn best_n_within_and_its_iterator_form_agree() {
    let tree = grid_tree();
    let point = [1, 3];
    for r in 0..10u64 {
        for q in 1..8usize {
            let mut a = tree.best_n_within(&point, r, q, &squared_euclidean).unwrap();
            let mut b = tree.best_n_within_into_iter(&point, r, q, &squared_euclidean);
            a.sort();
            b.sort();
            assert_eq!(a, b);
        }
    }
}

#[test]
fn size_counts_adds_less_removals() {
    let mut tree: KdTree<i32> = KdTree::with_capacity(2, 2);
    let mut expected: usize = 0;
    for i in 0..20i64 {
        if tree.add(vec![i % 4, i % 3], i as i32).is_ok() {
            expected += 1;
        }
    }
    assert_eq!(tree.add(vec![1], 0), Err(ErrorKind::WrongDimension));
    assert_eq!(tree.size(), expected);
    // (0, 2) is added once, by i = 8.
    let n = tree.remove(&vec![0, 2], &8).unwrap();
    expected -= n;
    assert_eq!(n, 1);
    assert_eq!(tree.size(), expected);
    assert_eq!(tree.remove(&vec![0, 2], &8), Ok(0));
    assert_eq!(tree.size(), expected);
}
