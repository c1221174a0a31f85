use ball_tree::{calc_total_nodes, BallTree, HasMeasurableDiff, Point, MAX_DIFF, SCALE};

fn point(coords: Vec<i64>) -> Point {
    Point::new(coords)
}

fn sample_pairs() -> Vec<(Vec<i64>, i32)> {
    vec![
        (vec![15, -7], 1),
        (vec![-20, -20], 2),
        (vec![9, 10], 3),
        (vec![6, 6], 4),
        (vec![-2, 10], 5),
        (vec![18, 5], 6),
        (vec![1, 1], 7),
    ]
}

fn sample_tree() -> BallTree<Point, i32> {
    let mut bt = BallTree::new();
    for (coords, payload) in sample_pairs() {
        bt.push(point(coords), payload);
    }
    bt
}

#[test]
fn size_counts_every_push() {
    let mut bt = BallTree::new();
    assert_eq!(bt.size(), 0);
    for (n, (coords, payload)) in sample_pairs().into_iter().enumerate() {
        bt.push(point(coords), payload);
        assert_eq!(bt.size(), n as u32 + 1);
    }
}

#[test]
fn containment_holds_after_construction() {
    // keys whose weighted midpoints land exactly on integer coordinates:
    // every merge balances both sides without rounding
    let mut bt = BallTree::new();
    bt.push(point(vec![0]), 1);
    bt.push(point(vec![8]), 2);
    bt.push(point(vec![2]), 3);
    bt.push(point(vec![6]), 4);
    assert!(bt.check_containment());

    let empty: BallTree<Point, i32> = BallTree::new();
    assert!(empty.check_containment());
}

#[test]
fn containment_is_best_effort_under_rounding() {
    // the exact midpoint balances both sides of a merge to the unit, so
    // rounding its coordinates can leave a key just outside an inner ball;
    // the checker reports it rather than letting search assume it
    assert!(!sample_tree().check_containment());
}

#[test]
fn search_result_length_is_min_of_limit_and_size() {
    let bt = sample_tree();
    let q = point(vec![0, 0]);
    assert_eq!(bt.nn_search(&q, 0).len(), 0);
    assert_eq!(bt.nn_search(&q, 1).len(), 1);
    assert_eq!(bt.nn_search(&q, 3).len(), 3);
    assert_eq!(bt.nn_search(&q, 7).len(), 7);
    assert_eq!(bt.nn_search(&q, 100).len(), 7);
}

#[test]
fn search_results_sorted_by_true_distance() {
    let bt = sample_tree();
    let q = point(vec![10, 10]);
    let res = bt.nn_search(&q, 7);
    for pair in res.windows(2) {
        assert!(pair[0].0.difference(&q) <= pair[1].0.difference(&q));
    }
}

#[test]
fn empty_tree_search_returns_nothing() {
    let bt: BallTree<Point, i32> = BallTree::new();
    assert!(bt.nn_search(&point(vec![3, 4, 5]), 1).is_empty());
}

#[test]
fn full_search_reaches_every_stored_pair() {
    // forces the concurrent fan-out: no subtree alone can fill the quota
    let bt = sample_tree();
    let res = bt.nn_search(&point(vec![10, 10]), 7);
    let mut payloads: Vec<i32> = res.iter().map(|p| *p.1).collect();
    payloads.sort();
    assert_eq!(payloads, vec![1, 2, 3, 4, 5, 6, 7]);
}

#[test]
fn flatten_keeps_every_pushed_pair() {
    let bt = sample_tree();
    let all = bt.flatten();
    assert_eq!(all.len(), 7);
    let mut got: Vec<(Vec<i64>, i32)> = all
        .iter()
        .map(|p| (p.0.coords().clone(), *p.1))
        .collect();
    got.sort_by_key(|p| p.1);
    assert_eq!(got, sample_pairs());

    // a different insertion order stores the same set
    let mut bt2 = BallTree::new();
    for (coords, payload) in sample_pairs().into_iter().rev() {
        bt2.push(point(coords), payload);
    }
    let mut got2: Vec<(Vec<i64>, i32)> = bt2
        .flatten()
        .iter()
        .map(|p| (p.0.coords().clone(), *p.1))
        .collect();
    got2.sort_by_key(|p| p.1);
    assert_eq!(got2, sample_pairs());
}

#[test]
fn load_pushes_every_pair() {
    let items: Vec<(Point, i32)> = sample_pairs()
        .into_iter()
        .map(|(coords, payload)| (point(coords), payload))
        .collect();
    let bt = BallTree::load(items);
    assert_eq!(bt.size(), 7);
    let mut payloads: Vec<i32> = bt.flatten().iter().map(|p| *p.1).collect();
    payloads.sort();
    assert_eq!(payloads, vec![1, 2, 3, 4, 5, 6, 7]);
}

#[test]
fn coincident_keys_are_both_kept() {
    let mut bt = BallTree::new();
    bt.push(point(vec![1, 1]), 1);
    bt.push(point(vec![1, 1]), 2);
    bt.push(point(vec![1, 1]), 3);
    assert_eq!(bt.size(), 3);
    let mut payloads: Vec<i32> = bt.flatten().iter().map(|p| *p.1).collect();
    payloads.sort();
    assert_eq!(payloads, vec![1, 2, 3]);
    let res = bt.nn_search(&point(vec![1, 1]), 2);
    assert_eq!(res.len(), 2);
    assert_eq!(res[0].0.coords(), &vec![1, 1]);
}

#[test]
fn difference_matches_euclidean_distance() {
    // a 3-4-5 triangle, in thousandths of a coordinate unit
    let d = point(vec![3, 0]).difference(&point(vec![0, 4]));
    assert_eq!(d, 5 * SCALE);
    assert_eq!(point(vec![7, 7]).difference(&point(vec![7, 7])), 0);
    // shorter points count missing coordinates as zero
    assert_eq!(point(vec![3]).difference(&point(vec![3, 4])), 4 * SCALE);
}

#[test]
fn difference_is_symmetric_and_zero_on_self() {
    let keys: Vec<Point> = sample_pairs()
        .into_iter()
        .map(|(coords, _)| point(coords))
        .collect();
    for a in &keys {
        assert_eq!(a.difference(a), 0);
        for b in &keys {
            assert_eq!(a.difference(b), b.difference(a));
        }
    }
}

#[test]
fn difference_stays_under_its_bound() {
    let hi = point(vec![16384; 512]);
    let lo = point(vec![-16384; 512]);
    let d = hi.difference(&lo);
    assert!(d > 0);
    assert!(d <= MAX_DIFF);
}

#[test]
fn midpoint_of_coincident_keys_is_the_shared_key() {
    let a = point(vec![4, -3, 2]);
    let b = point(vec![4, -3, 2]);
    let mid = a.midpoint(&b, 10 * SCALE, 99 * SCALE);
    assert_eq!(mid.coords(), &vec![4, -3, 2]);
}

#[test]
fn total_nodes_of_halving_tree() {
    assert_eq!(calc_total_nodes(2, 0, 0), 0);
    assert_eq!(calc_total_nodes(2, 0, 5), 5);
    assert_eq!(calc_total_nodes(2, 8, 0), 15);
    assert_eq!(calc_total_nodes(3, 7, 0), 11);
}
