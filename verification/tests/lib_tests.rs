use ball_tree::{BallTree, HasMeasurableDiff, Point, SCALE};

fn point(coords: Vec<i64>) -> Point {
    Point::new(coords)
}

fn next_coord(state: &mut u64) -> i64 {
    *state = state
        .wrapping_mul(6364136223846793005)
        .wrapping_add(1442695040888963407);
    ((*state >> 33) % 32769) as i64 - 16384
}

// a pseudo-random point with 2^dimensions coordinates
fn rand_feature(state: &mut u64, dimensions: u32) -> Point {
    let mut coords = Vec::new();
    for _ in 0..(2u32.pow(dimensions)) {
        coords.push(next_coord(state));
    }
    Point::new(coords)
}

fn simple_sample_features() -> [Vec<i64>; 7] {
    [
        vec![15, -7],
        vec![-20, -20],
        vec![9, 10],
        vec![6, 6],
        vec![-2, 10],
        vec![18, 5],
        vec![1, 1],
    ]
}

fn simple_sample_tree() -> BallTree<Point, i32> {
    let mut bt = BallTree::new();
    let mut i: i32 = 1;
    for feature in simple_sample_features().into_iter() {
        bt.push(Point::new(feature.clone()), i);
        i += 1;
    }
    bt
}

#[test]
fn tests_midpoint_impl() {
    let test = point(vec![50, 10, 10]).midpoint(&point(vec![-50, 10, 10]), 25 * SCALE, 25 * SCALE);
    assert_eq!(test.coords(), &vec![0, 10, 10]);
}

#[test]
fn tests_nn_search() {
    // searching an empty tree gets an empty vec
    let bt: BallTree<Point, i32> = BallTree::new();
    let search_feature = point(vec![10, 10]);
    assert!(bt.nn_search(&search_feature, 1).is_empty());

    // searching a tree gets the desired results
    let expected: Vec<(Vec<i64>, i32)> = vec![
        (vec![9, 10], 3),
        (vec![6, 6], 4),
        (vec![18, 5], 6),
        (vec![-2, 10], 5),
        (vec![1, 1], 7),
    ];
    let bt = simple_sample_tree();
    let res = bt.nn_search(&search_feature, 5);
    assert_eq!(res.len(), expected.len());
    for (got, want) in res.iter().zip(expected.iter()) {
        assert_eq!(got.0.coords(), &want.0);
        assert_eq!(*got.1, want.1);
    }
}

#[test]
fn tests_push() {
    let mut bt = BallTree::new();
    assert_eq!(bt.size(), 0);

    let mut state: u64 = 11;
    for i in 0..20 {
        bt.push(rand_feature(&mut state, 9), i);
        assert_eq!(bt.size(), i as u32 + 1);
    }
}
