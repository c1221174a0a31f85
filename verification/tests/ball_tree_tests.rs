use ball_tree::{Ball, BallTree, HasMeasurableDiff, Point, SCALE};

fn point(coords: Vec<i64>) -> Point {
    Point::new(coords)
}

fn next_coord(state: &mut u64) -> i64 {
    *state = state
        .wrapping_mul(6364136223846793005)
        .wrapping_add(1442695040888963407);
    ((*state >> 33) % 32769) as i64 - 16384
}

fn rand_feature(state: &mut u64, dimensions: usize) -> Point {
    let mut coords = Vec::new();
    for _ in 0..dimensions {
        coords.push(next_coord(state));
    }
    Point::new(coords)
}

fn simple_sample_features() -> [Vec<i64>; 7] {
    [
        vec![15, -7],
        vec![-20, -20],
        vec![9, 10],
        vec![6, 6],
        vec![-2, 10],
        vec![18, 5],
        vec![1, 1],
    ]
}

fn simple_sample_tree() -> BallTree<Point, i32> {
    let mut bt = BallTree::new();
    let mut i: i32 = 1;
    for feature in simple_sample_features().into_iter() {
        bt.push(Point::new(feature.clone()), i);
        i += 1;
    }
    bt
}

#[test]
fn ball_tree_midpoint_impl() {
    let test = point(vec![50, 10, 10]).midpoint(&point(vec![-50, 10, 10]), 25 * SCALE, 25 * SCALE);
    assert_eq!(test.coords(), &vec![0, 10, 10]);
}

#[test]
fn ball_tree_nn_search() {
    // searching an empty tree gets an empty vec
    let bt: BallTree<Point, i32> = BallTree::new();
    let search_feature = point(vec![10, 10]);
    assert!(bt.nn_search(&search_feature, 1).is_empty());

    // searching a tree gets the desired results
    let expected: Vec<(Vec<i64>, i32)> = vec![
        (vec![9, 10], 3),
        (vec![6, 6], 4),
        (vec![18, 5], 6),
        (vec![-2, 10], 5),
        (vec![1, 1], 7),
    ];
    let bt = simple_sample_tree();
    let res = bt.nn_search(&search_feature, 5);
    assert_eq!(res.len(), expected.len());
    for (got, want) in res.iter().zip(expected.iter()) {
        assert_eq!(got.0.coords(), &want.0);
        assert_eq!(*got.1, want.1);
    }
}

#[test]
fn ball_tree_push() {
    let mut bt = BallTree::new();
    assert_eq!(bt.size(), 0);

    let mut state: u64 = 7;

    let feature = rand_feature(&mut state, 512);
    let node: Ball<Point, i32> = Ball::new(point(feature.coords().clone()), 1);
    assert_eq!(node.key().coords(), feature.coords());
    bt.push(feature, 1);
    assert_eq!(bt.size(), 1);

    bt.push(rand_feature(&mut state, 512), 2);
    assert_eq!(bt.size(), 2);

    bt.push(rand_feature(&mut state, 512), 3);
    assert_eq!(bt.size(), 3);

    bt.push(rand_feature(&mut state, 512), 4);
    assert_eq!(bt.size(), 4);

    bt.push(rand_feature(&mut state, 512), 5);
    assert_eq!(bt.size(), 5);

    bt.push(rand_feature(&mut state, 512), 6);
    assert_eq!(bt.size(), 6);

    bt.push(rand_feature(&mut state, 512), 7);
    assert_eq!(bt.size(), 7);

    bt.push(rand_feature(&mut state, 512), 8);
    assert_eq!(bt.size(), 8);

    bt.push(rand_feature(&mut state, 512), 9);
    assert_eq!(bt.size(), 9);
}
