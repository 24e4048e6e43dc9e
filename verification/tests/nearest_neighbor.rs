use spatial_search::{
    get_distance_squared, nearest_neighbor_noddy, Point, SearchError, SpatialTree,
};

fn pt(x: i32, y: i32) -> Point {
    Point { x, y }
}

#[test]
fn distance_formula_exact() {
    assert_eq!(get_distance_squared(&pt(0, 0), &pt(3, 4)), 25);
    assert_eq!(get_distance_squared(&pt(-3, -4), &pt(0, 0)), 25);
    assert_eq!(get_distance_squared(&pt(2, 7), &pt(2, 7)), 0);
    // widest possible span on both axes still gives an exact u128
    let lo = pt(i32::MIN, i32::MIN);
    let hi = pt(i32::MAX, i32::MAX);
    let d: u128 = 4294967295;
    assert_eq!(get_distance_squared(&lo, &hi), 2 * d * d);
    assert_eq!(get_distance_squared(&hi, &lo), 2 * d * d);
}

#[test]
fn concrete_scenario_nearest_origin() {
    let refs = vec![pt(0, 0), pt(10, 0), pt(0, 10)];
    let noddy = nearest_neighbor_noddy(&pt(1, 1), &refs).unwrap();
    assert_eq!(noddy.index, 0);
    assert_eq!(noddy.squared_distance, 2);
    let tree = SpatialTree::build(&refs);
    let fast = tree.nearest(&pt(1, 1)).unwrap();
    assert_eq!(fast.index, 0);
    assert_eq!(fast.squared_distance, 2);
}

#[test]
fn concrete_scenario_tie_lowest_index_wins() {
    // (10,0) and (0,10) are both at squared distance 82 from (9,9);
    // the lower index, 1, must win under both strategies
    let refs = vec![pt(0, 0), pt(10, 0), pt(0, 10)];
    let noddy = nearest_neighbor_noddy(&pt(9, 9), &refs).unwrap();
    assert_eq!(noddy.index, 1);
    assert_eq!(noddy.squared_distance, 82);
    let tree = SpatialTree::build(&refs);
    let fast = tree.nearest(&pt(9, 9)).unwrap();
    assert_eq!(fast.index, 1);
    assert_eq!(fast.squared_distance, 82);
}

#[test]
fn empty_reference_set_signaled() {
    let refs: Vec<Point> = Vec::new();
    assert_eq!(
        nearest_neighbor_noddy(&pt(1, 2), &refs),
        Err(SearchError::EmptyReferenceSet)
    );
    let tree = SpatialTree::build(&refs);
    assert_eq!(tree.nearest(&pt(1, 2)), Err(SearchError::EmptyReferenceSet));
    assert!(matches!(
        tree.nearest(&pt(0, 0)),
        Err(SearchError::EmptyReferenceSet)
    ));
}

#[test]
fn single_point_set() {
    let refs = vec![pt(7, -3)];
    let tree = SpatialTree::build(&refs);
    for q in [pt(7, -3), pt(0, 0), pt(-100, 100), pt(i32::MAX, i32::MIN)] {
        assert_eq!(tree.nearest(&q).unwrap().index, 0);
        assert_eq!(nearest_neighbor_noddy(&q, &refs).unwrap().index, 0);
    }
}

#[test]
fn equivalence_tree_matches_brute_force_on_grid() {
    let refs = vec![
        pt(0, 0),
        pt(5, 1),
        pt(-3, 4),
        pt(2, -7),
        pt(9, 9),
        pt(-8, -2),
        pt(4, 4),
        pt(1, 1),
        pt(-5, 6),
        pt(7, -6),
        pt(0, 3),
        pt(3, 0),
    ];
    let tree = SpatialTree::build(&refs);
    let mut x = -10;
    while x <= 10 {
        let mut y = -10;
        while y <= 10 {
            let q = pt(x, y);
            let fast = tree.nearest(&q).unwrap();
            let noddy = nearest_neighbor_noddy(&q, &refs).unwrap();
            assert_eq!(fast.index, noddy.index);
            assert_eq!(fast.squared_distance, noddy.squared_distance);
            y += 1;
        }
        x += 1;
    }
}

#[test]
fn construction_idempotent() {
    let refs = vec![pt(3, 3), pt(-1, 8), pt(0, 0), pt(3, 3), pt(12, -4)];
    let first = SpatialTree::build(&refs);
    let second = SpatialTree::build(&refs);
    for q in [pt(0, 0), pt(3, 3), pt(5, 5), pt(-2, 9), pt(100, -100)] {
        assert_eq!(first.nearest(&q), second.nearest(&q));
    }
}

#[test]
fn self_query_returns_zero_distance() {
    let refs = vec![pt(0, 0), pt(10, 0), pt(0, 10), pt(-4, -4), pt(10, 0)];
    let tree = SpatialTree::build(&refs);
    for p in &refs {
        let r = tree.nearest(p).unwrap();
        assert_eq!(r.squared_distance, 0);
        assert_eq!(get_distance_squared(&refs[r.index], p), 0);
    }
}

#[test]
fn duplicates_resolve_to_lowest_index() {
    let refs = vec![pt(5, 5), pt(5, 5), pt(1, 1), pt(5, 5)];
    let tree = SpatialTree::build(&refs);
    assert_eq!(tree.nearest(&pt(5, 5)).unwrap().index, 0);
    assert_eq!(tree.nearest(&pt(4, 5)).unwrap().index, 0);
    assert_eq!(tree.nearest(&pt(1, 1)).unwrap().index, 2);
    assert_eq!(nearest_neighbor_noddy(&pt(5, 5), &refs).unwrap().index, 0);
    assert_eq!(nearest_neighbor_noddy(&pt(1, 1), &refs).unwrap().index, 2);
}

#[test]
fn tie_straddling_the_splitting_line() {
    // the query sits exactly midway, so the far side is at the same
    // perpendicular distance as the running best and must still be visited
    // for the index tie-break
    let refs = vec![pt(2, 0), pt(0, 0)];
    let tree = SpatialTree::build(&refs);
    let r = tree.nearest(&pt(1, 0)).unwrap();
    assert_eq!(r.squared_distance, 1);
    assert_eq!(r.index, 0);
    assert_eq!(nearest_neighbor_noddy(&pt(1, 0), &refs).unwrap().index, 0);
}

#[test]
fn collinear_points_query_off_hull() {
    let refs = vec![pt(0, 0), pt(1, 0), pt(2, 0), pt(3, 0), pt(4, 0)];
    let tree = SpatialTree::build(&refs);
    assert_eq!(tree.nearest(&pt(-50, 7)).unwrap().index, 0);
    assert_eq!(tree.nearest(&pt(50, -7)).unwrap().index, 4);
    let mid = tree.nearest(&pt(2, 30)).unwrap();
    assert_eq!(mid.index, 2);
    assert_eq!(mid.squared_distance, 900);
}
