use spatial_search::{
    nearest_neighbor_noddy, BatchQueryRunner, Point, SearchError, SpatialTree,
};

fn pt(x: i32, y: i32) -> Point {
    Point { x, y }
}

// deterministic pseudo-random points, so the fixture needs no extra crates
fn scattered_points(n: usize, seed: u64) -> Vec<Point> {
    let mut state = seed;
    let mut out = Vec::new();
    for _ in 0..n {
        state = state.wrapping_mul(6364136223846793005).wrapping_add(1442695040888963407);
        let x = ((state >> 33) % 2001) as i32 - 1000;
        state = state.wrapping_mul(6364136223846793005).wrapping_add(1442695040888963407);
        let y = ((state >> 33) % 2001) as i32 - 1000;
        out.push(pt(x, y));
    }
    out
}

#[test]
fn batch_output_keeps_input_order() {
    let refs = vec![pt(0, 0), pt(10, 0), pt(0, 10)];
    let queries = vec![pt(1, 1), pt(9, 1), pt(1, 9)];
    let tree = SpatialTree::build(&refs);
    let results = BatchQueryRunner::run_with_tree(&tree, &queries);
    assert_eq!(results.len(), 3);
    assert_eq!(results[0].unwrap().index, 0);
    assert_eq!(results[1].unwrap().index, 1);
    assert_eq!(results[2].unwrap().index, 2);
    for (k, q) in queries.iter().enumerate() {
        assert_eq!(results[k], tree.nearest(q));
    }
}

#[test]
fn brute_force_batch_keeps_input_order() {
    let refs = vec![pt(0, 0), pt(10, 0), pt(0, 10)];
    let queries = vec![pt(1, 9), pt(1, 1), pt(9, 1)];
    let results = BatchQueryRunner::run_brute_force(&refs, &queries);
    assert_eq!(results.len(), 3);
    assert_eq!(results[0].unwrap().index, 2);
    assert_eq!(results[1].unwrap().index, 0);
    assert_eq!(results[2].unwrap().index, 1);
    for (k, q) in queries.iter().enumerate() {
        assert_eq!(results[k], nearest_neighbor_noddy(q, &refs));
    }
}

#[test]
fn parallel_batch_matches_sequential_and_brute_force() {
    let refs = scattered_points(400, 11);
    let queries = scattered_points(250, 77);
    let tree = SpatialTree::build(&refs);
    let parallel = BatchQueryRunner::run_with_tree_parallel(&tree, &queries);
    let sequential = BatchQueryRunner::run_with_tree(&tree, &queries);
    let brute = BatchQueryRunner::run_brute_force(&refs, &queries);
    assert_eq!(parallel.len(), queries.len());
    assert_eq!(parallel, sequential);
    assert_eq!(parallel, brute);
    for r in &parallel {
        let qr = r.unwrap();
        assert!(qr.index < refs.len());
    }
}

#[test]
fn batch_over_empty_reference_set_signals_every_query() {
    let refs: Vec<Point> = Vec::new();
    let queries = vec![pt(1, 1), pt(2, 2)];
    let tree = SpatialTree::build(&refs);
    for r in BatchQueryRunner::run_with_tree(&tree, &queries) {
        assert_eq!(r, Err(SearchError::EmptyReferenceSet));
    }
    for r in BatchQueryRunner::run_with_tree_parallel(&tree, &queries) {
        assert_eq!(r, Err(SearchError::EmptyReferenceSet));
    }
    for r in BatchQueryRunner::run_brute_force(&refs, &queries) {
        assert_eq!(r, Err(SearchError::EmptyReferenceSet));
    }
}
