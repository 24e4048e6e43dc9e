use vstd::prelude::*;

use crate::brute_force::nearest_neighbor_noddy;
use crate::point::Point;
use crate::search::{query_result_matches, QueryResult, SearchError};
use crate::spatial_tree::SpatialTree;

use rayon::iter::IntoParallelRefIterator;
use rayon::iter::ParallelIterator;

verus! {

/// Applies a nearest-neighbor search to an ordered sequence of query points,
/// each query independently, and collects the answers in input order. The
/// queries share the immutable tree or reference set and nothing else, so
/// they may also be fanned out across workers without changing the output.
pub struct BatchQueryRunner;

/// Relies on rayon's `par_iter().map(..).collect()`: collecting an indexed
/// parallel map over a vector into a `Vec` applies the closure to every
/// element and writes each result at its input position, so the output keeps
/// the input order. The closure only calls the verified
/// `SpatialTree::nearest`, whose contract gives each element's value.
#[verifier::external_body]
fn map_nearest_parallel(tree: &SpatialTree, queries: &Vec<Point>) -> (results: Vec<
    Result<QueryResult, SearchError>,
>)
    requires
        tree.wf(),
    ensures
        results@.len() == queries@.len(),
        forall|k: int|
            0 <= k < queries@.len() ==> query_result_matches(
                tree.ref_set(),
                queries@[k],
                #[trigger] results@[k],
            ),
{
    queries.par_iter().map(|q| tree.nearest(q)).collect()
}

impl BatchQueryRunner {
    /// Runs the tree-backed search on every query, sequentially, returning
    /// one result per query in input order.
    pub fn run_with_tree(tree: &SpatialTree, queries: &Vec<Point>) -> (results: Vec<
        Result<QueryResult, SearchError>,
    >)
        requires
            tree.wf(),
        ensures
            results@.len() == queries@.len(),
            forall|k: int|
                0 <= k < queries@.len() ==> query_result_matches(
                    tree.ref_set(),
                    queries@[k],
                    #[trigger] results@[k],
                ),
    {
        let mut results: Vec<Result<QueryResult, SearchError>> = Vec::new();
        let mut k: usize = 0;
        while k < queries.len()
            invariant
                tree.wf(),
                k <= queries@.len(),
                results@.len() == k,
                forall|j: int|
                    0 <= j < k ==> query_result_matches(
                        tree.ref_set(),
                        queries@[j],
                        #[trigger] results@[j],
                    ),
            decreases queries@.len() - k,
        {
            let r = tree.nearest(&queries[k]);
            results.push(r);
            k = k + 1;
        }
        results
    }

    /// Runs the tree-backed search on every query, fanned out across rayon
    /// workers; the collected output still matches the input order, result
    /// by result, exactly as in the sequential run.
    pub fn run_with_tree_parallel(tree: &SpatialTree, queries: &Vec<Point>) -> (results: Vec<
        Result<QueryResult, SearchError>,
    >)
        requires
            tree.wf(),
        ensures
            results@.len() == queries@.len(),
            forall|k: int|
                0 <= k < queries@.len() ==> query_result_matches(
                    tree.ref_set(),
                    queries@[k],
                    #[trigger] results@[k],
                ),
    {
        map_nearest_parallel(tree, queries)
    }

    /// Runs the brute-force scan on every query, sequentially, returning one
    /// result per query in input order.
    pub fn run_brute_force(reference_set: &Vec<Point>, queries: &Vec<Point>) -> (results: Vec<
        Result<QueryResult, SearchError>,
    >)
        ensures
            results@.len() == queries@.len(),
            forall|k: int|
                0 <= k < queries@.len() ==> query_result_matches(
                    reference_set@,
                    queries@[k],
                    #[trigger] results@[k],
                ),
    {
        let mut results: Vec<Result<QueryResult, SearchError>> = Vec::new();
        let mut k: usize = 0;
        while k < queries.len()
            invariant
                k <= queries@.len(),
                results@.len() == k,
                forall|j: int|
                    0 <= j < k ==> query_result_matches(
                        reference_set@,
                        queries@[j],
                        #[trigger] results@[j],
                    ),
            decreases queries@.len() - k,
        {
            let r = nearest_neighbor_noddy(&queries[k], reference_set);
            results.push(r);
            k = k + 1;
        }
        results
    }
}

} // verus!
