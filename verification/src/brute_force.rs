use vstd::prelude::*;

use crate::point::{dist_sq, get_distance_squared, Point};
use crate::search::{query_result_matches, QueryResult, SearchError};

verus! {

/// Brute-force nearest-neighbor baseline: scans every reference point and
/// keeps the first index seen at the minimum squared distance, so ties
/// resolve to the lowest index.
///
/// Returns `Ok` with that index exactly when `neighbors` is non-empty, and
/// signals the empty reference set otherwise.
pub fn nearest_neighbor_noddy(point: &Point, neighbors: &Vec<Point>) -> (r: Result<
    QueryResult,
    SearchError,
>)
    ensures
        query_result_matches(neighbors@, *point, r),
        r is Ok <==> neighbors@.len() > 0,
{
    if neighbors.len() == 0 {
        return Err(SearchError::EmptyReferenceSet);
    }
    let mut index: usize = 0;
    let mut d_min: u128 = get_distance_squared(&neighbors[0], point);
    let mut i: usize = 1;
    while i < neighbors.len()
        invariant
            0 < i <= neighbors@.len(),
            index < i,
            d_min == dist_sq(neighbors@[index as int], *point),
            forall|j: int| 0 <= j < i ==> dist_sq(#[trigger] neighbors@[j], *point) >= d_min,
            forall|j: int| 0 <= j < index ==> dist_sq(#[trigger] neighbors@[j], *point) > d_min,
        decreases neighbors@.len() - i,
    {
        let d = get_distance_squared(&neighbors[i], point);
        if d < d_min {
            d_min = d;
            index = i;
        }
        i = i + 1;
    }
    Ok(QueryResult { index, squared_distance: d_min })
}

} // verus!
