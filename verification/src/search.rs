use vstd::prelude::*;

use crate::point::{dist_sq, Point};

verus! {

/// The one failure a search can signal: it was asked to pick the nearest of
/// zero reference points. Returning an arbitrary index instead would silently
/// corrupt downstream results, so both search strategies surface this at once.
#[derive(Clone, Copy, PartialEq, Eq, Structural, Debug)]
pub enum SearchError {
    EmptyReferenceSet,
}

/// A winning reference-set index together with its exact squared distance to
/// the query point.
#[derive(Clone, Copy, PartialEq, Eq, Structural, Debug)]
pub struct QueryResult {
    pub index: usize,
    pub squared_distance: u128,
}

/// `i` is the index every search strategy must return for query `q` over the
/// reference sequence `s`: a valid index whose point minimizes the squared
/// distance to `q`, and the lowest such index (ties resolve to the first
/// point encountered at the minimum, scanning from index 0).
///
/// At most one index satisfies this for given `s` and `q`; see
/// `lemma_nearest_unique`.
pub open spec fn is_nearest(s: Seq<Point>, q: Point, i: int) -> bool {
    &&& 0 <= i < s.len()
    &&& forall|j: int| 0 <= j < s.len() ==> dist_sq(#[trigger] s[j], q) >= dist_sq(s[i], q)
    &&& forall|j: int| 0 <= j < i ==> dist_sq(#[trigger] s[j], q) > dist_sq(s[i], q)
}

/// What a single query against reference sequence `s` must produce: the
/// unique nearest index with its exact squared distance when `s` has any
/// points, and the empty-set error if and only if `s` has none.
pub open spec fn query_result_matches(
    s: Seq<Point>,
    q: Point,
    r: Result<QueryResult, SearchError>,
) -> bool {
    match r {
        Result::Ok(qr) => is_nearest(s, q, qr.index as int) && qr.squared_distance == dist_sq(
            s[qr.index as int],
            q,
        ),
        Result::Err(e) => s.len() == 0 && e == SearchError::EmptyReferenceSet,
    }
}

} // verus!
