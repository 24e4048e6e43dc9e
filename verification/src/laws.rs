use vstd::prelude::*;

use crate::point::{dist_sq, lemma_dist_sq_nonneg, Point};
use crate::search::{is_nearest, query_result_matches, QueryResult, SearchError};

verus! {

/// Law of equivalence and of construction idempotence: at most one index
/// satisfies `is_nearest` for a given reference sequence and query. Both
/// `SpatialTree::nearest` and `nearest_neighbor_noddy` ensure `is_nearest`
/// of the index they return, so the two strategies always agree on the same
/// reference set and query — and any two trees built from the same reference
/// set answer every query identically.
pub proof fn lemma_nearest_unique(s: Seq<Point>, q: Point, i: int, j: int)
    requires
        is_nearest(s, q, i),
        is_nearest(s, q, j),
    ensures
        i == j,
{
    if i < j {
        assert(dist_sq(s[i], q) > dist_sq(s[j], q));
        assert(dist_sq(s[i], q) >= dist_sq(s[j], q));
        assert(dist_sq(s[j], q) >= dist_sq(s[i], q));
    }
    if j < i {
        assert(dist_sq(s[j], q) > dist_sq(s[i], q));
        assert(dist_sq(s[j], q) >= dist_sq(s[i], q));
        assert(dist_sq(s[i], q) >= dist_sq(s[j], q));
    }
}

/// The `Result` form of the same two laws: any two results that match the
/// same reference sequence and query are equal outright — index, squared
/// distance, and error case alike. Every search in this crate ensures
/// `query_result_matches` of what it returns, so the tree and the
/// brute-force scan, or two independently built trees, can never disagree.
pub proof fn lemma_query_result_determined(
    s: Seq<Point>,
    q: Point,
    r1: Result<QueryResult, SearchError>,
    r2: Result<QueryResult, SearchError>,
)
    requires
        query_result_matches(s, q, r1),
        query_result_matches(s, q, r2),
    ensures
        r1 == r2,
{
    match (r1, r2) {
        (Result::Ok(a), Result::Ok(b)) => {
            lemma_nearest_unique(s, q, a.index as int, b.index as int);
        },
        _ => {},
    }
}

/// Law of self-query: when the query point itself occurs in the reference
/// sequence, the nearest index lies at squared distance zero from the query
/// (an exact duplicate with a lower index may be the winner, but only at
/// distance zero).
pub proof fn lemma_self_query(s: Seq<Point>, q: Point, k: int, i: int)
    requires
        0 <= k < s.len(),
        s[k] == q,
        is_nearest(s, q, i),
    ensures
        dist_sq(s[i], q) == 0,
{
    assert(dist_sq(s[k], q) == 0);
    assert(dist_sq(s[k], q) >= dist_sq(s[i], q));
    lemma_dist_sq_nonneg(s[i], q);
}

/// Law of tie-break determinism: when two reference points lie at the same,
/// minimal squared distance from the query, the nearest index is never the
/// higher of the two — it is at most the lower one, so between the two the
/// lower index always wins, under either search strategy.
pub proof fn lemma_tie_break(s: Seq<Point>, q: Point, j: int, k: int, i: int)
    requires
        0 <= j < k < s.len(),
        dist_sq(s[j], q) == dist_sq(s[k], q),
        forall|m: int| 0 <= m < s.len() ==> dist_sq(#[trigger] s[m], q) >= dist_sq(s[j], q),
        is_nearest(s, q, i),
    ensures
        i <= j,
        i != k,
{
    assert(dist_sq(s[i], q) >= dist_sq(s[j], q));
    assert(dist_sq(s[j], q) >= dist_sq(s[i], q));
    if i > j {
        assert(dist_sq(s[j], q) > dist_sq(s[i], q));
    }
}

} // verus!
