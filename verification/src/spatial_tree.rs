use vstd::prelude::*;

use crate::point::{
    coord, coord_of, dist_sq, get_distance_squared, lemma_axis_dist_bound, lemma_sq_diff_swap,
    lemma_sq_mono, other_axis, sq, Axis, Point,
};
use crate::search::{query_result_matches, QueryResult, SearchError};

verus! {

/// One node of the k-d tree. It owns a reference-set index together with the
/// indexed point, the axis it splits on, and the two subtrees that partition
/// the remaining points around its coordinate on that axis.
struct Node {
    idx: usize,
    pt: Point,
    axis: Axis,
    left: Option<Box<Node>>,
    right: Option<Box<Node>>,
}

/// A k-d tree over a fixed reference set of points, answering exact
/// nearest-neighbor queries by branch-and-bound search. Immutable once built.
pub struct SpatialTree {
    points: Vec<Point>,
    root: Option<Box<Node>>,
}

/// Does the (index, point) pair occur somewhere in the subtree?
spec fn in_subtree(node: Option<Box<Node>>, i: int, p: Point) -> bool
    decreases node,
{
    match node {
        Option::None => false,
        Option::Some(n) => n.contains_pair(i, p),
    }
}

/// Is the whole subtree well-formed (see `Node::well_formed`)?
spec fn subtree_well_formed(node: Option<Box<Node>>) -> bool
    decreases node,
{
    match node {
        Option::None => true,
        Option::Some(n) => n.well_formed(),
    }
}

impl Node {
    spec fn contains_pair(self, i: int, p: Point) -> bool
        decreases self,
    {
        ||| (i == self.idx && p == self.pt)
        ||| in_subtree(self.left, i, p)
        ||| in_subtree(self.right, i, p)
    }

    /// The partitioning invariant: every point in the left subtree lies
    /// strictly below this node's coordinate on its splitting axis, every
    /// point in the right subtree lies on or above it (ties go right), and
    /// the subtrees are themselves well-formed.
    spec fn well_formed(self) -> bool
        decreases self,
    {
        &&& (forall|i: int, p: Point|
            #[trigger] in_subtree(self.left, i, p) ==> coord(p, self.axis) < coord(
                self.pt,
                self.axis,
            ))
        &&& (forall|i: int, p: Point|
            #[trigger] in_subtree(self.right, i, p) ==> coord(p, self.axis) >= coord(
                self.pt,
                self.axis,
            ))
        &&& (match self.left {
            Option::Some(n) => n.well_formed(),
            Option::None => true,
        })
        &&& (match self.right {
            Option::Some(n) => n.well_formed(),
            Option::None => true,
        })
    }
}

/// Position `k` of the working sequence holds exactly the pair (`i`, `p`).
spec fn pair_at(s: Seq<(usize, Point)>, k: int, i: int, p: Point) -> bool {
    s[k].0 == i && s[k].1 == p
}

/// The pair (`i`, `p`) occurs somewhere in the working sequence.
spec fn pair_in(s: Seq<(usize, Point)>, i: int, p: Point) -> bool {
    exists|k: int| 0 <= k < s.len() && #[trigger] pair_at(s, k, i, p)
}

/// The pair (`i`, `p`) occurs before position `hi`, not counting position `m`.
spec fn pair_in_prefix_except(s: Seq<(usize, Point)>, hi: int, m: int, i: int, p: Point) -> bool {
    exists|k: int| 0 <= k < hi && k != m && #[trigger] pair_at(s, k, i, p)
}

/// Appending one pair extends the occurrence predicate by exactly that pair.
proof fn lemma_pair_in_push(s: Seq<(usize, Point)>, it: (usize, Point))
    ensures
        forall|i: int, p: Point|
            #[trigger] pair_in(s.push(it), i, p) <==> (pair_in(s, i, p) || (i == it.0 && p
                == it.1)),
{
    assert forall|i: int, p: Point|
        #[trigger] pair_in(s.push(it), i, p) implies (pair_in(s, i, p) || (i == it.0 && p
        == it.1)) by {
        let k = choose|k: int| 0 <= k < s.push(it).len() && #[trigger] pair_at(s.push(it), k, i, p);
        if k < s.len() {
            assert(s.push(it)[k] == s[k]);
            assert(pair_at(s, k, i, p));
        } else {
            assert(s.push(it)[k] == it);
        }
    };
    assert forall|i: int, p: Point|
        (pair_in(s, i, p) || (i == it.0 && p == it.1)) implies #[trigger] pair_in(
        s.push(it),
        i,
        p,
    ) by {
        if pair_in(s, i, p) {
            let k = choose|k: int| 0 <= k < s.len() && #[trigger] pair_at(s, k, i, p);
            assert(s.push(it)[k] == s[k]);
            assert(pair_at(s.push(it), k, i, p));
        } else {
            assert(s.push(it)[s.len() as int] == it);
            assert(pair_at(s.push(it), s.len() as int, i, p));
        }
    };
}

/// Inserting one pair anywhere extends the occurrence predicate by exactly
/// that pair.
proof fn lemma_pair_in_insert(s: Seq<(usize, Point)>, pos: int, it: (usize, Point))
    requires
        0 <= pos <= s.len(),
    ensures
        forall|i: int, p: Point|
            #[trigger] pair_in(s.insert(pos, it), i, p) <==> (pair_in(s, i, p) || (i == it.0 && p
                == it.1)),
{
    s.insert_ensures(pos, it);
    let s2 = s.insert(pos, it);
    assert forall|i: int, p: Point|
        #[trigger] pair_in(s2, i, p) implies (pair_in(s, i, p) || (i == it.0 && p == it.1)) by {
        let k = choose|k: int| 0 <= k < s2.len() && #[trigger] pair_at(s2, k, i, p);
        if k < pos {
            assert(s2[k] == s[k]);
            assert(pair_at(s, k, i, p));
        } else if k == pos {
            assert(s2[k] == it);
        } else {
            assert(s2[(k - 1) + 1] == s[k - 1]);
            assert(pair_at(s, k - 1, i, p));
        }
    };
    assert forall|i: int, p: Point|
        (pair_in(s, i, p) || (i == it.0 && p == it.1)) implies #[trigger] pair_in(s2, i, p) by {
        if pair_in(s, i, p) {
            let k = choose|k: int| 0 <= k < s.len() && #[trigger] pair_at(s, k, i, p);
            if k < pos {
                assert(s2[k] == s[k]);
                assert(pair_at(s2, k, i, p));
            } else {
                assert(s2[k + 1] == s[k]);
                assert(pair_at(s2, k + 1, i, p));
            }
        } else {
            assert(s2[pos] == it);
            assert(pair_at(s2, pos, i, p));
        }
    };
}

/// Occurrence anywhere splits into occurrence away from position `m` and the
/// pair at position `m` itself.
proof fn lemma_pair_in_split(s: Seq<(usize, Point)>, m: int)
    requires
        0 <= m < s.len(),
    ensures
        forall|i: int, p: Point|
            #[trigger] pair_in(s, i, p) <==> (pair_in_prefix_except(s, s.len() as int, m, i, p) || (
            i == s[m].0 && p == s[m].1)),
{
    assert forall|i: int, p: Point|
        #[trigger] pair_in(s, i, p) implies (pair_in_prefix_except(s, s.len() as int, m, i, p) || (i
        == s[m].0 && p == s[m].1)) by {
        let k = choose|k: int| 0 <= k < s.len() && #[trigger] pair_at(s, k, i, p);
        if k != m {
            assert(pair_in_prefix_except(s, s.len() as int, m, i, p));
        }
    };
    assert forall|i: int, p: Point|
        (pair_in_prefix_except(s, s.len() as int, m, i, p) || (i == s[m].0 && p
        == s[m].1)) implies #[trigger] pair_in(s, i, p) by {
        if pair_in_prefix_except(s, s.len() as int, m, i, p) {
            let k = choose|k: int|
                0 <= k < s.len() && k != m && #[trigger] pair_at(s, k, i, p);
            assert(pair_at(s, k, i, p));
        } else {
            assert(pair_at(s, m, i, p));
        }
    };
}

/// Growing the scanned prefix by one position adds that position's pair,
/// unless it is the excluded position.
proof fn lemma_pair_in_prefix_except_step(s: Seq<(usize, Point)>, k: int, m: int)
    requires
        0 <= k < s.len(),
    ensures
        k != m ==> forall|i: int, p: Point|
            #[trigger] pair_in_prefix_except(s, k + 1, m, i, p) <==> (pair_in_prefix_except(
                s,
                k,
                m,
                i,
                p,
            ) || (i == s[k].0 && p == s[k].1)),
        k == m ==> forall|i: int, p: Point|
            #[trigger] pair_in_prefix_except(s, k + 1, m, i, p) <==> pair_in_prefix_except(
                s,
                k,
                m,
                i,
                p,
            ),
{
    assert forall|i: int, p: Point|
        #[trigger] pair_in_prefix_except(s, k + 1, m, i, p) implies (pair_in_prefix_except(
        s,
        k,
        m,
        i,
        p,
    ) || (k != m && i == s[k].0 && p == s[k].1)) by {
        let k2 = choose|k2: int| 0 <= k2 < k + 1 && k2 != m && #[trigger] pair_at(s, k2, i, p);
        if k2 < k {
            assert(pair_in_prefix_except(s, k, m, i, p));
        }
    };
    assert forall|i: int, p: Point|
        pair_in_prefix_except(s, k, m, i, p) implies #[trigger] pair_in_prefix_except(
        s,
        k + 1,
        m,
        i,
        p,
    ) by {
        let k2 = choose|k2: int| 0 <= k2 < k && k2 != m && #[trigger] pair_at(s, k2, i, p);
        assert(0 <= k2 < k + 1 && k2 != m && pair_at(s, k2, i, p));
    };
    if k != m {
        assert forall|i: int, p: Point|
            (i == s[k].0 && p == s[k].1) implies #[trigger] pair_in_prefix_except(
            s,
            k + 1,
            m,
            i,
            p,
        ) by {
            assert(pair_at(s, k, i, p));
        };
    }
}

/// Sorted in weakly increasing order of the coordinate on the given axis.
spec fn sorted_on(s: Seq<(usize, Point)>, axis: Axis) -> bool {
    forall|a: int, b: int|
        0 <= a < b < s.len() ==> coord(#[trigger] s[a].1, axis) <= coord(#[trigger] s[b].1, axis)
}

/// The first position of `out` whose coordinate on `axis` exceeds `c`, or the
/// length of `out` if there is none. Everything before it is at most `c`.
fn insert_position(out: &Vec<(usize, Point)>, c: i32, axis: Axis) -> (j: usize)
    ensures
        j <= out@.len(),
        forall|a: int| 0 <= a < j ==> coord(#[trigger] out@[a].1, axis) <= c as int,
        j < out@.len() ==> coord(out@[j as int].1, axis) > c as int,
{
    let mut j: usize = 0;
    while j < out.len()
        invariant
            j <= out@.len(),
            forall|a: int| 0 <= a < j ==> coord(#[trigger] out@[a].1, axis) <= c as int,
        decreases out@.len() - j,
    {
        let cur: (usize, Point) = out[j];
        if coord_of(&cur.1, axis) > c {
            return j;
        }
        j = j + 1;
    }
    j
}

/// Insertion sort of the working pairs by coordinate on `axis`. Keeps exactly
/// the same pairs; the order only steers the balance of the tree built from
/// the result, so the pivot taken from the middle is a median by coordinate.
fn sort_pairs_by_coord(items: Vec<(usize, Point)>, axis: Axis) -> (out: Vec<(usize, Point)>)
    ensures
        out@.len() == items@.len(),
        sorted_on(out@, axis),
        forall|i: int, p: Point| #[trigger] pair_in(out@, i, p) <==> pair_in(items@, i, p),
{
    let n = items.len();
    let mut out: Vec<(usize, Point)> = Vec::new();
    let mut k: usize = 0;
    while k < n
        invariant
            n == items@.len(),
            k <= n,
            out@.len() == k,
            sorted_on(out@, axis),
            forall|i: int, p: Point|
                #[trigger] pair_in(out@, i, p) <==> pair_in(items@.take(k as int), i, p),
        decreases n - k,
    {
        let it: (usize, Point) = items[k];
        let c: i32 = coord_of(&it.1, axis);
        let j = insert_position(&out, c, axis);
        let ghost out0 = out@;
        out.insert(j, it);
        proof {
            out0.insert_ensures(j as int, it);
            lemma_pair_in_insert(out0, j as int, it);
            assert(items@.take(k as int + 1) =~= items@.take(k as int).push(items@[k as int]));
            lemma_pair_in_push(items@.take(k as int), items@[k as int]);
            assert forall|a: int, b: int| 0 <= a < b < out@.len() implies coord(
                #[trigger] out@[a].1,
                axis,
            ) <= coord(#[trigger] out@[b].1, axis) by {
                if b < j {
                    assert(out@[a] == out0[a] && out@[b] == out0[b]);
                    assert(coord(out0[a].1, axis) <= coord(out0[b].1, axis));
                } else if b == j {
                    assert(out@[a] == out0[a]);
                    assert(coord(out0[a].1, axis) <= c as int);
                } else {
                    assert(out@[b] == out0[b - 1]);
                    assert(coord(out0[j as int].1, axis) > c as int);
                    if b - 1 > j {
                        assert(coord(out0[j as int].1, axis) <= coord(out0[b - 1].1, axis));
                    }
                    if a < j {
                        assert(out@[a] == out0[a]);
                        assert(coord(out0[a].1, axis) <= c as int);
                    } else if a == j {
                        assert(out@[a] == it);
                    } else {
                        assert(out@[a] == out0[a - 1]);
                        assert(coord(out0[a - 1].1, axis) <= coord(out0[b - 1].1, axis));
                    }
                }
            };
        }
        k = k + 1;
    }
    proof {
        assert(items@.take(n as int) =~= items@);
    }
    out
}

/// Recursively builds a subtree holding exactly the given pairs.
///
/// Each level sorts its pairs by coordinate on the current axis and places
/// the median pair at the node; pairs strictly below the median coordinate go
/// left, the rest (ties included) go right, and the children split on the
/// other axis. An empty range yields no node.
fn build_rec(items: Vec<(usize, Point)>, axis: Axis) -> (t: Option<Box<Node>>)
    ensures
        subtree_well_formed(t),
        forall|i: int, p: Point| #[trigger] in_subtree(t, i, p) <==> pair_in(items@, i, p),
    decreases items@.len(),
{
    if items.len() == 0 {
        return None;
    }
    let ghost items_view = items@;
    let sorted = sort_pairs_by_coord(items, axis);
    let mid: usize = sorted.len() / 2;
    let pivot: (usize, Point) = sorted[mid];
    let pc: i32 = coord_of(&pivot.1, axis);
    let mut left_items: Vec<(usize, Point)> = Vec::new();
    let mut right_items: Vec<(usize, Point)> = Vec::new();
    let mut k: usize = 0;
    while k < sorted.len()
        invariant
            mid < sorted@.len(),
            pivot == sorted@[mid as int],
            pc as int == coord(pivot.1, axis),
            k <= sorted@.len(),
            left_items@.len() + right_items@.len() == if k > mid {
                k - 1
            } else {
                k as int
            },
            forall|a: int|
                0 <= a < left_items@.len() ==> coord(#[trigger] left_items@[a].1, axis) < pc as int,
            forall|a: int|
                0 <= a < right_items@.len() ==> coord(#[trigger] right_items@[a].1, axis)
                    >= pc as int,
            forall|i: int, p: Point|
                (pair_in(left_items@, i, p) || pair_in(right_items@, i, p))
                    <==> #[trigger] pair_in_prefix_except(sorted@, k as int, mid as int, i, p),
        decreases sorted@.len() - k,
    {
        proof {
            lemma_pair_in_prefix_except_step(sorted@, k as int, mid as int);
        }
        if k != mid {
            let it: (usize, Point) = sorted[k];
            if coord_of(&it.1, axis) < pc {
                let ghost left0 = left_items@;
                left_items.push(it);
                proof {
                    lemma_pair_in_push(left0, it);
                }
            } else {
                let ghost right0 = right_items@;
                right_items.push(it);
                proof {
                    lemma_pair_in_push(right0, it);
                }
            }
        }
        k = k + 1;
    }
    let next_axis = other_axis(axis);
    let ghost left_view = left_items@;
    let ghost right_view = right_items@;
    let left_tree = build_rec(left_items, next_axis);
    let right_tree = build_rec(right_items, next_axis);
    let node = Node { idx: pivot.0, pt: pivot.1, axis, left: left_tree, right: right_tree };
    let t = Some(Box::new(node));
    proof {
        lemma_pair_in_split(sorted@, mid as int);
        assert forall|i: int, p: Point|
            #[trigger] in_subtree(node.left, i, p) implies coord(p, axis) < coord(
            node.pt,
            axis,
        ) by {
            assert(pair_in(left_view, i, p));
            let k2 = choose|k2: int| 0 <= k2 < left_view.len() && #[trigger] pair_at(
                left_view,
                k2,
                i,
                p,
            );
            assert(coord(left_view[k2].1, axis) < pc as int);
        };
        assert forall|i: int, p: Point|
            #[trigger] in_subtree(node.right, i, p) implies coord(p, axis) >= coord(
            node.pt,
            axis,
        ) by {
            assert(pair_in(right_view, i, p));
            let k2 = choose|k2: int| 0 <= k2 < right_view.len() && #[trigger] pair_at(
                right_view,
                k2,
                i,
                p,
            );
            assert(coord(right_view[k2].1, axis) >= pc as int);
        };
        assert(node.well_formed());
        assert forall|i: int, p: Point| #[trigger] in_subtree(t, i, p) <==> pair_in(
            items_view,
            i,
            p,
        ) by {
            assert(in_subtree(t, i, p) == node.contains_pair(i, p));
            assert(in_subtree(left_tree, i, p) <==> pair_in(left_view, i, p));
            assert(in_subtree(right_tree, i, p) <==> pair_in(right_view, i, p));
            assert(node.contains_pair(i, p) <==> ((i == pivot.0 && p == pivot.1) || pair_in(
                left_view,
                i,
                p,
            ) || pair_in(right_view, i, p)));
            assert(pair_in(sorted@, i, p) <==> pair_in(items_view, i, p));
        };
    }
    t
}

/// Candidate order for the running best: smaller squared distance wins, and
/// between equal distances the smaller index wins, so the overall minimum is
/// the lowest index at the minimum distance — the brute-force tie-break.
spec fn lex_le(d1: int, i1: int, d2: int, i2: int) -> bool {
    d1 < d2 || (d1 == d2 && i1 <= i2)
}

/// Branch-and-bound over a subtree, starting from the running best candidate
/// `(best_index, best_dist)`. The result is a candidate at least as good, is
/// either the starting candidate or a pair from the subtree with its exact
/// squared distance to the query, and beats or equals every pair in the
/// subtree in the candidate order.
fn nearest_in_subtree(node: &Option<Box<Node>>, query: &Point, best_index: usize, best_dist: u128) -> (r: (
    usize,
    u128,
))
    requires
        subtree_well_formed(*node),
    ensures
        lex_le(r.1 as int, r.0 as int, best_dist as int, best_index as int),
        r == (best_index, best_dist) || (exists|p: Point|
            #[trigger] in_subtree(*node, r.0 as int, p) && r.1 == dist_sq(p, *query)),
        forall|i: int, p: Point|
            #[trigger] in_subtree(*node, i, p) ==> lex_le(r.1 as int, r.0 as int, dist_sq(p, *query), i),
    decreases node,
{
    match node {
        Option::None => (best_index, best_dist),
        Option::Some(n) => {
            let r = n.nearest_from(query, best_index, best_dist);
            proof {
                if r != (best_index, best_dist) {
                    let p = choose|p: Point|
                        n.contains_pair(r.0 as int, p) && r.1 == dist_sq(p, *query);
                    assert(in_subtree(*node, r.0 as int, p));
                }
                assert forall|i: int, p: Point| #[trigger] in_subtree(*node, i, p) implies lex_le(
                    r.1 as int,
                    r.0 as int,
                    dist_sq(p, *query),
                    i,
                ) by {
                    assert(n.contains_pair(i, p));
                };
            }
            r
        },
    }
}

impl Node {
    /// Branch-and-bound at one node: fold the node's own point into the
    /// running best, search the near subtree (the side the query falls on)
    /// first, then search the far subtree only if the squared perpendicular
    /// distance from the query to the splitting line does not already exceed
    /// the running best — no far point can beat the best otherwise, and at
    /// exact equality a far point could still win the index tie-break.
    fn nearest_from(&self, query: &Point, best_index: usize, best_dist: u128) -> (r: (usize, u128))
        requires
            self.well_formed(),
        ensures
            lex_le(r.1 as int, r.0 as int, best_dist as int, best_index as int),
            r == (best_index, best_dist) || (exists|p: Point|
                #[trigger] self.contains_pair(r.0 as int, p) && r.1 == dist_sq(p, *query)),
            forall|i: int, p: Point|
                #[trigger] self.contains_pair(i, p) ==> lex_le(
                    r.1 as int,
                    r.0 as int,
                    dist_sq(p, *query),
                    i,
                ),
        decreases *self,
    {
        let d = get_distance_squared(&self.pt, query);
        let mut ci: usize = best_index;
        let mut cd: u128 = best_dist;
        if d < cd || (d == cd && self.idx < ci) {
            ci = self.idx;
            cd = d;
        }
        let qa: i32 = coord_of(query, self.axis);
        let va: i32 = coord_of(&self.pt, self.axis);
        let query_on_left: bool = qa < va;
        let near = if query_on_left {
            &self.left
        } else {
            &self.right
        };
        let far = if query_on_left {
            &self.right
        } else {
            &self.left
        };
        let (ci2, cd2) = nearest_in_subtree(near, query, ci, cd);
        let diff: i128 = (qa as i128) - (va as i128);
        proof {
            assert(0 <= diff * diff <= 0x1_0000_0000_0000_0000) by (nonlinear_arith)
                requires
                    -0x1_0000_0000 <= diff <= 0x1_0000_0000,
            ;
        }
        let perp: u128 = (diff * diff) as u128;
        if perp <= cd2 {
            let (ci3, cd3) = nearest_in_subtree(far, query, ci2, cd2);
            proof {
                if (ci3, cd3) != (best_index, best_dist) {
                    if (ci3, cd3) == (ci2, cd2) {
                        if (ci2, cd2) == (ci, cd) {
                            if (ci, cd) != (best_index, best_dist) {
                                assert(self.contains_pair(ci as int, self.pt));
                            }
                        } else {
                            let p = choose|p: Point|
                                in_subtree(*near, ci2 as int, p) && cd2 == dist_sq(p, *query);
                            assert(self.contains_pair(ci2 as int, p));
                        }
                    } else {
                        let p = choose|p: Point|
                            in_subtree(*far, ci3 as int, p) && cd3 == dist_sq(p, *query);
                        assert(self.contains_pair(ci3 as int, p));
                    }
                }
                assert forall|i: int, p: Point| #[trigger] self.contains_pair(i, p) implies lex_le(
                    cd3 as int,
                    ci3 as int,
                    dist_sq(p, *query),
                    i,
                ) by {
                    if in_subtree(*near, i, p) {
                        assert(lex_le(cd2 as int, ci2 as int, dist_sq(p, *query), i));
                    } else if in_subtree(*far, i, p) {
                        assert(lex_le(cd3 as int, ci3 as int, dist_sq(p, *query), i));
                    } else {
                        assert(i == self.idx && p == self.pt);
                        assert(lex_le(cd as int, ci as int, dist_sq(p, *query), i));
                    }
                };
            }
            (ci3, cd3)
        } else {
            proof {
                assert forall|i: int, p: Point| #[trigger] in_subtree(*far, i, p) implies lex_le(
                    cd2 as int,
                    ci2 as int,
                    dist_sq(p, *query),
                    i,
                ) by {
                    let cp = coord(p, self.axis);
                    lemma_axis_dist_bound(p, *query, self.axis);
                    lemma_sq_diff_swap(qa as int, va as int);
                    if query_on_left {
                        assert(cp >= va as int);
                        lemma_sq_mono(va - qa, cp - qa as int);
                        assert(dist_sq(p, *query) >= sq(cp - qa));
                    } else {
                        assert(cp < va as int);
                        lemma_sq_mono(qa - va, qa - cp as int);
                        assert(dist_sq(p, *query) >= sq(cp - qa));
                        assert(sq(cp - qa) == sq(qa - cp)) by {
                            lemma_sq_diff_swap(cp, qa as int);
                        };
                    }
                };
                if (ci2, cd2) != (best_index, best_dist) {
                    if (ci2, cd2) == (ci, cd) {
                        if (ci, cd) != (best_index, best_dist) {
                            assert(self.contains_pair(ci as int, self.pt));
                        }
                    } else {
                        let p = choose|p: Point|
                            in_subtree(*near, ci2 as int, p) && cd2 == dist_sq(p, *query);
                        assert(self.contains_pair(ci2 as int, p));
                    }
                }
                assert forall|i: int, p: Point| #[trigger] self.contains_pair(i, p) implies lex_le(
                    cd2 as int,
                    ci2 as int,
                    dist_sq(p, *query),
                    i,
                ) by {
                    if in_subtree(*near, i, p) {
                        assert(lex_le(cd2 as int, ci2 as int, dist_sq(p, *query), i));
                    } else if in_subtree(*far, i, p) {
                        assert(lex_le(cd2 as int, ci2 as int, dist_sq(p, *query), i));
                    } else {
                        assert(i == self.idx && p == self.pt);
                        assert(lex_le(cd as int, ci as int, dist_sq(p, *query), i));
                    }
                };
            }
            (ci2, cd2)
        }
    }
}

impl SpatialTree {
    /// The reference set this tree was built from, in its original order;
    /// query results are indices into this sequence.
    pub closed spec fn ref_set(self) -> Seq<Point> {
        self.points@
    }

    /// The tree is well-formed: every node partitions its subtrees on its
    /// axis, and the pairs stored in the tree are exactly the reference
    /// points under their original indices.
    pub closed spec fn wf(self) -> bool {
        &&& subtree_well_formed(self.root)
        &&& forall|i: int, p: Point|
            #[trigger] in_subtree(self.root, i, p) <==> (0 <= i < self.points@.len() && p
                == self.points@[i])
    }

    /// Builds the k-d tree over the given reference set by recursive median
    /// partitioning with the splitting axis alternating by depth. An empty
    /// reference set yields a valid, trivial tree that answers no query.
    pub fn build(reference_set: &Vec<Point>) -> (t: SpatialTree)
        ensures
            t.wf(),
            t.ref_set() == reference_set@,
    {
        let n = reference_set.len();
        let mut points: Vec<Point> = Vec::new();
        let mut items: Vec<(usize, Point)> = Vec::new();
        let mut k: usize = 0;
        while k < n
            invariant
                n == reference_set@.len(),
                k <= n,
                points@.len() == k,
                items@.len() == k,
                forall|j: int| 0 <= j < k ==> #[trigger] points@[j] == reference_set@[j],
                forall|j: int|
                    0 <= j < k ==> #[trigger] items@[j] == (j as usize, reference_set@[j]),
            decreases n - k,
        {
            let p: Point = reference_set[k];
            points.push(p);
            items.push((k, p));
            k = k + 1;
        }
        let ghost items_view = items@;
        let root = build_rec(items, Axis::X);
        proof {
            assert(points@ =~= reference_set@);
            assert forall|i: int, p: Point|
                #[trigger] in_subtree(root, i, p) <==> (0 <= i < points@.len() && p
                    == points@[i]) by {
                if in_subtree(root, i, p) {
                    assert(pair_in(items_view, i, p));
                    let k2 = choose|k2: int| 0 <= k2 < items_view.len() && #[trigger] pair_at(
                        items_view,
                        k2,
                        i,
                        p,
                    );
                    assert(items_view[k2] == (k2 as usize, reference_set@[k2]));
                }
                if 0 <= i < points@.len() && p == points@[i] {
                    assert(items_view[i] == (i as usize, reference_set@[i]));
                    assert(pair_at(items_view, i, i, p));
                    assert(pair_in(items_view, i, p));
                }
            };
        }
        SpatialTree { points, root }
    }

    /// Exact nearest-neighbor query by branch-and-bound: returns the unique
    /// lowest reference-set index at the minimum squared distance to `query`,
    /// with that exact distance — the same answer the brute-force scan gives.
    /// Signals the empty reference set if and only if the tree was built from
    /// zero points.
    pub fn nearest(&self, query: &Point) -> (r: Result<QueryResult, SearchError>)
        requires
            self.wf(),
        ensures
            query_result_matches(self.ref_set(), *query, r),
            r is Ok <==> self.ref_set().len() > 0,
    {
        if self.points.len() == 0 {
            return Err(SearchError::EmptyReferenceSet);
        }
        let first: Point = self.points[0];
        let d0 = get_distance_squared(&first, query);
        let (ri, rd) = nearest_in_subtree(&self.root, query, 0, d0);
        proof {
            let s = self.points@;
            if (ri, rd) == (0usize, d0) {
                assert(rd == dist_sq(s[0], *query));
            } else {
                let p = choose|p: Point|
                    in_subtree(self.root, ri as int, p) && rd == dist_sq(p, *query);
                assert(0 <= ri < s.len() && p == s[ri as int]);
            }
            assert forall|j: int| 0 <= j < s.len() implies dist_sq(#[trigger] s[j], *query)
                >= rd by {
                assert(in_subtree(self.root, j, s[j]));
                assert(lex_le(rd as int, ri as int, dist_sq(s[j], *query), j));
            };
            assert forall|j: int| 0 <= j < ri implies dist_sq(#[trigger] s[j], *query) > rd by {
                assert(in_subtree(self.root, j, s[j]));
                assert(lex_le(rd as int, ri as int, dist_sq(s[j], *query), j));
            };
        }
        Ok(QueryResult { index: ri, squared_distance: rd })
    }
}

} // verus!
