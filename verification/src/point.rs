use vstd::prelude::*;

verus! {

/// An immutable 2-D coordinate with exact integer components.
///
/// All geometry in this crate is carried out in exact integer arithmetic:
/// coordinates are `i32`, so every squared Euclidean distance fits in a
/// `u128` and distance comparisons are exact.
#[derive(Clone, Copy, PartialEq, Eq, Structural, Debug)]
pub struct Point {
    pub x: i32,
    pub y: i32,
}

/// One of the two coordinate axes a tree node can split on.
#[derive(Clone, Copy, PartialEq, Eq, Structural, Debug)]
pub enum Axis {
    X,
    Y,
}

/// The square of an integer.
pub open spec fn sq(x: int) -> int {
    x * x
}

/// A point's coordinate on the given axis.
pub open spec fn coord(p: Point, a: Axis) -> int {
    match a {
        Axis::X => p.x as int,
        Axis::Y => p.y as int,
    }
}

/// The squared Euclidean distance between two points.
pub open spec fn dist_sq(a: Point, b: Point) -> int {
    sq(a.x - b.x) + sq(a.y - b.y)
}

/// Squares are never negative.
pub proof fn lemma_sq_nonneg(x: int)
    ensures
        sq(x) >= 0,
{
    assert(x * x >= 0) by (nonlinear_arith);
}

/// Squaring is monotonic on the non-negative integers.
pub proof fn lemma_sq_mono(a: int, b: int)
    requires
        0 <= a <= b,
    ensures
        sq(a) <= sq(b),
{
    assert(a * a <= b * b) by (nonlinear_arith)
        requires
            0 <= a <= b,
    ;
}

/// Squaring forgets the sign of a difference.
pub proof fn lemma_sq_diff_swap(a: int, b: int)
    ensures
        sq(a - b) == sq(b - a),
{
    assert((a - b) * (a - b) == (b - a) * (b - a)) by (nonlinear_arith);
}

/// Squared distances are never negative.
pub proof fn lemma_dist_sq_nonneg(a: Point, b: Point)
    ensures
        dist_sq(a, b) >= 0,
{
    lemma_sq_nonneg(a.x - b.x);
    lemma_sq_nonneg(a.y - b.y);
}

/// A squared distance is at least the squared coordinate difference on
/// either single axis; this is what justifies pruning in the tree search.
pub proof fn lemma_axis_dist_bound(p: Point, q: Point, a: Axis)
    ensures
        dist_sq(p, q) >= sq(coord(p, a) - coord(q, a)),
{
    lemma_sq_nonneg(p.x - q.x);
    lemma_sq_nonneg(p.y - q.y);
}

/// Computes the squared Euclidean distance between two points.
///
/// The result is exact: the widest possible value, with both coordinates
/// spanning the full `i32` range on both axes, still fits in a `u128`.
pub fn get_distance_squared(p1: &Point, p2: &Point) -> (r: u128)
    ensures
        r == dist_sq(*p1, *p2),
{
    let dx: i128 = (p1.x as i128) - (p2.x as i128);
    let dy: i128 = (p1.y as i128) - (p2.y as i128);
    proof {
        assert(0 <= dx * dx <= 0x1_0000_0000_0000_0000) by (nonlinear_arith)
            requires
                -0x1_0000_0000 <= dx <= 0x1_0000_0000,
        ;
        assert(0 <= dy * dy <= 0x1_0000_0000_0000_0000) by (nonlinear_arith)
            requires
                -0x1_0000_0000 <= dy <= 0x1_0000_0000,
        ;
    }
    let s: i128 = dx * dx + dy * dy;
    s as u128
}

/// Reads a point's coordinate on the given axis.
pub(crate) fn coord_of(p: &Point, a: Axis) -> (c: i32)
    ensures
        c as int == coord(*p, a),
{
    match a {
        Axis::X => p.x,
        Axis::Y => p.y,
    }
}

/// The axis the next tree level splits on.
pub(crate) fn other_axis(a: Axis) -> (r: Axis)
    ensures
        r == (match a {
            Axis::X => Axis::Y,
            Axis::Y => Axis::X,
        }),
{
    match a {
        Axis::X => Axis::Y,
        Axis::Y => Axis::X,
    }
}

} // verus!
