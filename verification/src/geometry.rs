//! Points of the integer grid and the squared distances between them.

use vstd::prelude::*;

verus! {

/// Grid units per raster pixel: a pixel `(px, py)` sits at the grid
/// position `(px * UNITS_PER_PIXEL, py * UNITS_PER_PIXEL)`.
pub const UNITS_PER_PIXEL: u32 = 256;

/// A position on the grid. Its identity inside a point set is its index
/// in the sequence that holds it.
#[derive(Clone, Copy, Debug, PartialEq, Eq, Structural)]
pub struct Point {
    pub x: u32,
    pub y: u32,
}

/// One coordinate of `p`: `y`, which names the horizontal line that `p`
/// lies on, or `x`, which names the vertical one.
pub open spec fn coordinate(p: Point, horizontal: bool) -> u32 {
    if horizontal {
        p.y
    } else {
        p.x
    }
}

/// The squared Euclidean distance between two grid positions.
pub open spec fn sq_dist(p: Point, q: Point) -> int {
    (p.x - q.x) * (p.x - q.x) + (p.y - q.y) * (p.y - q.y)
}

/// What it adds to a path to visit `c` between `a` and `b` instead of
/// going from `a` to `b` directly, in squared distances.
pub open spec fn detour(a: Point, c: Point, b: Point) -> int {
    sq_dist(a, c) + sq_dist(c, b) - sq_dist(a, b)
}

/// The largest value `sq_dist` takes on the grid.
pub open spec fn sq_dist_max() -> int {
    2 * (0xFFFF_FFFFint * 0xFFFF_FFFFint)
}

/// Squared distances are symmetric, vanish on equal points and stay
/// below `sq_dist_max`.
pub proof fn lemma_sq_dist(p: Point, q: Point)
    ensures
        sq_dist(p, q) == sq_dist(q, p),
        0 <= sq_dist(p, q) <= sq_dist_max(),
        sq_dist(p, p) == 0,
        p == q <==> sq_dist(p, q) == 0,
{
    let dx: int = p.x - q.x;
    let dy: int = p.y - q.y;
    assert(dx * dx == (-dx) * (-dx)) by (nonlinear_arith);
    assert(dy * dy == (-dy) * (-dy)) by (nonlinear_arith);
    assert(0 <= dx * dx <= 0xFFFF_FFFF * 0xFFFF_FFFF) by (nonlinear_arith)
        requires
            -0xFFFF_FFFF <= dx <= 0xFFFF_FFFF,
    ;
    assert(0 <= dy * dy <= 0xFFFF_FFFF * 0xFFFF_FFFF) by (nonlinear_arith)
        requires
            -0xFFFF_FFFF <= dy <= 0xFFFF_FFFF,
    ;
    assert(dx * dx == 0 ==> dx == 0) by (nonlinear_arith);
    assert(dy * dy == 0 ==> dy == 0) by (nonlinear_arith);
}

/// The squared Euclidean distance between `a` and `b`.
pub fn distance(a: Point, b: Point) -> (d: u128)
    ensures
        d == sq_dist(a, b),
{
    let dx: u128 = if a.x >= b.x {
        (a.x - b.x) as u128
    } else {
        (b.x - a.x) as u128
    };
    let dy: u128 = if a.y >= b.y {
        (a.y - b.y) as u128
    } else {
        (b.y - a.y) as u128
    };
    proof {
        lemma_sq_dist(a, b);
        assert(dx * dx == (a.x - b.x) * (a.x - b.x)) by (nonlinear_arith)
            requires
                dx == a.x - b.x || dx == -(a.x - b.x),
        ;
        assert(dy * dy == (a.y - b.y) * (a.y - b.y)) by (nonlinear_arith)
            requires
                dy == a.y - b.y || dy == -(a.y - b.y),
        ;
    }
    dx * dx + dy * dy
}

/// The detour through `c` on the way from `a` to `b`: negative where the
/// angle at `c` is obtuse, since the distances are squared.
pub fn insertion_cost(a: Point, c: Point, b: Point) -> (cost: i128)
    ensures
        cost == detour(a, c, b),
{
    proof {
        lemma_sq_dist(a, c);
        lemma_sq_dist(c, b);
        lemma_sq_dist(a, b);
    }
    let ac: u128 = distance(a, c);
    let cb: u128 = distance(c, b);
    let ab: u128 = distance(a, b);
    (ac as i128) + (cb as i128) - (ab as i128)
}

} // verus!
