//! Seeding a tour from a convex hull: the hull's boundary positions are
//! matched to the indices of the point set, position by position.

use vstd::prelude::*;
use crate::geometry::Point;
use crate::tour::indices_below;

verus! {

/// `k` is the first index at which `p` stands in `points`.
pub open spec fn is_first_match(points: Seq<Point>, p: Point, k: int) -> bool {
    &&& 0 <= k < points.len()
    &&& points[k] == p
    &&& forall|m: int| 0 <= m < k ==> points[m] != p
}

/// The first index at which `p` stands in `points`, for a `p` that
/// stands there.
pub open spec fn first_match(points: Seq<Point>, p: Point) -> int {
    choose|k: int| is_first_match(points, p, k)
}

/// The index of each boundary position, in the order of the boundary.
pub open spec fn hull_indices(points: Seq<Point>, hull: Seq<Point>) -> Seq<usize> {
    Seq::new(hull.len(), |k: int| first_match(points, hull[k]) as usize)
}

/// The boundary as a cycle of indices: where the boundary comes closed,
/// its last position a repeat of the first, that repeat is left out.
pub open spec fn hull_cycle(points: Seq<Point>, hull: Seq<Point>) -> Seq<usize> {
    let all = hull_indices(points, hull);
    if all.len() > 1 && all.first() == all.last() {
        all.drop_last()
    } else {
        all
    }
}

/// `hull` is a boundary of `points` that a tour can be seeded from:
/// each of its positions is exactly that of some point, and it visits
/// no point twice but for the closing repeat.
pub open spec fn hull_fits(points: Seq<Point>, hull: Seq<Point>) -> bool {
    &&& forall|k: int| 0 <= k < hull.len() ==> points.contains(#[trigger] hull[k])
    &&& hull_cycle(points, hull).no_duplicates()
}

/// There is one first match at most, and it is what `first_match` names.
pub proof fn lemma_first_match(points: Seq<Point>, p: Point, k: int)
    requires
        is_first_match(points, p, k),
    ensures
        first_match(points, p) == k,
{
    let c = first_match(points, p);
    assert(is_first_match(points, p, c));
    if c < k {
        assert(points[c] != p);
    } else if k < c {
        assert(points[k] != p);
    }
}

/// The indices of a boundary that fits are indices of points.
pub proof fn lemma_hull_cycle_below(points: Seq<Point>, hull: Seq<Point>)
    requires
        points.len() <= usize::MAX,
        forall|k: int| 0 <= k < hull.len() ==> points.contains(#[trigger] hull[k]),
    ensures
        indices_below(hull_indices(points, hull), points.len()),
        indices_below(hull_cycle(points, hull), points.len()),
        forall|k: int|
            0 <= k < hull.len() ==> is_first_match(
                points,
                hull[k],
                #[trigger] hull_indices(points, hull)[k] as int,
            ),
{
    let all = hull_indices(points, hull);
    assert forall|k: int| 0 <= k < hull.len() implies is_first_match(
        points,
        hull[k],
        #[trigger] all[k] as int,
    ) by {
        assert(points.contains(hull[k]));
        lemma_has_first_match(points, hull[k], points.len() as int);
    }
    assert forall|k: int| 0 <= k < all.len() implies (#[trigger] all[k]) < points.len() by {
        assert(is_first_match(points, hull[k], all[k] as int));
    }
    let cycle = hull_cycle(points, hull);
    assert forall|k: int| 0 <= k < cycle.len() implies (#[trigger] cycle[k]) < points.len() by {
        assert(cycle[k] == all[k]);
    }
}

/// A position that stands among the first `upto` points has a first
/// match.
proof fn lemma_has_first_match(points: Seq<Point>, p: Point, upto: int)
    requires
        0 <= upto <= points.len(),
        exists|k: int| 0 <= k < upto && points[k] == p,
    ensures
        is_first_match(points, p, first_match(points, p)),
        first_match(points, p) < upto,
    decreases upto,
{
    let k = choose|k: int| 0 <= k < upto && points[k] == p;
    if exists|m: int| 0 <= m < k && points[m] == p {
        lemma_has_first_match(points, p, k);
    } else {
        assert(is_first_match(points, p, k));
        lemma_first_match(points, p, k);
    }
}

/// The first index at which `p` stands in `points`.
pub fn position_of(points: &Vec<Point>, p: Point) -> (found: Option<usize>)
    ensures
        match found {
            Some(k) => is_first_match(points@, p, k as int) && k == first_match(points@, p),
            None => !points@.contains(p),
        },
{
    let mut k: usize = 0;
    while k < points.len()
        invariant
            k <= points@.len(),
            forall|m: int| 0 <= m < k ==> points@[m] != p,
        decreases points@.len() - k,
    {
        if points[k].x == p.x && points[k].y == p.y {
            proof {
                lemma_first_match(points@, p, k as int);
            }
            return Some(k);
        }
        k = k + 1;
    }
    None
}

/// The first boundary position that is not exactly the position of any
/// point, by its place in `hull`.
pub fn unmatched_vertex(points: &Vec<Point>, hull: &Vec<Point>) -> (stray: Option<usize>)
    ensures
        match stray {
            Some(k) => k < hull@.len() && !points@.contains(hull@[k as int]) && forall|m: int|
                0 <= m < k ==> points@.contains(#[trigger] hull@[m]),
            None => forall|m: int| 0 <= m < hull@.len() ==> points@.contains(#[trigger] hull@[m]),
        },
{
    let mut k: usize = 0;
    while k < hull.len()
        invariant
            k <= hull@.len(),
            forall|m: int| 0 <= m < k ==> points@.contains(#[trigger] hull@[m]),
        decreases hull@.len() - k,
    {
        if position_of(points, hull[k]).is_none() {
            return Some(k);
        }
        k = k + 1;
    }
    None
}

/// Matches the boundary `hull` to `points` and hands back the cycle of
/// indices that a tour is seeded from, or nothing where the boundary
/// does not fit the points.
pub fn seed_cycle(points: &Vec<Point>, hull: &Vec<Point>) -> (seed: Option<Vec<usize>>)
    ensures
        seed is Some <==> hull_fits(points@, hull@),
        seed matches Some(cycle) ==> cycle@ == hull_cycle(points@, hull@),
{
    let mut cycle: Vec<usize> = Vec::new();
    let mut k: usize = 0;
    while k < hull.len()
        invariant
            k <= hull@.len(),
            cycle@.len() == k,
            forall|m: int| 0 <= m < k ==> points@.contains(#[trigger] hull@[m]),
            forall|m: int| 0 <= m < k ==> #[trigger] cycle@[m] == hull_indices(points@, hull@)[m],
            forall|m: int| 0 <= m < k ==> (#[trigger] cycle@[m]) < points@.len(),
        decreases hull@.len() - k,
    {
        match position_of(points, hull[k]) {
            Some(at) => {
                cycle.push(at);
            },
            None => {
                return None;
            },
        }
        k = k + 1;
    }
    assert(cycle@ =~= hull_indices(points@, hull@));
    if cycle.len() > 1 && cycle[0] == cycle[cycle.len() - 1] {
        cycle.pop();
    }
    assert(cycle@ =~= hull_cycle(points@, hull@));
    let mut seen: Vec<bool> = vec![false; points.len()];
    let mut m: usize = 0;
    while m < cycle.len()
        invariant
            m <= cycle@.len(),
            seen@.len() == points@.len(),
            indices_below(cycle@, points@.len()),
            cycle@ == hull_cycle(points@, hull@),
            forall|k: int| 0 <= k < hull@.len() ==> points@.contains(#[trigger] hull@[k]),
            forall|v: int|
                0 <= v < seen@.len() ==> (#[trigger] seen@[v] <==> exists|a: int|
                    0 <= a < m && cycle@[a] == v),
            forall|a: int, b: int| 0 <= a < b < m ==> cycle@[a] != cycle@[b],
        decreases cycle@.len() - m,
    {
        let at: usize = cycle[m];
        if seen[at] {
            proof {
                let a = choose|a: int| 0 <= a < m && cycle@[a] == at;
                assert(cycle@[a] == cycle@[m as int]);
            }
            return None;
        }
        seen.set(at, true);
        m = m + 1;
    }
    Some(cycle)
}

} // verus!
