//! Cheapest insertion: the tour grows from the hull cycle by the one
//! insertion, over all points left and all edges, that lengthens it
//! least.

use vstd::prelude::*;
use crate::geometry::{Point, detour, insertion_cost};
use crate::hull::{hull_cycle, seed_cycle, lemma_hull_cycle_below};
use crate::tour::{
    indices_below, is_permutation, route, tour_length, lemma_covering_is_permutation,
    lemma_insertion_length, lemma_rearranged_permutation,
};
use crate::tour_strategy::{CheapestInsertionStrategy, TourStrategy};
use crate::two_opt::{MAX_PASSES, after_passes, precedes, scanned, two_opt};

verus! {

/// The indices below `n` that `cycle` does not hold, in rising order.
pub open spec fn rest_of(cycle: Seq<usize>, n: nat) -> Seq<usize>
    decreases n,
{
    if n == 0 {
        Seq::empty()
    } else if cycle.contains((n - 1) as usize) {
        rest_of(cycle, (n - 1) as nat)
    } else {
        rest_of(cycle, (n - 1) as nat).push((n - 1) as usize)
    }
}

/// What it adds to `tour` to visit the point `c` on its edge
/// `i -> i + 1`.
pub open spec fn edge_detour(points: Seq<Point>, tour: Seq<usize>, c: usize, i: int) -> int {
    detour(
        points[tour[i] as int],
        points[c as int],
        points[tour[(i + 1) % (tour.len() as int)] as int],
    )
}

/// Putting `remaining[r]` on edge `i` is no dearer than putting
/// `remaining[r2]` on edge `i2`: it adds less, or as much and comes
/// first when the choices are read point by point, edge by edge.
pub open spec fn no_dearer(
    points: Seq<Point>,
    tour: Seq<usize>,
    remaining: Seq<usize>,
    r: int,
    i: int,
    r2: int,
    i2: int,
) -> bool {
    let cost = edge_detour(points, tour, remaining[r], i);
    let other = edge_detour(points, tour, remaining[r2], i2);
    cost < other || (cost == other && precedes(r, i, r2, i2))
}

/// `(r, i)` is the insertion that the strategy makes next.
pub open spec fn is_cheapest(
    points: Seq<Point>,
    tour: Seq<usize>,
    remaining: Seq<usize>,
    r: int,
    i: int,
) -> bool {
    &&& 0 <= r < remaining.len()
    &&& 0 <= i < tour.len()
    &&& forall|r2: int, i2: int|
        0 <= r2 < remaining.len() && 0 <= i2 < tour.len() ==> #[trigger] no_dearer(
            points,
            tour,
            remaining,
            r,
            i,
            r2,
            i2,
        )
}

/// The tour grown until no point is left: each step makes the cheapest
/// insertion, the new point going in behind the start of its edge.
pub open spec fn grown(points: Seq<Point>, tour: Seq<usize>, remaining: Seq<usize>) -> Seq<usize>
    decreases remaining.len(),
{
    if exists|r: int, i: int| is_cheapest(points, tour, remaining, r, i) {
        let (r, i) = choose|r: int, i: int| is_cheapest(points, tour, remaining, r, i);
        grown(
            points,
            tour.insert((i + 1) % (tour.len() as int), remaining[r]),
            remaining.remove(r),
        )
    } else {
        tour
    }
}

/// The tour that cheapest insertion builds: the hull cycle, grown by
/// every other point, then refined by 2-opt.
pub open spec fn cheapest_insertion_tour(points: Seq<Point>, hull: Seq<Point>) -> Seq<usize> {
    let cycle = hull_cycle(points, hull);
    after_passes(points, grown(points, cycle, rest_of(cycle, points.len())), MAX_PASSES as nat)
}

/// Two insertions that both qualify as the cheapest are the same.
pub proof fn lemma_cheapest_unique(
    points: Seq<Point>,
    tour: Seq<usize>,
    remaining: Seq<usize>,
    r: int,
    i: int,
    r2: int,
    i2: int,
)
    requires
        is_cheapest(points, tour, remaining, r, i),
        is_cheapest(points, tour, remaining, r2, i2),
    ensures
        r == r2,
        i == i2,
{
    assert(no_dearer(points, tour, remaining, r, i, r2, i2));
    assert(no_dearer(points, tour, remaining, r2, i2, r, i));
}

/// Growing takes the cheapest insertion as its next step.
pub proof fn lemma_grown_step(
    points: Seq<Point>,
    tour: Seq<usize>,
    remaining: Seq<usize>,
    r: int,
    i: int,
)
    requires
        is_cheapest(points, tour, remaining, r, i),
    ensures
        grown(points, tour, remaining) == grown(
            points,
            tour.insert((i + 1) % (tour.len() as int), remaining[r]),
            remaining.remove(r),
        ),
{
    let (cr, ci) = choose|r: int, i: int| is_cheapest(points, tour, remaining, r, i);
    lemma_cheapest_unique(points, tour, remaining, r, i, cr, ci);
}

/// With no point left the tour is grown.
pub proof fn lemma_grown_done(points: Seq<Point>, tour: Seq<usize>, remaining: Seq<usize>)
    requires
        remaining.len() == 0,
    ensures
        grown(points, tour, remaining) == tour,
{
}

/// What `rest_of` holds: the indices below `n` outside `cycle`, each
/// once, rising.
pub proof fn lemma_rest_of(cycle: Seq<usize>, n: nat)
    requires
        n <= usize::MAX,
    ensures
        rest_of(cycle, n).len() <= n,
        indices_below(rest_of(cycle, n), n),
        forall|a: int, b: int|
            0 <= a < b < rest_of(cycle, n).len() ==> rest_of(cycle, n)[a] < rest_of(cycle, n)[b],
        forall|a: int|
            0 <= a < rest_of(cycle, n).len() ==> !cycle.contains(#[trigger] rest_of(cycle, n)[a]),
        forall|v: usize| v < n && !cycle.contains(v) ==> rest_of(cycle, n).contains(v),
    decreases n,
{
    if n > 0 {
        let less = rest_of(cycle, (n - 1) as nat);
        let last = (n - 1) as usize;
        lemma_rest_of(cycle, (n - 1) as nat);
        let rest = rest_of(cycle, n);
        assert forall|v: usize| v < n && !cycle.contains(v) implies rest.contains(v) by {
            if v < n - 1 {
                assert(less.contains(v));
                let k = choose|k: int| 0 <= k < less.len() && less[k] == v;
                assert(rest[k] == v);
            } else {
                assert(rest[rest.len() - 1] == v);
            }
        }
    }
}

/// The hull cycle followed by every other index is a permutation.
pub proof fn lemma_cycle_and_rest(cycle: Seq<usize>, n: nat)
    requires
        n <= usize::MAX,
        cycle.no_duplicates(),
        indices_below(cycle, n),
    ensures
        is_permutation(cycle + rest_of(cycle, n), n),
{
    let rest = rest_of(cycle, n);
    let all = cycle + rest;
    lemma_rest_of(cycle, n);
    assert forall|a: int, b: int| 0 <= a < all.len() && 0 <= b < all.len() && a != b implies all[a]
        != all[b] by {
        if a < cycle.len() && b >= cycle.len() {
            assert(!cycle.contains(rest[b - cycle.len()]));
        }
        if b < cycle.len() && a >= cycle.len() {
            assert(!cycle.contains(rest[a - cycle.len()]));
        }
    }
    assert forall|v: usize| v < n implies all.contains(v) by {
        if cycle.contains(v) {
            let k = choose|k: int| 0 <= k < cycle.len() && cycle[k] == v;
            assert(all[k] == v);
        } else {
            assert(rest.contains(v));
            let k = choose|k: int| 0 <= k < rest.len() && rest[k] == v;
            assert(all[cycle.len() + k] == v);
        }
    }
    lemma_covering_is_permutation(all, n);
}

/// Moving an entry from the points left into the tour rearranges the
/// two together and loses nothing.
pub proof fn lemma_move_keeps_entries(tour: Seq<usize>, remaining: Seq<usize>, at: int, r: int)
    requires
        0 <= at <= tour.len(),
        0 <= r < remaining.len(),
    ensures
        (tour.insert(at, remaining[r]) + remaining.remove(r)).to_multiset() == (tour
            + remaining).to_multiset(),
{
    let c = remaining[r];
    vstd::seq_lib::lemma_multiset_commutative(tour, remaining);
    vstd::seq_lib::lemma_multiset_commutative(tour.insert(at, c), remaining.remove(r));
    vstd::seq_lib::to_multiset_insert(tour, at, c);
    vstd::seq_lib::to_multiset_remove(remaining, r);
    vstd::seq_lib::to_multiset_contains(remaining, c);
    assert(remaining.contains(c));
    assert(tour.to_multiset().insert(c).add(remaining.to_multiset().remove(c)) =~= tour.to_multiset().add(
        remaining.to_multiset(),
    ));
}

/// An insertion lengthens the tour by exactly its detour: the cheapest
/// insertion is the one after which the tour is shortest.
pub proof fn lemma_insertion_lengthens_by_detour(
    points: Seq<Point>,
    tour: Seq<usize>,
    c: usize,
    i: int,
)
    requires
        0 <= i < tour.len(),
    ensures
        tour_length(points, tour.insert((i + 1) % (tour.len() as int), c)) == tour_length(
            points,
            tour,
        ) + edge_detour(points, tour, c, i),
{
    let at = (i + 1) % (tour.len() as int);
    assert(route(points, tour.insert(at, c)) =~= route(points, tour).insert(at, points[c as int]));
    lemma_insertion_length(route(points, tour), i, points[c as int]);
}

/// What a search for the cheapest insertion has found once it has
/// looked at the choices `scanned(0, r, i, ..)`.
pub open spec fn cheapest_of_scanned(
    points: Seq<Point>,
    tour: Seq<usize>,
    remaining: Seq<usize>,
    r: int,
    i: int,
    found: Option<(usize, usize, i128)>,
) -> bool {
    match found {
        None => r == 0 && i == 0,
        Some((br, bi, cost)) => {
            &&& scanned(0, r, i, br as int, bi as int)
            &&& 0 <= br < remaining.len()
            &&& 0 <= bi < tour.len()
            &&& cost == edge_detour(points, tour, remaining[br as int], bi as int)
            &&& forall|r2: int, i2: int|
                scanned(0, r, i, r2, i2) && 0 <= r2 < remaining.len() && 0 <= i2 < tour.len()
                    ==> #[trigger] no_dearer(points, tour, remaining, br as int, bi as int, r2, i2)
        },
    }
}

/// The cheapest insertion of a point of `remaining` into `tour`: which
/// point, and on which edge. There is none where no point is left or
/// the tour has no edge.
pub fn find_cheapest(points: &Vec<Point>, tour: &Vec<usize>, remaining: &Vec<usize>) -> (best:
    Option<(usize, usize)>)
    requires
        indices_below(tour@, points@.len()),
        indices_below(remaining@, points@.len()),
    ensures
        best is Some <==> tour@.len() > 0 && remaining@.len() > 0,
        best matches Some(choice) ==> is_cheapest(
            points@,
            tour@,
            remaining@,
            choice.0 as int,
            choice.1 as int,
        ),
{
    if tour.len() == 0 || remaining.len() == 0 {
        return None;
    }
    let n: usize = tour.len();
    let mut found: Option<(usize, usize, i128)> = None;
    let mut r: usize = 0;
    while r < remaining.len()
        invariant
            n == tour@.len(),
            n > 0,
            r <= remaining@.len(),
            indices_below(tour@, points@.len()),
            indices_below(remaining@, points@.len()),
            cheapest_of_scanned(points@, tour@, remaining@, r as int, 0, found),
        decreases remaining@.len() - r,
    {
        let candidate: usize = remaining[r];
        let mut i: usize = 0;
        while i < n
            invariant
                n == tour@.len(),
                n > 0,
                i <= n,
                r < remaining@.len(),
                candidate == remaining@[r as int],
                indices_below(tour@, points@.len()),
                indices_below(remaining@, points@.len()),
                cheapest_of_scanned(points@, tour@, remaining@, r as int, i as int, found),
            decreases n - i,
        {
            let j: usize = (i + 1) % n;
            let cost: i128 = insertion_cost(points[tour[i]], points[candidate], points[tour[j]]);
            let ghost before = found;
            match found {
                None => {
                    found = Some((r, i, cost));
                },
                Some((_, _, least)) => {
                    if cost < least {
                        found = Some((r, i, cost));
                    }
                },
            }
            proof {
                lemma_choice_step(points@, tour@, remaining@, r as int, i as int, before, found);
            }
            i = i + 1;
        }
        r = r + 1;
    }
    match found {
        Some((br, bi, _)) => {
            proof {
                assert forall|r2: int, i2: int|
                    0 <= r2 < remaining@.len() && 0 <= i2 < tour@.len() implies #[trigger] no_dearer(
                    points@,
                    tour@,
                    remaining@,
                    br as int,
                    bi as int,
                    r2,
                    i2,
                ) by {
                    assert(scanned(0, r as int, 0, r2, i2));
                }
            }
            Some((br, bi))
        },
        None => None,
    }
}

/// One more choice looked at: what was found stays, or the new choice
/// takes its place where it is strictly cheaper.
proof fn lemma_choice_step(
    points: Seq<Point>,
    tour: Seq<usize>,
    remaining: Seq<usize>,
    r: int,
    i: int,
    before: Option<(usize, usize, i128)>,
    after: Option<(usize, usize, i128)>,
)
    requires
        0 <= r < remaining.len(),
        0 <= i < tour.len(),
        r == r as usize,
        i == i as usize,
        edge_detour(points, tour, remaining[r], i) == edge_detour(
            points,
            tour,
            remaining[r],
            i,
        ) as i128,
        cheapest_of_scanned(points, tour, remaining, r, i, before),
        after == match before {
            None => Some((r as usize, i as usize, edge_detour(points, tour, remaining[r], i) as i128)),
            Some((_, _, least)) => if edge_detour(points, tour, remaining[r], i) < least {
                Some((r as usize, i as usize, edge_detour(points, tour, remaining[r], i) as i128))
            } else {
                before
            },
        },
    ensures
        cheapest_of_scanned(points, tour, remaining, r, i + 1, after),
{
    let (ar, ai, _) = after.unwrap();
    assert forall|r2: int, i2: int|
        scanned(0, r, i + 1, r2, i2) && 0 <= r2 < remaining.len() && 0 <= i2 < tour.len()
        implies #[trigger] no_dearer(points, tour, remaining, ar as int, ai as int, r2, i2) by {
        if !(r2 == r && i2 == i) {
            assert(scanned(0, r, i, r2, i2));
            match before {
                Some((br, bi, _)) => {
                    assert(no_dearer(points, tour, remaining, br as int, bi as int, r2, i2));
                },
                None => {},
            }
        }
    }
}

impl TourStrategy for CheapestInsertionStrategy {
    /// Cheapest insertion takes every point set whose boundary gives
    /// it an edge to insert on: the boundary is empty only where there
    /// are no points.
    open spec fn accepts(&self, points: Seq<Point>, hull: Seq<Point>) -> bool {
        points.len() > 0 ==> hull.len() > 0
    }

    /// Grows the hull cycle by the cheapest insertion until every point
    /// is placed, then refines the tour by 2-opt.
    fn build_tour(&self, points: &Vec<Point>, hull_points: &Vec<Point>) -> (tour: Vec<usize>)
        ensures
            tour@ == cheapest_insertion_tour(points@, hull_points@),
    {
        let n: usize = points.len();
        let mut tour: Vec<usize> = match seed_cycle(points, hull_points) {
            Some(cycle) => cycle,
            None => Vec::new(),
        };
        let ghost cycle = tour@;
        proof {
            lemma_hull_cycle_below(points@, hull_points@);
        }
        let mut in_tour: Vec<bool> = vec![false; n];
        let mut k: usize = 0;
        while k < tour.len()
            invariant
                k <= tour@.len(),
                tour@ == cycle,
                in_tour@.len() == n,
                indices_below(cycle, n as nat),
                forall|v: int|
                    0 <= v < n ==> (#[trigger] in_tour@[v] <==> exists|a: int|
                        0 <= a < k && cycle[a] == v),
            decreases tour@.len() - k,
        {
            in_tour.set(tour[k], true);
            k = k + 1;
        }
        let mut remaining: Vec<usize> = Vec::new();
        let mut v: usize = 0;
        while v < n
            invariant
                v <= n,
                in_tour@.len() == n,
                forall|v: int|
                    0 <= v < n ==> (#[trigger] in_tour@[v] <==> exists|a: int|
                        0 <= a < cycle.len() && cycle[a] == v),
                remaining@ == rest_of(cycle, v as nat),
            decreases n - v,
        {
            proof {
                if cycle.contains(v) {
                    let a = choose|a: int| 0 <= a < cycle.len() && cycle[a] == v;
                    assert(in_tour@[v as int]);
                }
                if in_tour@[v as int] {
                    let a = choose|a: int| 0 <= a < cycle.len() && cycle[a] == v;
                    assert(cycle.contains(v));
                }
            }
            if !in_tour[v] {
                remaining.push(v);
            }
            v = v + 1;
        }
        let ghost rest = remaining@;
        proof {
            lemma_rest_of(cycle, n as nat);
            lemma_cycle_and_rest(cycle, n as nat);
            if n > 0 {
                assert(hull_points@.len() > 0);
                assert(cycle.len() > 0);
            }
        }
        while remaining.len() > 0
            invariant
                n == points@.len(),
                n > 0 ==> tour@.len() > 0,
                indices_below(tour@, n as nat),
                indices_below(remaining@, n as nat),
                (tour@ + remaining@).to_multiset() == (cycle + rest).to_multiset(),
                grown(points@, tour@, remaining@) == grown(points@, cycle, rest),
            decreases remaining@.len(),
        {
            assert(remaining@[0] < n);
            let (r, i): (usize, usize) = match find_cheapest(points, &tour, &remaining) {
                Some(choice) => choice,
                None => (0, 0),
            };
            let candidate: usize = remaining[r];
            let len: usize = tour.len();
            let at: usize = (i + 1) % len;
            proof {
                lemma_grown_step(points@, tour@, remaining@, r as int, i as int);
                lemma_move_keeps_entries(tour@, remaining@, at as int, r as int);
                lemma_rearranged_permutation(
                    tour@ + remaining@,
                    tour@.insert(at as int, candidate) + remaining@.remove(r as int),
                    n as nat,
                );
            }
            let ghost joined = tour@.insert(at as int, candidate) + remaining@.remove(r as int);
            tour.insert(at, candidate);
            remaining.remove(r);
            proof {
                assert(tour@ + remaining@ == joined);
                assert(indices_below(tour@ + remaining@, n as nat)) by {
                    lemma_rearranged_permutation(cycle + rest, joined, n as nat);
                }
                assert forall|k: int| 0 <= k < tour@.len() implies (#[trigger] tour@[k]) < n by {
                    assert((tour@ + remaining@)[k] == tour@[k]);
                }
                assert forall|k: int| 0 <= k < remaining@.len() implies (#[trigger] remaining@[k])
                    < n by {
                    assert((tour@ + remaining@)[tour@.len() + k] == remaining@[k]);
                }
            }
        }
        proof {
            lemma_grown_done(points@, tour@, remaining@);
            assert(tour@ + remaining@ =~= tour@);
            lemma_rearranged_permutation(cycle + rest, tour@, n as nat);
            assert(is_permutation(tour@, n as nat));
        }
        two_opt(points.as_slice(), &mut tour);
        tour
    }
}

} // verus!
