//! Greedy nearest insertion: the tour grows from the hull cycle by the
//! best insertion among the points that a spatial index holds nearest to
//! a sample of the tour's edges.

use vstd::prelude::*;
use crate::geometry::{Point, detour, insertion_cost};
use crate::hull::{hull_cycle, seed_cycle, lemma_hull_cycle_below};
use crate::spatial_index::{
    BUCKET, MAX_LEAVES, PointIndex, crowded, fills_a_line, holds_any, index_add, index_entries,
    index_nearest, index_remove, index_spare, index_with_capacity,
};
use crate::tour::{
    indices_below, is_permutation, lemma_covering_is_permutation, lemma_distinct_fit,
    lemma_insert_fresh, lemma_rearranged,
};
use crate::tour_strategy::{GreedyStrategy, TourStrategy};
use crate::two_opt::{MAX_PASSES, after_passes, two_opt};

verus! {

/// Of a tour of `len` entries, every `len / STRIDE_UNIT`-th edge is
/// sampled, every edge at least and every `MAX_STRIDE`-th at most.
pub const STRIDE_UNIT: usize = 256;

/// The widest stride between two sampled edges.
pub const MAX_STRIDE: usize = 8;

/// From this stride on, the index is asked for `FAR_NEIGHBORS` points
/// per edge in place of `NEAR_NEIGHBORS`.
pub const WIDE_STRIDE: usize = 4;

/// How many nearest points are asked for per edge at a narrow stride.
pub const NEAR_NEIGHBORS: usize = 4;

/// How many nearest points are asked for per edge at a wide stride.
pub const FAR_NEIGHBORS: usize = 8;

/// Each time the tour's length reaches a multiple of this, the tour is
/// refined by 2-opt before it grows on.
pub const CHECKPOINT: usize = 32;

/// The points under `keys` are as many as a leaf of the index holds,
/// all different, and all on one line of the grid.
pub open spec fn line_of_points(points: Seq<Point>, keys: Seq<usize>) -> bool {
    &&& keys.len() == BUCKET
    &&& keys.no_duplicates()
    &&& forall|k: int| 0 <= k < keys.len() ==> (#[trigger] keys[k]) < points.len()
    &&& {
        ||| forall|k: int|
            0 <= k < keys.len() ==> points[(#[trigger] keys[k]) as int].x == points[keys[0] as int].x
        ||| forall|k: int|
            0 <= k < keys.len() ==> points[(#[trigger] keys[k]) as int].y == points[keys[0] as int].y
    }
}

/// Some line of the grid holds as many of the points as a leaf of the
/// index holds entries.
pub open spec fn crowded_points(points: Seq<Point>) -> bool {
    exists|keys: Seq<usize>| line_of_points(points, keys)
}

/// Every entry stands for a point: it is stored under the point's index
/// at the point's position.
pub open spec fn entries_of(points: Seq<Point>, entries: Map<usize, (u32, u32)>) -> bool {
    forall|k: usize| #[trigger]
        entries.contains_key(k) ==> k < points.len() && entries[k] == (
            points[k as int].x,
            points[k as int].y,
        )
}

/// An index over points that are not crowded is not crowded.
pub proof fn lemma_entries_not_crowded(points: Seq<Point>, entries: Map<usize, (u32, u32)>)
    requires
        entries_of(points, entries),
        !crowded_points(points),
    ensures
        !crowded(entries),
{
    if crowded(entries) {
        let keys = choose|keys: Seq<usize>| fills_a_line(entries, keys);
        assert forall|k: int| 0 <= k < keys.len() implies (#[trigger] keys[k]) < points.len() by {
            assert(entries.contains_key(keys[k]));
        }
        assert(entries.contains_key(keys[0]));
        if forall|k: int| 0 <= k < keys.len() ==> (#[trigger] entries[keys[k]]).0 == entries[keys[0]].0 {
            assert forall|k: int| 0 <= k < keys.len() implies points[(#[trigger] keys[k]) as int].x
                == points[keys[0] as int].x by {
                assert(entries.contains_key(keys[k]));
                assert(entries[keys[k]].0 == entries[keys[0]].0);
            }
        } else {
            assert forall|k: int| 0 <= k < keys.len() implies points[(#[trigger] keys[k]) as int].y
                == points[keys[0] as int].y by {
                assert(entries.contains_key(keys[k]));
                assert(entries[keys[k]].1 == entries[keys[0]].1);
            }
        }
        assert(line_of_points(points, keys));
    }
}

/// What is left of an index over points after entries were taken out
/// is an index over those points.
pub proof fn lemma_entries_taken(
    points: Seq<Point>,
    before: Map<usize, (u32, u32)>,
    after: Map<usize, (u32, u32)>,
)
    requires
        entries_of(points, before),
        after.submap_of(before),
    ensures
        entries_of(points, after),
{
    assert forall|k: usize| #[trigger] after.contains_key(k) implies k < points.len() && after[k] == (
        points[k as int].x,
        points[k as int].y,
    ) by {
        assert(before.contains_key(k));
    }
}

/// The grid position halfway between `a` and `b`, rounded down.
pub fn midpoint(a: Point, b: Point) -> (m: Point)
    ensures
        m.x == (a.x + b.x) / 2,
        m.y == (a.y + b.y) / 2,
{
    let x: u64 = (a.x as u64 + b.x as u64) / 2;
    let y: u64 = (a.y as u64 + b.y as u64) / 2;
    Point { x: x as u32, y: y as u32 }
}

/// How far apart the sampled edges of a tour of `len` entries are.
pub open spec fn stride_of(len: int) -> int {
    if len / (STRIDE_UNIT as int) < 1 {
        1
    } else if len / (STRIDE_UNIT as int) > MAX_STRIDE {
        MAX_STRIDE as int
    } else {
        len / (STRIDE_UNIT as int)
    }
}

/// How many nearest points the index is asked for per sampled edge.
pub open spec fn neighbors_of(stride: int) -> int {
    if stride > WIDE_STRIDE {
        FAR_NEIGHBORS as int
    } else {
        NEAR_NEIGHBORS as int
    }
}

/// How far apart the sampled edges of a tour of `len` entries are.
pub fn stride(len: usize) -> (step: usize)
    ensures
        step == stride_of(len as int),
        1 <= step <= MAX_STRIDE,
{
    let share: usize = len / STRIDE_UNIT;
    if share < 1 {
        1
    } else if share > MAX_STRIDE {
        MAX_STRIDE
    } else {
        share
    }
}

/// How many nearest points the index is asked for per sampled edge.
pub fn neighbors(step: usize) -> (qty: usize)
    ensures
        qty == neighbors_of(step as int),
        0 < qty <= FAR_NEIGHBORS,
{
    if step > WIDE_STRIDE {
        FAR_NEIGHBORS
    } else {
        NEAR_NEIGHBORS
    }
}

/// An insertion that a search has settled on: the point `point` goes on
/// the edge that starts at position `edge` of the tour, at the cost
/// `cost`.
#[derive(Clone, Copy, Debug)]
pub struct Insertion {
    pub point: usize,
    pub edge: usize,
    pub cost: i128,
}

/// What it adds to `tour` to visit the point `p` on the edge that
/// starts at position `k`.
pub open spec fn edge_cost(points: Seq<Point>, tour: Seq<usize>, k: int, p: usize) -> int {
    detour(
        points[tour[k] as int],
        points[p as int],
        points[tour[(k + 1) % (tour.len() as int)] as int],
    )
}

/// `candidates[a]` is a point that may still be placed.
pub open spec fn is_open(placed: Seq<bool>, candidates: Seq<usize>, a: int) -> bool {
    0 <= a < candidates.len() && candidates[a] < placed.len() && !placed[candidates[a] as int]
}

/// `chosen` is the outcome of weighing the first `upto` of the
/// `candidates` for the edge `k` against what was `best` before: the
/// cheapest of them all, `best` itself where nothing is strictly
/// cheaper, else the first candidate at the least cost.
pub open spec fn weighed(
    points: Seq<Point>,
    tour: Seq<usize>,
    placed: Seq<bool>,
    k: int,
    candidates: Seq<usize>,
    upto: int,
    best: Option<Insertion>,
    chosen: Option<Insertion>,
) -> bool {
    match chosen {
        None => best is None && forall|a: int| 0 <= a < upto ==> !#[trigger] is_open(placed, candidates, a),
        Some(c) => {
            &&& forall|a: int|
                0 <= a < upto && #[trigger] is_open(placed, candidates, a) ==> c.cost <= edge_cost(
                    points,
                    tour,
                    k,
                    candidates[a],
                )
            &&& best matches Some(b) ==> c.cost <= b.cost
            &&& {
                ||| chosen == best
                ||| exists|a: int|
                    {
                        &&& 0 <= a < upto
                        &&& #[trigger] is_open(placed, candidates, a)
                        &&& c.point == candidates[a]
                        &&& c.edge == k
                        &&& c.cost == edge_cost(points, tour, k, candidates[a])
                        &&& best matches Some(b) ==> c.cost < b.cost
                        &&& forall|e: int|
                            0 <= e < a && #[trigger] is_open(placed, candidates, e) ==> c.cost
                                < edge_cost(points, tour, k, candidates[e])
                    }
            }
        },
    }
}

/// Weighs the points that the index has offered for the edge at
/// position `k` against the best insertion found so far.
pub fn weigh_candidates(
    points: &Vec<Point>,
    tour: &Vec<usize>,
    placed: &Vec<bool>,
    k: usize,
    candidates: &Vec<usize>,
    best: Option<Insertion>,
) -> (chosen: Option<Insertion>)
    requires
        k < tour@.len(),
        indices_below(tour@, points@.len()),
        placed@.len() == points@.len(),
    ensures
        weighed(points@, tour@, placed@, k as int, candidates@, candidates@.len() as int, best, chosen),
{
    let len: usize = tour.len();
    let from: Point = points[tour[k]];
    let to: Point = points[tour[(k + 1) % len]];
    let mut chosen: Option<Insertion> = best;
    let mut a: usize = 0;
    while a < candidates.len()
        invariant
            a <= candidates@.len(),
            k < tour@.len(),
            len == tour@.len(),
            from == points@[tour@[k as int] as int],
            to == points@[tour@[(k + 1) % (len as int)] as int],
            placed@.len() == points@.len(),
            weighed(points@, tour@, placed@, k as int, candidates@, a as int, best, chosen),
        decreases candidates@.len() - a,
    {
        let p: usize = candidates[a];
        let ghost before = chosen;
        if p < placed.len() && !placed[p] {
            let cost: i128 = insertion_cost(from, points[p], to);
            let cheaper: bool = match chosen {
                Some(c) => cost < c.cost,
                None => true,
            };
            if cheaper {
                chosen = Some(Insertion { point: p, edge: k, cost });
                proof {
                    assert(is_open(placed@, candidates@, a as int));
                }
            } else {
                proof {
                    assert(is_open(placed@, candidates@, a as int));
                }
            }
        } else {
            proof {
                assert(!is_open(placed@, candidates@, a as int));
            }
        }
        a = a + 1;
    }
    chosen
}

/// The one outcome of weighing all of `candidates` for the edge `k`
/// against what was `best` before.
pub open spec fn weigh_of(
    points: Seq<Point>,
    tour: Seq<usize>,
    placed: Seq<bool>,
    k: int,
    candidates: Seq<usize>,
    best: Option<Insertion>,
) -> Option<Insertion> {
    choose|chosen: Option<Insertion>|
        weighed(points, tour, placed, k, candidates, candidates.len() as int, best, chosen)
}

/// Weighing has one outcome.
pub proof fn lemma_weighed_once(
    points: Seq<Point>,
    tour: Seq<usize>,
    placed: Seq<bool>,
    k: int,
    candidates: Seq<usize>,
    best: Option<Insertion>,
    chosen: Option<Insertion>,
)
    requires
        weighed(points, tour, placed, k, candidates, candidates.len() as int, best, chosen),
    ensures
        chosen == weigh_of(points, tour, placed, k, candidates, best),
{
    let upto = candidates.len() as int;
    let other = weigh_of(points, tour, placed, k, candidates, best);
    assert(weighed(points, tour, placed, k, candidates, upto, best, other));
    match (chosen, other) {
        (Some(c), Some(d)) => {
            if chosen != best && other != best {
                let a = choose|a: int|
                    {
                        &&& 0 <= a < upto
                        &&& #[trigger] is_open(placed, candidates, a)
                        &&& c.point == candidates[a]
                        &&& c.edge == k
                        &&& c.cost == edge_cost(points, tour, k, candidates[a])
                        &&& best matches Some(b) ==> c.cost < b.cost
                        &&& forall|e: int|
                            0 <= e < a && #[trigger] is_open(placed, candidates, e) ==> c.cost
                                < edge_cost(points, tour, k, candidates[e])
                    };
                let b = choose|b: int|
                    {
                        &&& 0 <= b < upto
                        &&& #[trigger] is_open(placed, candidates, b)
                        &&& d.point == candidates[b]
                        &&& d.edge == k
                        &&& d.cost == edge_cost(points, tour, k, candidates[b])
                        &&& best matches Some(w) ==> d.cost < w.cost
                        &&& forall|e: int|
                            0 <= e < b && #[trigger] is_open(placed, candidates, e) ==> d.cost
                                < edge_cost(points, tour, k, candidates[e])
                    };
                assert(a == b);
            } else if chosen != best {
                let a = choose|a: int|
                    {
                        &&& 0 <= a < upto
                        &&& #[trigger] is_open(placed, candidates, a)
                        &&& c.point == candidates[a]
                        &&& c.edge == k
                        &&& c.cost == edge_cost(points, tour, k, candidates[a])
                        &&& best matches Some(b) ==> c.cost < b.cost
                        &&& forall|e: int|
                            0 <= e < a && #[trigger] is_open(placed, candidates, e) ==> c.cost
                                < edge_cost(points, tour, k, candidates[e])
                    };
            } else if other != best {
                let b = choose|b: int|
                    {
                        &&& 0 <= b < upto
                        &&& #[trigger] is_open(placed, candidates, b)
                        &&& d.point == candidates[b]
                        &&& d.edge == k
                        &&& d.cost == edge_cost(points, tour, k, candidates[b])
                        &&& best matches Some(w) ==> d.cost < w.cost
                        &&& forall|e: int|
                            0 <= e < b && #[trigger] is_open(placed, candidates, e) ==> d.cost
                                < edge_cost(points, tour, k, candidates[e])
                    };
            }
        },
        (Some(c), None) => {
            if chosen != best {
                let a = choose|a: int|
                    0 <= a < upto && #[trigger] is_open(placed, candidates, a) && c.point
                        == candidates[a];
            }
        },
        (None, Some(d)) => {
            if other != best {
                let b = choose|b: int|
                    0 <= b < upto && #[trigger] is_open(placed, candidates, b) && d.point
                        == candidates[b];
            }
        },
        (None, None) => {},
    }
}

/// The offers as sequences.
pub open spec fn lists(offers: Seq<Vec<usize>>) -> Seq<Seq<usize>> {
    Seq::new(offers.len(), |j: int| offers[j]@)
}

/// Which points a tour has placed, of `n` points.
pub open spec fn marks_of(tour: Seq<usize>, n: nat) -> Seq<bool> {
    Seq::new(n, |v: int| tour.contains(v as usize))
}

/// The best insertion after the first `upto` offers were weighed, each
/// for its sampled edge: offer `j` is for the edge at position
/// `j * step`, and an offer for an edge that the tour does not have
/// counts for nothing.
pub open spec fn best_offer(
    points: Seq<Point>,
    tour: Seq<usize>,
    step: int,
    offers: Seq<Seq<usize>>,
    upto: int,
) -> Option<Insertion>
    decreases upto,
{
    if upto <= 0 {
        None
    } else if (upto - 1) * step >= tour.len() {
        best_offer(points, tour, step, offers, upto - 1)
    } else {
        weigh_of(
            points,
            tour,
            marks_of(tour, points.len()),
            (upto - 1) * step,
            offers[upto - 1],
            best_offer(points, tour, step, offers, upto - 1),
        )
    }
}

/// The first index from `from` on, below `n`, that the tour does not
/// hold; `n` where it holds them all.
pub open spec fn first_missing(tour: Seq<usize>, from: int, n: int) -> int
    decreases n - from,
{
    if from >= n {
        n
    } else if !tour.contains(from as usize) {
        from
    } else {
        first_missing(tour, from + 1, n)
    }
}

/// The tour with the point of `b` put behind the start of its edge: at
/// the end where the edge is the one that closes the cycle.
pub open spec fn with_point(tour: Seq<usize>, b: Insertion) -> Seq<usize> {
    let at = (b.edge + 1) % (tour.len() as int);
    if at == 0 {
        tour.push(b.point)
    } else {
        tour.insert(at, b.point)
    }
}

/// The tour after one step of growth on the offers of the index: the
/// best insertion among the offers is made, or the first point that is
/// not placed yet is appended where nothing open was offered.
pub open spec fn grown_by(points: Seq<Point>, tour: Seq<usize>, offers: Seq<Seq<usize>>) -> Seq<
    usize,
> {
    let n = points.len() as int;
    match best_offer(points, tour, stride_of(tour.len() as int), offers, offers.len() as int) {
        Some(b) => with_point(tour, b),
        None => if first_missing(tour, 0, n) < n {
            tour.push(first_missing(tour, 0, n) as usize)
        } else {
            tour
        },
    }
}

/// The tour as it leaves a step: refined by 2-opt where its length has
/// reached a checkpoint.
pub open spec fn checkpointed(points: Seq<Point>, tour: Seq<usize>) -> Seq<usize> {
    if tour.len() % (CHECKPOINT as nat) == 0 {
        after_passes(points, tour, MAX_PASSES as nat)
    } else {
        tour
    }
}

/// `offers` is what an index over the points outside `cycle` may offer
/// for `tour`: one list for each sampled edge, none of them empty, each
/// of points outside the cycle.
pub open spec fn fair_offers(
    points: Seq<Point>,
    cycle: Seq<usize>,
    tour: Seq<usize>,
    offers: Seq<Seq<usize>>,
) -> bool {
    let step = stride_of(tour.len() as int);
    &&& offers.len() * step >= tour.len()
    &&& offers.len() == 0 || (offers.len() - 1) * step < tour.len()
    &&& forall|j: int| 0 <= j < offers.len() ==> (#[trigger] offers[j]).len() > 0
    &&& forall|j: int, a: int|
        0 <= j < offers.len() && 0 <= a < offers[j].len() ==> (#[trigger] offers[j][a])
            < points.len() && !cycle.contains(offers[j][a])
}

/// `next` is `tour` after one step of the greedy strategy, on some
/// offers that the index may have made.
pub open spec fn greedy_step(
    points: Seq<Point>,
    cycle: Seq<usize>,
    tour: Seq<usize>,
    next: Seq<usize>,
) -> bool {
    tour.len() < points.len() && exists|offers: Seq<Seq<usize>>| #[trigger]
        fair_offers(points, cycle, tour, offers) && next == checkpointed(
            points,
            grown_by(points, tour, offers),
        )
}

/// `chain` is a growth of the greedy strategy from `cycle`: it starts
/// with the cycle, and each of its tours is one step on from the tour
/// before.
pub open spec fn is_growth(points: Seq<Point>, cycle: Seq<usize>, chain: Seq<Seq<usize>>) -> bool {
    &&& chain.len() > 0
    &&& chain[0] == cycle
    &&& forall|i: int|
        0 <= i < chain.len() - 1 ==> #[trigger] greedy_step(points, cycle, chain[i], chain[i + 1])
}

/// `grown` is a complete tour that the greedy strategy grows from
/// `cycle`.
pub open spec fn greedy_grows(points: Seq<Point>, cycle: Seq<usize>, grown: Seq<usize>) -> bool {
    exists|chain: Seq<Seq<usize>>| #[trigger]
        is_growth(points, cycle, chain) && chain.last() == grown && grown.len() == points.len()
}

/// `tour` is a tour that the greedy strategy builds from `cycle`: a
/// complete tour grown from the cycle, refined by 2-opt.
pub open spec fn is_greedy_tour(points: Seq<Point>, cycle: Seq<usize>, tour: Seq<usize>) -> bool {
    exists|grown: Seq<usize>| #[trigger]
        greedy_grows(points, cycle, grown) && tour == after_passes(
            points,
            grown,
            MAX_PASSES as nat,
        )
}

/// The index holds every point that is not placed yet.
pub open spec fn holds_the_rest(placed: Seq<bool>, entries: Map<usize, (u32, u32)>) -> bool {
    forall|k: usize| k < placed.len() && !placed[k as int] ==> #[trigger] entries.contains_key(k)
}

/// The index holds no point of the cycle.
pub open spec fn holds_none_of(cycle: Seq<usize>, entries: Map<usize, (u32, u32)>) -> bool {
    forall|k: usize| #[trigger] entries.contains_key(k) ==> !cycle.contains(k)
}

/// The tour holds distinct point indices, and `placed` marks exactly
/// those.
pub open spec fn marks_tour(tour: Seq<usize>, placed: Seq<bool>) -> bool {
    &&& indices_below(tour, placed.len())
    &&& tour.no_duplicates()
    &&& forall|v: int| 0 <= v < placed.len() ==> (#[trigger] placed[v] <==> tour.contains(v as usize))
}

/// The first index that a tour does not hold is the one behind a run of
/// indices that it holds.
pub proof fn lemma_first_missing(tour: Seq<usize>, from: int, first: int, n: int)
    requires
        0 <= from <= first <= n,
        forall|v: int| from <= v < first ==> #[trigger] marks_of(tour, n as nat)[v],
        first == n || !tour.contains(first as usize),
    ensures
        first_missing(tour, from, n) == first,
    decreases first - from,
{
    if from < first {
        assert(marks_of(tour, n as nat)[from]);
        lemma_first_missing(tour, from + 1, first, n);
    }
}

/// What one step has placed: which point, and whether on an offer of
/// the index.
#[derive(Clone, Copy, Debug)]
pub struct Placement {
    pub point: usize,
    pub offered: bool,
}

/// One step of growth: weighs the offers of the index, one list for
/// each sampled edge in order, and makes the best insertion among them,
/// or appends the first point that is not placed yet where nothing open
/// was offered. Nothing is placed where every point is.
pub fn place_next(
    points: &Vec<Point>,
    tour: &mut Vec<usize>,
    placed: &mut Vec<bool>,
    offers: &Vec<Vec<usize>>,
) -> (put: Option<Placement>)
    requires
        old(placed)@.len() == points@.len(),
        marks_tour(old(tour)@, old(placed)@),
    ensures
        final(tour)@ == grown_by(points@, old(tour)@, lists(offers@)),
        final(placed)@.len() == points@.len(),
        marks_tour(final(tour)@, final(placed)@),
        put is None <==> final(tour)@ == old(tour)@,
        put is None ==> old(tour)@.len() == points@.len(),
        put matches Some(p) ==> {
            &&& p.point < points@.len()
            &&& !old(placed)@[p.point as int]
            &&& final(placed)@ == old(placed)@.update(p.point as int, true)
            &&& final(tour)@.len() == old(tour)@.len() + 1
            &&& p.offered == (best_offer(
                points@,
                old(tour)@,
                stride_of(old(tour)@.len() as int),
                lists(offers@),
                offers@.len() as int,
            ) is Some)
        },
{
    let n: usize = points.len();
    let len: usize = tour.len();
    let step: usize = stride(len);
    let ghost before = tour@;
    let ghost marks = placed@;
    proof {
        assert(placed@ =~= marks_of(tour@, n as nat));
        lemma_distinct_fit(tour@, n as nat);
    }
    let mut best: Option<Insertion> = None;
    let mut j: usize = 0;
    while j < offers.len()
        invariant
            j <= offers@.len(),
            n == points@.len(),
            len == tour@.len(),
            tour@ == before,
            placed@ == marks,
            marks == marks_of(before, n as nat),
            marks_tour(before, marks),
            1 <= step <= MAX_STRIDE,
            step == stride_of(len as int),
            best == best_offer(points@, before, step as int, lists(offers@), j as int),
            best matches Some(b) ==> b.point < n && !marks[b.point as int] && b.edge < len,
        decreases offers@.len() - j,
    {
        assert(j * step <= 0xFFFF_FFFF_FFFF_FFFF * 8) by (nonlinear_arith)
            requires
                0 <= j <= 0xFFFF_FFFF_FFFF_FFFF,
                1 <= step <= 8,
        ;
        let k: u128 = (j as u128) * (step as u128);
        if k < len as u128 {
            let ghost was = best;
            best = weigh_candidates(points, tour, placed, k as usize, &offers[j], best);
            proof {
                lemma_weighed_once(points@, before, marks, k as int, offers@[j as int]@, was, best);
                assert(lists(offers@)[j as int] == offers@[j as int]@);
            }
        }
        j = j + 1;
    }
    match best {
        Some(b) => {
            let at: usize = (b.edge + 1) % len;
            proof {
                lemma_insert_fresh(
                    before,
                    if at == 0 {
                        len as int
                    } else {
                        at as int
                    },
                    b.point,
                );
                assert(before.push(b.point) =~= before.insert(len as int, b.point));
            }
            if at == 0 {
                tour.push(b.point);
            } else {
                tour.insert(at, b.point);
            }
            placed.set(b.point, true);
            proof {
                assert(tour@ != before);
            }
            Some(Placement { point: b.point, offered: true })
        },
        None => {
            let mut first: usize = 0;
            while first < n && placed[first]
                invariant
                    first <= n,
                    placed@ == marks,
                    marks.len() == n,
                    forall|v: int| 0 <= v < first ==> marks[v],
                decreases n - first,
            {
                first = first + 1;
            }
            proof {
                lemma_first_missing(before, 0, first as int, n as int);
            }
            if first < n {
                proof {
                    lemma_insert_fresh(before, len as int, first);
                    assert(before.push(first) =~= before.insert(len as int, first));
                }
                tour.push(first);
                placed.set(first, true);
                proof {
                    assert(tour@ != before);
                }
                Some(Placement { point: first, offered: false })
            } else {
                proof {
                    assert forall|v: usize| v < n implies before.contains(v) by {
                        assert(marks[v as int]);
                    }
                    lemma_covering_is_permutation(before, n as nat);
                }
                None
            }
        },
    }
}

impl TourStrategy for GreedyStrategy {
    /// The greedy strategy takes the point sets that its index can
    /// hold: fewer than `MAX_LEAVES` points, no line of the grid
    /// crowded. It takes any boundary that fits them, an empty one too.
    open spec fn accepts(&self, points: Seq<Point>, hull: Seq<Point>) -> bool {
        points.len() < MAX_LEAVES && !crowded_points(points)
    }

    /// Grows the hull cycle until every point is placed: each step
    /// samples the tour's edges, asks the index for the points nearest
    /// to each sampled edge's middle and makes the cheapest insertion
    /// among them, or appends the first point left where none was
    /// offered. The tour is refined by 2-opt at each checkpoint and at
    /// the end.
    fn build_tour(&self, points: &Vec<Point>, hull_points: &Vec<Point>) -> (tour: Vec<usize>)
        ensures
            hull_cycle(points@, hull_points@).len() == points@.len() ==> tour@ == after_passes(
                points@,
                hull_cycle(points@, hull_points@),
                MAX_PASSES as nat,
            ),
            is_greedy_tour(points@, hull_cycle(points@, hull_points@), tour@),
    {
        let n: usize = points.len();
        let mut tour: Vec<usize> = match seed_cycle(points, hull_points) {
            Some(cycle) => cycle,
            None => Vec::new(),
        };
        let ghost cycle = tour@;
        proof {
            lemma_hull_cycle_below(points@, hull_points@);
        }
        let mut in_tour: Vec<bool> = vec![false; n];
        let mut k: usize = 0;
        while k < tour.len()
            invariant
                k <= tour@.len(),
                tour@ == cycle,
                in_tour@.len() == n,
                indices_below(tour@, n as nat),
                forall|v: int|
                    0 <= v < n ==> (#[trigger] in_tour@[v] <==> exists|a: int|
                        0 <= a < k && tour@[a] == v),
            decreases tour@.len() - k,
        {
            in_tour.set(tour[k], true);
            k = k + 1;
        }
        assert(marks_tour(tour@, in_tour@)) by {
            assert forall|v: int| 0 <= v < n implies (#[trigger] in_tour@[v] <==> tour@.contains(
                v as usize,
            )) by {
                if in_tour@[v] {
                    let a = choose|a: int| 0 <= a < tour@.len() && tour@[a] == v;
                    assert(tour@[a] == v as usize);
                }
                if tour@.contains(v as usize) {
                    let a = choose|a: int| 0 <= a < tour@.len() && tour@[a] == v as usize;
                    assert(tour@[a] == v);
                }
            }
        }
        proof {
            lemma_distinct_fit(tour@, n as nat);
        }
        let mut tree: PointIndex = index_with_capacity(n);
        let mut v: usize = 0;
        while v < n
            invariant
                v <= n,
                n == points@.len(),
                n < MAX_LEAVES,
                !crowded_points(points@),
                in_tour@.len() == n,
                marks_tour(cycle, in_tour@),
                entries_of(points@, index_entries(tree)),
                holds_none_of(cycle, index_entries(tree)),
                forall|k: usize| #[trigger] index_entries(tree).contains_key(k) ==> k < v,
                forall|k: usize|
                    k < v && !in_tour@[k as int] ==> #[trigger] index_entries(tree).contains_key(k),
                index_spare(tree) >= MAX_LEAVES - 1 - v,
            decreases n - v,
        {
            if !in_tour[v] {
                proof {
                    lemma_entries_not_crowded(points@, index_entries(tree));
                }
                index_add(&mut tree, points[v], v);
            }
            v = v + 1;
        }
        let ghost mut chain: Seq<Seq<usize>> = seq![cycle];
        while tour.len() < n
            invariant
                n == points@.len(),
                n < MAX_LEAVES,
                in_tour@.len() == n,
                tour@.len() <= n,
                marks_tour(tour@, in_tour@),
                entries_of(points@, index_entries(tree)),
                holds_the_rest(in_tour@, index_entries(tree)),
                holds_none_of(cycle, index_entries(tree)),
                is_growth(points@, cycle, chain),
                chain.last() == tour@,
                cycle.len() <= tour@.len(),
                cycle.len() == n ==> tour@ == cycle,
            decreases n - tour@.len(),
        {
            let len: usize = tour.len();
            let step: usize = stride(len);
            let qty: usize = neighbors(step);
            proof {
                if !holds_any(index_entries(tree)) {
                    assert forall|v: usize| v < n implies tour@.contains(v) by {
                        if !in_tour@[v as int] {
                            assert(index_entries(tree).contains_key(v));
                        }
                    }
                    lemma_covering_is_permutation(tour@, n as nat);
                }
            }
            let mut offers: Vec<Vec<usize>> = Vec::new();
            let mut k: usize = 0;
            assert(offers@.len() * step == 0) by (nonlinear_arith)
                requires
                    offers@.len() == 0,
            ;
            while k < len
                invariant
                    n == points@.len(),
                    n < MAX_LEAVES,
                    len == tour@.len(),
                    len < n,
                    1 <= step <= MAX_STRIDE,
                    0 < qty <= FAR_NEIGHBORS,
                    indices_below(tour@, n as nat),
                    holds_any(index_entries(tree)),
                    k == offers@.len() * step,
                    k < len + MAX_STRIDE,
                    offers@.len() == 0 || (offers@.len() - 1) * step < len,
                    forall|j: int| 0 <= j < offers@.len() ==> (#[trigger] offers@[j])@.len() > 0,
                    forall|j: int, a: int|
                        0 <= j < offers@.len() && 0 <= a < offers@[j]@.len()
                            ==> index_entries(tree).contains_key(#[trigger] offers@[j]@[a]),
                decreases len + MAX_STRIDE - k,
            {
                let middle: Point = midpoint(points[tour[k]], points[tour[(k + 1) % len]]);
                let near: Vec<usize> = index_nearest(&tree, middle, qty);
                proof {
                    assert((offers@.len() + 1) * step == offers@.len() * step + step)
                        by (nonlinear_arith);
                }
                offers.push(near);
                k = k + step;
            }
            let ghost before = tour@;
            let ghost given = lists(offers@);
            proof {
                assert forall|j: int, a: int|
                    0 <= j < given.len() && 0 <= a < given[j].len() implies (#[trigger] given[j][a])
                    < n && !cycle.contains(given[j][a]) by {
                    assert(index_entries(tree).contains_key(offers@[j]@[a]));
                }
                assert forall|j: int| 0 <= j < given.len() implies (#[trigger] given[j]).len()
                    > 0 by {
                    assert(offers@[j]@.len() > 0);
                }
                assert(fair_offers(points@, cycle, before, given));
            }
            let put: Option<Placement> = place_next(points, &mut tour, &mut in_tour, &offers);
            match put {
                Some(p) => {
                    if p.offered {
                        let own: Vec<usize> = index_nearest(&tree, points[p.point], 1);
                        let mut a: usize = 0;
                        while a < own.len()
                            invariant
                                a <= own@.len(),
                                p.point < n,
                                n == points@.len(),
                                in_tour@.len() == n,
                                in_tour@[p.point as int],
                                entries_of(points@, index_entries(tree)),
                                holds_the_rest(in_tour@, index_entries(tree)),
                                holds_none_of(cycle, index_entries(tree)),
                            decreases own@.len() - a,
                        {
                            if own[a] == p.point {
                                let ghost held = index_entries(tree);
                                index_remove(&mut tree, points[p.point], p.point);
                                proof {
                                    lemma_entries_taken(points@, held, index_entries(tree));
                                    assert forall|k: usize| #[trigger]
                                        index_entries(tree).contains_key(k) implies !cycle.contains(
                                        k,
                                    ) by {
                                        assert(held.contains_key(k));
                                    }
                                }
                                a = own.len();
                            } else {
                                a = a + 1;
                            }
                        }
                    } else {
                        let ghost held = index_entries(tree);
                        index_remove(&mut tree, points[p.point], p.point);
                        proof {
                            lemma_entries_taken(points@, held, index_entries(tree));
                            assert forall|k: usize| #[trigger]
                                index_entries(tree).contains_key(k) implies !cycle.contains(k) by {
                                assert(held.contains_key(k));
                            }
                        }
                    }
                },
                None => {},
            }
            let ghost placed_tour = tour@;
            if tour.len() % CHECKPOINT == 0 {
                two_opt(points.as_slice(), &mut tour);
                proof {
                    lemma_rearranged(placed_tour, tour@);
                }
            }
            proof {
                assert(tour@ == checkpointed(points@, grown_by(points@, before, given)));
                assert(greedy_step(points@, cycle, before, tour@));
                let longer = chain.push(tour@);
                assert forall|i: int| 0 <= i < longer.len() - 1 implies #[trigger] greedy_step(
                    points@,
                    cycle,
                    longer[i],
                    longer[i + 1],
                ) by {
                    if i < chain.len() - 1 {
                        assert(greedy_step(points@, cycle, chain[i], chain[i + 1]));
                    }
                }
                chain = longer;
            }
        }
        let ghost grown = tour@;
        two_opt(points.as_slice(), &mut tour);
        proof {
            lemma_rearranged(grown, tour@);
            assert(is_permutation(grown, n as nat));
            assert(greedy_grows(points@, cycle, grown));
            assert(is_greedy_tour(points@, cycle, tour@));
        }
        tour
    }
}

} // verus!
