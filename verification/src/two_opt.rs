//! 2-opt local search: a tour is shortened by reversing the stretch
//! between two of its edges wherever that makes the closed path shorter.

use vstd::prelude::*;
use rayon::iter::{IntoParallelRefIterator, ParallelIterator};
use crate::geometry::{Point, distance, lemma_sq_dist};
use crate::tour::{
    indices_below, is_permutation, route, tour_length, reversed_range, swap_gain,
    lemma_reversal_length, lemma_route_reversed, lemma_reversed_multiset,
    lemma_reversed_permutation,
};

verus! {

/// How many passes over the tour a refinement makes at most.
pub const MAX_PASSES: usize = 5;

/// The fewest rows of the search that one unit of parallel work takes on
/// short tours: the rows of a tour are dealt out as if it had this many.
pub const MIN_SPLIT: usize = 100;

/// A 2-opt move found by a search: reversing the stretch `i + 1 ..= j`
/// shortens the tour by `gain`.
#[derive(Clone, Copy, Debug)]
pub struct Swap {
    pub i: usize,
    pub j: usize,
    pub gain: i128,
}

/// The edge pairs that 2-opt considers on a tour of `n` entries: the
/// edges `i -> i + 1` and `j -> j + 1` share no end, and the edge that
/// closes the cycle is never paired with the first one.
pub open spec fn is_pair(n: int, i: int, j: int) -> bool {
    &&& 0 <= i
    &&& i + 2 <= j < n
    &&& !(i == 0 && j == n - 1)
}

/// What the move on the pair `(i, j)` takes off the length of `tour`.
pub open spec fn tour_gain(points: Seq<Point>, tour: Seq<usize>, i: int, j: int) -> int {
    swap_gain(route(points, tour), i, j)
}

/// No move shortens `tour`.
pub open spec fn locally_optimal(points: Seq<Point>, tour: Seq<usize>) -> bool {
    forall|i: int, j: int|
        is_pair(tour.len() as int, i, j) ==> #[trigger] tour_gain(points, tour, i, j) <= 0
}

/// `(i, j)` comes no later than `(i2, j2)` when the pairs are read row
/// by row.
pub open spec fn precedes(i: int, j: int, i2: int, j2: int) -> bool {
    i < i2 || (i == i2 && j <= j2)
}

/// `(i2, j2)` is a pair that a search has looked at once it has done the
/// rows from `lo` up to `i` and, of row `i`, the columns before `j`.
pub open spec fn scanned(lo: int, i: int, j: int, i2: int, j2: int) -> bool {
    lo <= i2 && (i2 < i || (i2 == i && j2 < j))
}

/// `(gain, i, j)` beats the pair `(i2, j2)`: it gains more, or as much
/// and comes first.
pub open spec fn beats(
    points: Seq<Point>,
    tour: Seq<usize>,
    gain: int,
    i: int,
    j: int,
    i2: int,
    j2: int,
) -> bool {
    tour_gain(points, tour, i2, j2) < gain || (tour_gain(points, tour, i2, j2) == gain && precedes(
        i,
        j,
        i2,
        j2,
    ))
}

/// `found` is the outcome of a search that has looked at the pairs
/// `scanned(lo, i, j, ..)`: nothing where none of them shortens the
/// tour, else the one that gains most, the first of those where several
/// gain as much.
pub open spec fn best_of_scanned(
    points: Seq<Point>,
    tour: Seq<usize>,
    lo: int,
    i: int,
    j: int,
    found: Option<Swap>,
) -> bool {
    let n = tour.len() as int;
    match found {
        None => forall|i2: int, j2: int|
            scanned(lo, i, j, i2, j2) && is_pair(n, i2, j2) ==> #[trigger] tour_gain(
                points,
                tour,
                i2,
                j2,
            ) <= 0,
        Some(s) => {
            &&& scanned(lo, i, j, s.i as int, s.j as int)
            &&& is_pair(n, s.i as int, s.j as int)
            &&& s.gain == tour_gain(points, tour, s.i as int, s.j as int)
            &&& s.gain > 0
            &&& forall|i2: int, j2: int|
                scanned(lo, i, j, i2, j2) && is_pair(n, i2, j2) ==> #[trigger] beats(
                    points,
                    tour,
                    s.gain as int,
                    s.i as int,
                    s.j as int,
                    i2,
                    j2,
                )
        },
    }
}

/// `found` is the outcome of a search over the rows `lo .. hi`.
pub open spec fn best_of_rows(
    points: Seq<Point>,
    tour: Seq<usize>,
    lo: int,
    hi: int,
    found: Option<Swap>,
) -> bool {
    best_of_scanned(points, tour, lo, hi, 0, found)
}

/// `(i, j)` is the move that a pass applies: it shortens the tour, no
/// pair gains more, and no pair that gains as much comes before it.
pub open spec fn is_best(points: Seq<Point>, tour: Seq<usize>, i: int, j: int) -> bool {
    &&& is_pair(tour.len() as int, i, j)
    &&& tour_gain(points, tour, i, j) > 0
    &&& forall|i2: int, j2: int|
        is_pair(tour.len() as int, i2, j2) ==> #[trigger] beats(
            points,
            tour,
            tour_gain(points, tour, i, j),
            i,
            j,
            i2,
            j2,
        )
}

/// The move that a pass applies to `tour`, if any shortens it.
pub open spec fn best_swap(points: Seq<Point>, tour: Seq<usize>) -> Option<(int, int)> {
    if exists|i: int, j: int| is_best(points, tour, i, j) {
        Some(choose|p: (int, int)| is_best(points, tour, p.0, p.1))
    } else {
        None
    }
}

/// `tour` after one pass: its best move applied, or `tour` itself where
/// no move shortens it.
pub open spec fn after_pass(points: Seq<Point>, tour: Seq<usize>) -> Seq<usize> {
    match best_swap(points, tour) {
        Some((i, j)) => reversed_range(tour, i + 1, j),
        None => tour,
    }
}

/// `tour` after at most `passes` passes, the last of them the first
/// that finds no move.
pub open spec fn after_passes(points: Seq<Point>, tour: Seq<usize>, passes: nat) -> Seq<usize>
    decreases passes,
{
    if passes == 0 || locally_optimal(points, tour) {
        tour
    } else {
        after_passes(points, after_pass(points, tour), (passes - 1) as nat)
    }
}

/// `tour` is what 2-opt makes of some tour through all of `points`.
pub open spec fn is_refined(points: Seq<Point>, tour: Seq<usize>) -> bool {
    exists|grown: Seq<usize>| #[trigger]
        is_permutation(grown, points.len()) && tour == after_passes(
            points,
            grown,
            MAX_PASSES as nat,
        )
}

/// Two moves that both qualify as the best are the same move.
pub proof fn lemma_best_unique(points: Seq<Point>, tour: Seq<usize>, i: int, j: int, i2: int, j2: int)
    requires
        is_best(points, tour, i, j),
        is_best(points, tour, i2, j2),
    ensures
        i == i2,
        j == j2,
{
    assert(beats(points, tour, tour_gain(points, tour, i, j), i, j, i2, j2));
    assert(beats(points, tour, tour_gain(points, tour, i2, j2), i2, j2, i, j));
}

/// A search over every row that found `s` fixes the pass's move.
pub proof fn lemma_found_is_best(points: Seq<Point>, tour: Seq<usize>, s: Swap)
    requires
        best_of_rows(points, tour, 0, tour.len() as int, Some(s)),
    ensures
        is_best(points, tour, s.i as int, s.j as int),
        best_swap(points, tour) == Some((s.i as int, s.j as int)),
{
    let n = tour.len() as int;
    assert forall|i2: int, j2: int| is_pair(n, i2, j2) implies #[trigger] beats(
        points,
        tour,
        tour_gain(points, tour, s.i as int, s.j as int),
        s.i as int,
        s.j as int,
        i2,
        j2,
    ) by {
        assert(scanned(0, n, 0, i2, j2));
    }
    let p = choose|p: (int, int)| is_best(points, tour, p.0, p.1);
    assert(is_best(points, tour, (s.i as int, s.j as int).0, (s.i as int, s.j as int).1));
    lemma_best_unique(points, tour, p.0, p.1, s.i as int, s.j as int);
}

/// A search over every row that found nothing shows that the tour has no
/// move left.
pub proof fn lemma_none_is_optimal(points: Seq<Point>, tour: Seq<usize>)
    requires
        best_of_rows(points, tour, 0, tour.len() as int, None),
    ensures
        locally_optimal(points, tour),
        best_swap(points, tour) == None::<(int, int)>,
{
    let n = tour.len() as int;
    assert forall|i: int, j: int| is_pair(n, i, j) implies #[trigger] tour_gain(
        points,
        tour,
        i,
        j,
    ) <= 0 by {
        assert(scanned(0, n, 0, i, j));
    }
}

/// A tour that no move shortens has no best move, and a pass leaves it
/// as it is.
pub proof fn lemma_optimal_has_no_best(points: Seq<Point>, tour: Seq<usize>)
    requires
        locally_optimal(points, tour),
    ensures
        best_swap(points, tour) == None::<(int, int)>,
        after_pass(points, tour) == tour,
{
    assert forall|i: int, j: int| !is_best(points, tour, i, j) by {
        if is_pair(tour.len() as int, i, j) {
            assert(tour_gain(points, tour, i, j) <= 0);
        }
    }
}

/// Where a search of `len` rows from row `lo` on stops, on a tour of
/// `n` entries.
pub open spec fn row_end(n: int, lo: int, len: int) -> int {
    if lo + len < n {
        lo + len
    } else {
        n
    }
}

/// Joining the outcomes of two searches over adjacent rows: the later
/// one wins only where it gains strictly more.
pub open spec fn better_of(first: Option<Swap>, second: Option<Swap>) -> Option<Swap> {
    match (first, second) {
        (Some(a), Some(b)) => if b.gain > a.gain {
            second
        } else {
            first
        },
        (None, _) => second,
        (_, None) => first,
    }
}

/// The outcomes of searches over the rows `lo .. mid` and `mid .. hi`
/// join to the outcome of a search over `lo .. hi`.
pub proof fn lemma_join_rows(
    points: Seq<Point>,
    tour: Seq<usize>,
    lo: int,
    mid: int,
    hi: int,
    first: Option<Swap>,
    second: Option<Swap>,
)
    requires
        lo <= mid <= hi,
        best_of_rows(points, tour, lo, mid, first),
        best_of_rows(points, tour, mid, hi, second),
    ensures
        best_of_rows(points, tour, lo, hi, better_of(first, second)),
{
    let n = tour.len() as int;
    match better_of(first, second) {
        None => {
            assert forall|i2: int, j2: int|
                scanned(lo, hi, 0, i2, j2) && is_pair(n, i2, j2) implies #[trigger] tour_gain(
                points,
                tour,
                i2,
                j2,
            ) <= 0 by {
                if i2 < mid {
                    assert(scanned(lo, mid, 0, i2, j2));
                } else {
                    assert(scanned(mid, hi, 0, i2, j2));
                }
            }
        },
        Some(s) => {
            assert forall|i2: int, j2: int|
                scanned(lo, hi, 0, i2, j2) && is_pair(n, i2, j2) implies #[trigger] beats(
                points,
                tour,
                s.gain as int,
                s.i as int,
                s.j as int,
                i2,
                j2,
            ) by {
                if i2 < mid {
                    assert(scanned(lo, mid, 0, i2, j2));
                    match first {
                        Some(a) => {
                            assert(beats(
                                points,
                                tour,
                                a.gain as int,
                                a.i as int,
                                a.j as int,
                                i2,
                                j2,
                            ));
                        },
                        None => {
                            assert(tour_gain(points, tour, i2, j2) <= 0);
                        },
                    }
                } else {
                    assert(scanned(mid, hi, 0, i2, j2));
                    match second {
                        Some(b) => {
                            assert(beats(
                                points,
                                tour,
                                b.gain as int,
                                b.i as int,
                                b.j as int,
                                i2,
                                j2,
                            ));
                        },
                        None => {
                            assert(tour_gain(points, tour, i2, j2) <= 0);
                        },
                    }
                }
            }
        },
    }
}

/// What the move on the pair `(i, j)` takes off the length of the tour.
pub fn gain_at(points: &[Point], tour: &Vec<usize>, i: usize, j: usize) -> (gain: i128)
    requires
        indices_below(tour@, points@.len()),
        is_pair(tour@.len() as int, i as int, j as int),
    ensures
        gain == tour_gain(points@, tour@, i as int, j as int),
{
    let n: usize = tour.len();
    let a: Point = points[tour[i]];
    let b: Point = points[tour[i + 1]];
    let c: Point = points[tour[j]];
    let d: Point = points[tour[(j + 1) % n]];
    proof {
        lemma_sq_dist(a, b);
        lemma_sq_dist(c, d);
        lemma_sq_dist(a, c);
        lemma_sq_dist(b, d);
    }
    let old_cost: i128 = (distance(a, b) as i128) + (distance(c, d) as i128);
    let new_cost: i128 = (distance(a, c) as i128) + (distance(b, d) as i128);
    old_cost - new_cost
}

/// Searches the rows `lo .. lo + len` of the pairs of `tour`, as far as
/// the tour has them, for the move that gains most.
pub fn best_swap_in_rows(points: &[Point], tour: &Vec<usize>, lo: usize, len: usize) -> (found:
    Option<Swap>)
    requires
        indices_below(tour@, points@.len()),
    ensures
        best_of_rows(
            points@,
            tour@,
            lo as int,
            row_end(tour@.len() as int, lo as int, len as int),
            found,
        ),
{
    let n: usize = tour.len();
    let hi: usize = if len < n && lo < n - len {
        lo + len
    } else {
        n
    };
    let mut best: Option<Swap> = None;
    if hi <= lo {
        return best;
    }
    let mut i: usize = lo;
    while i < hi
        invariant
            lo <= i <= hi <= n,
            n == tour@.len(),
            indices_below(tour@, points@.len()),
            best_of_scanned(points@, tour@, lo as int, i as int, 0, best),
        decreases hi - i,
    {
        if n >= 2 && i < n - 2 {
            let mut j: usize = i + 2;
            while j < n
                invariant
                    lo <= i < hi <= n,
                    i + 2 <= j <= n,
                    n == tour@.len(),
                    indices_below(tour@, points@.len()),
                    best_of_scanned(points@, tour@, lo as int, i as int, j as int, best),
                decreases n - j,
            {
                let ghost before = best;
                if !(i == 0 && j == n - 1) {
                    let gain: i128 = gain_at(points, tour, i, j);
                    if gain > 0 {
                        match best {
                            None => {
                                best = Some(Swap { i, j, gain });
                            },
                            Some(b) => {
                                if gain > b.gain {
                                    best = Some(Swap { i, j, gain });
                                }
                            },
                        }
                    }
                }
                proof {
                    lemma_scan_step(points@, tour@, lo as int, i as int, j as int, before, best);
                }
                j += 1;
            }
        }
        i += 1;
    }
    best
}

/// The pair `(i, j)` shortens the tour, and by more than what a search
/// has found before it.
pub open spec fn takes_over(
    points: Seq<Point>,
    tour: Seq<usize>,
    i: int,
    j: int,
    before: Option<Swap>,
) -> bool {
    &&& is_pair(tour.len() as int, i, j)
    &&& tour_gain(points, tour, i, j) > 0
    &&& match before {
        Some(b) => b.gain < tour_gain(points, tour, i, j),
        None => true,
    }
}

/// One more pair looked at: the outcome so far stays, or the new pair
/// takes its place where it gains strictly more.
proof fn lemma_scan_step(
    points: Seq<Point>,
    tour: Seq<usize>,
    lo: int,
    i: int,
    j: int,
    before: Option<Swap>,
    after: Option<Swap>,
)
    requires
        lo <= i,
        best_of_scanned(points, tour, lo, i, j, before),
        after == if takes_over(points, tour, i, j, before) {
            Some(Swap { i: i as usize, j: j as usize, gain: tour_gain(points, tour, i, j) as i128 })
        } else {
            before
        },
        takes_over(points, tour, i, j, before) ==> i == i as usize && j == j as usize && tour_gain(
            points,
            tour,
            i,
            j,
        ) == tour_gain(points, tour, i, j) as i128,
    ensures
        best_of_scanned(points, tour, lo, i, j + 1, after),
{
    let n = tour.len() as int;
    match after {
        None => {
            assert forall|i2: int, j2: int|
                scanned(lo, i, j + 1, i2, j2) && is_pair(n, i2, j2) implies #[trigger] tour_gain(
                points,
                tour,
                i2,
                j2,
            ) <= 0 by {
                if !(i2 == i && j2 == j) {
                    assert(scanned(lo, i, j, i2, j2));
                }
            }
        },
        Some(s) => {
            assert forall|i2: int, j2: int|
                scanned(lo, i, j + 1, i2, j2) && is_pair(n, i2, j2) implies #[trigger] beats(
                points,
                tour,
                s.gain as int,
                s.i as int,
                s.j as int,
                i2,
                j2,
            ) by {
                if !(i2 == i && j2 == j) {
                    assert(scanned(lo, i, j, i2, j2));
                    match before {
                        Some(b) => {
                            assert(beats(
                                points,
                                tour,
                                b.gain as int,
                                b.i as int,
                                b.j as int,
                                i2,
                                j2,
                            ));
                        },
                        None => {
                            assert(tour_gain(points, tour, i2, j2) <= 0);
                        },
                    }
                }
            }
        },
    }
}

/// One pass never lengthens a tour, and shortens one that has a move
/// left.
pub proof fn lemma_pass_never_lengthens(points: Seq<Point>, tour: Seq<usize>)
    ensures
        tour_length(points, after_pass(points, tour)) <= tour_length(points, tour),
        !locally_optimal(points, tour) && best_swap(points, tour) is Some ==> tour_length(
            points,
            after_pass(points, tour),
        ) < tour_length(points, tour),
{
    if let Some((i, j)) = best_swap(points, tour) {
        lemma_choice_is_best(points, tour);
        lemma_reversal_length(route(points, tour), i, j);
        lemma_route_reversed(points, tour, i + 1, j);
    }
}

/// Where a pass has a move, it is the best one.
pub proof fn lemma_choice_is_best(points: Seq<Point>, tour: Seq<usize>)
    requires
        best_swap(points, tour) is Some,
    ensures
        ({
            let p = best_swap(points, tour).unwrap();
            is_best(points, tour, p.0, p.1)
        }),
{
    let (wi, wj) = choose|i: int, j: int| is_best(points, tour, i, j);
    let w = (wi, wj);
    assert(is_best(points, tour, w.0, w.1));
}

/// One pass rearranges a tour: no entry is lost or gained, and a
/// permutation of `0..n` stays one.
pub proof fn lemma_pass_rearranges(points: Seq<Point>, tour: Seq<usize>, n: nat)
    ensures
        after_pass(points, tour).to_multiset() == tour.to_multiset(),
        after_pass(points, tour).len() == tour.len(),
        indices_below(tour, n) ==> indices_below(after_pass(points, tour), n),
        is_permutation(tour, n) ==> is_permutation(after_pass(points, tour), n),
{
    if let Some((i, j)) = best_swap(points, tour) {
        lemma_choice_is_best(points, tour);
        lemma_reversed_multiset(tour, i + 1, j);
        lemma_reversed_permutation(tour, n, i + 1, j);
    }
}

/// However many passes are made, the refined tour is a rearrangement of
/// the tour it started from, and a permutation of `0..n` stays one.
pub proof fn lemma_passes_rearrange(points: Seq<Point>, tour: Seq<usize>, passes: nat, n: nat)
    ensures
        after_passes(points, tour, passes).to_multiset() == tour.to_multiset(),
        after_passes(points, tour, passes).len() == tour.len(),
        indices_below(tour, n) ==> indices_below(after_passes(points, tour, passes), n),
        is_permutation(tour, n) ==> is_permutation(after_passes(points, tour, passes), n),
    decreases passes,
{
    if passes > 0 && !locally_optimal(points, tour) {
        lemma_pass_rearranges(points, tour, n);
        lemma_passes_rearrange(points, after_pass(points, tour), (passes - 1) as nat, n);
    }
}

/// However many passes are made, the refined tour is no longer than the
/// tour it started from.
pub proof fn lemma_passes_never_lengthen(points: Seq<Point>, tour: Seq<usize>, passes: nat)
    ensures
        tour_length(points, after_passes(points, tour, passes)) <= tour_length(points, tour),
    decreases passes,
{
    if passes > 0 && !locally_optimal(points, tour) {
        lemma_pass_never_lengthens(points, tour);
        lemma_passes_never_lengthen(points, after_pass(points, tour), (passes - 1) as nat);
    }
}

/// Refining a tour that no move shortens leaves it as it is, however
/// many passes are allowed.
pub proof fn lemma_optimum_is_fixed(points: Seq<Point>, tour: Seq<usize>, passes: nat)
    requires
        locally_optimal(points, tour),
    ensures
        after_passes(points, tour, passes) == tour,
        after_pass(points, tour) == tour,
{
    lemma_optimal_has_no_best(points, tour);
}

/// `rayon::current_num_threads`: the number of threads of the pool that
/// parallel work is handed to. Nothing is claimed of the number.
#[verifier::external_body]
fn pool_size() -> (threads: usize) {
    rayon::current_num_threads()
}

/// How many rows one unit of parallel work searches: the rows of the
/// tour, counted as `MIN_SPLIT` at least, dealt out evenly to `threads`
/// workers, and one row at least.
pub open spec fn rows_per_task_of(n: int, threads: int) -> int {
    let rows = if n > MIN_SPLIT {
        n
    } else {
        MIN_SPLIT as int
    };
    let workers = if threads > 0 {
        threads
    } else {
        1
    };
    if rows / workers > 0 {
        rows / workers
    } else {
        1
    }
}

/// How many rows one unit of parallel work searches on a tour of `n`
/// entries with `threads` workers.
pub fn rows_per_task(n: usize, threads: usize) -> (rows: usize)
    ensures
        rows == rows_per_task_of(n as int, threads as int),
        rows >= 1,
{
    let total: usize = if n > MIN_SPLIT {
        n
    } else {
        MIN_SPLIT
    };
    let workers: usize = if threads > 0 {
        threads
    } else {
        1
    };
    let share: usize = total / workers;
    if share > 0 {
        share
    } else {
        1
    }
}

/// `starts` deals the rows `0 .. n` out in runs of `len`.
spec fn deals_rows(starts: Seq<usize>, n: int, len: int) -> bool {
    &&& len >= 1
    &&& forall|k: int| 0 <= k < starts.len() ==> (#[trigger] starts[k]) < n
    &&& n > 0 ==> starts.len() > 0 && starts[0] == 0 && starts.last() + len >= n
    &&& n == 0 ==> starts.len() == 0
    &&& forall|k: int| 0 <= k < starts.len() - 1 ==> #[trigger] starts[k + 1] == starts[k] + len
}

/// The first rows of the runs of `len` rows that cover `0 .. n`.
fn task_starts(n: usize, len: usize) -> (starts: Vec<usize>)
    requires
        len >= 1,
    ensures
        deals_rows(starts@, n as int, len as int),
{
    let mut starts: Vec<usize> = Vec::new();
    if n == 0 {
        return starts;
    }
    let mut at: usize = 0;
    starts.push(at);
    while len < n && at < n - len
        invariant
            len >= 1,
            n > 0,
            at < n,
            starts@.len() > 0,
            starts@[0] == 0,
            starts@.last() == at,
            forall|k: int| 0 <= k < starts@.len() ==> (#[trigger] starts@[k]) < n,
            forall|k: int| 0 <= k < starts@.len() - 1 ==> #[trigger] starts@[k + 1] == starts@[k] + len,
        decreases n - at,
    {
        at = at + len;
        starts.push(at);
    }
    starts
}

/// `rayon`'s `par_iter`, `map` and `collect` on the starts of the runs:
/// each run of rows is searched by `best_swap_in_rows`, on whatever
/// thread, and the outcomes come back in the order of the runs.
#[verifier::external_body]
fn search_runs(points: &[Point], tour: &Vec<usize>, starts: &Vec<usize>, len: usize) -> (found:
    Vec<Option<Swap>>)
    requires
        indices_below(tour@, points@.len()),
    ensures
        found@.len() == starts@.len(),
        forall|k: int|
            0 <= k < starts@.len() ==> best_of_rows(
                points@,
                tour@,
                starts@[k] as int,
                row_end(tour@.len() as int, starts@[k] as int, len as int),
                #[trigger] found@[k],
            ),
{
    starts.par_iter().map(|&lo| best_swap_in_rows(points, tour, lo, len)).collect()
}

/// Reverses the stretch `lo ..= hi` of `tour` in place.
pub fn reverse_stretch(tour: &mut Vec<usize>, lo: usize, hi: usize)
    requires
        lo <= hi < old(tour)@.len(),
    ensures
        final(tour)@ == reversed_range(old(tour)@, lo as int, hi as int),
{
    let ghost before = tour@;
    let mut a: usize = lo;
    let mut b: usize = hi;
    while a < b
        invariant
            lo <= a,
            b <= hi,
            a + b == lo + hi,
            a <= b + 1,
            hi < before.len(),
            tour@.len() == before.len(),
            forall|k: int|
                ((lo <= k && k < a) || (b < k && k <= hi)) ==> #[trigger] tour@[k] == before[lo + hi - k],
            forall|k: int|
                0 <= k < tour@.len() && !((lo <= k && k < a) || (b < k && k <= hi)) ==> #[trigger] tour@[k]
                    == before[k],
        decreases hi - a,
    {
        let x: usize = tour[a];
        let y: usize = tour[b];
        tour.set(a, y);
        tour.set(b, x);
        a = a + 1;
        b = b - 1;
    }
    assert(tour@ =~= reversed_range(before, lo as int, hi as int));
}

/// One pass of the data-parallel refinement: the pairs are searched in
/// runs of `rows` rows, each run on its own, and the one move that gains
/// most over all of them is applied. Says whether a move was made.
pub fn two_opt_pass(points: &[Point], tour: &mut Vec<usize>, rows: usize) -> (improved: bool)
    requires
        indices_below(old(tour)@, points@.len()),
    ensures
        improved == !locally_optimal(points@, old(tour)@),
        final(tour)@ == after_pass(points@, old(tour)@),
{
    let n: usize = tour.len();
    let len: usize = if rows > 0 {
        rows
    } else {
        1
    };
    let starts: Vec<usize> = task_starts(n, len);
    let found: Vec<Option<Swap>> = search_runs(points, tour, &starts, len);
    let mut best: Option<Swap> = None;
    let mut k: usize = 0;
    while k < found.len()
        invariant
            k <= found@.len(),
            found@.len() == starts@.len(),
            n == tour@.len(),
            deals_rows(starts@, n as int, len as int),
            forall|k: int|
                0 <= k < starts@.len() ==> best_of_rows(
                    points@,
                    tour@,
                    starts@[k] as int,
                    row_end(tour@.len() as int, starts@[k] as int, len as int),
                    #[trigger] found@[k],
                ),
            best_of_rows(
                points@,
                tour@,
                0,
                if k < starts@.len() {
                    starts@[k as int] as int
                } else {
                    n as int
                },
                best,
            ),
        decreases found@.len() - k,
    {
        let ghost lo = starts@[k as int] as int;
        let ghost hi = row_end(n as int, lo, len as int);
        let ghost joined = better_of(best, found@[k as int]);
        proof {
            lemma_join_rows(points@, tour@, 0, lo, hi, best, found@[k as int]);
            if k + 1 < starts@.len() {
                assert(starts@[k + 1] == starts@[k as int] + len);
            }
        }
        match found[k] {
            Some(s) => {
                match best {
                    Some(b) => {
                        if s.gain > b.gain {
                            best = Some(s);
                        }
                    },
                    None => {
                        best = Some(s);
                    },
                }
            },
            None => {},
        }
        assert(best == joined);
        k = k + 1;
    }
    match best {
        Some(s) => {
            proof {
                lemma_found_is_best(points@, tour@, s);
                assert(!locally_optimal(points@, tour@)) by {
                    if locally_optimal(points@, tour@) {
                        assert(tour_gain(points@, tour@, s.i as int, s.j as int) <= 0);
                    }
                }
            }
            reverse_stretch(tour, s.i + 1, s.j);
            true
        },
        None => {
            proof {
                lemma_none_is_optimal(points@, tour@);
            }
            false
        },
    }
}

/// Refines `tour` by 2-opt in the data-parallel mode: at most
/// `MAX_PASSES` passes, each applying the one best move, until a pass
/// finds none. The outcome does not depend on how many threads search.
/// Gains and lengths are counted in squared edge lengths, the measure
/// of `distance`.
pub fn two_opt(points: &[Point], tour: &mut Vec<usize>)
    requires
        indices_below(old(tour)@, points@.len()),
    ensures
        final(tour)@ == after_passes(points@, old(tour)@, MAX_PASSES as nat),
        final(tour)@.to_multiset() == old(tour)@.to_multiset(),
        final(tour)@.len() == old(tour)@.len(),
        indices_below(final(tour)@, points@.len()),
        forall|n: nat| is_permutation(old(tour)@, n) ==> is_permutation(final(tour)@, n),
        tour_length(points@, final(tour)@) <= tour_length(points@, old(tour)@),
        locally_optimal(points@, old(tour)@) ==> final(tour)@ == old(tour)@,
{
    let ghost before = tour@;
    let rows: usize = rows_per_task(tour.len(), pool_size());
    let mut improved: bool = true;
    let mut pass: usize = 0;
    while improved && pass < MAX_PASSES
        invariant
            pass <= MAX_PASSES,
            indices_below(tour@, points@.len()),
            after_passes(points@, before, MAX_PASSES as nat) == if improved {
                after_passes(points@, tour@, (MAX_PASSES - pass) as nat)
            } else {
                tour@
            },
        decreases MAX_PASSES - pass,
    {
        let ghost current = tour@;
        improved = two_opt_pass(points, tour, rows);
        proof {
            lemma_pass_rearranges(points@, current, points@.len());
            if !improved {
                lemma_optimum_is_fixed(points@, current, (MAX_PASSES - pass) as nat);
            }
        }
        pass = pass + 1;
    }
    proof {
        lemma_passes_rearrange(points@, before, MAX_PASSES as nat, points@.len());
        lemma_passes_never_lengthen(points@, before, MAX_PASSES as nat);
        assert forall|n: nat| is_permutation(before, n) implies is_permutation(tour@, n) by {
            lemma_passes_rearrange(points@, before, MAX_PASSES as nat, n);
        }
        if locally_optimal(points@, before) {
            lemma_optimum_is_fixed(points@, before, MAX_PASSES as nat);
        }
    }
}

} // verus!
