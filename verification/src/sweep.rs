//! 2-opt in the sequential mode: one sweep reads the edge pairs row by
//! row and applies every move that shortens the tour as soon as it is
//! found.

use vstd::prelude::*;
use crate::geometry::Point;
use crate::tour::{
    indices_below, is_permutation, route, tour_length, reversed_range, lemma_reversal_length,
    lemma_route_reversed, lemma_reversed_multiset, lemma_reversed_permutation,
};
use crate::two_opt::{
    MAX_PASSES, is_pair, tour_gain, locally_optimal, scanned, gain_at, reverse_stretch,
};

verus! {

/// What a sweep makes of `tour` from the pair `(i, j)` on: each pair
/// that shortens the tour as it then stands is applied at once, and the
/// sweep goes on behind it.
pub open spec fn sweep_from(points: Seq<Point>, tour: Seq<usize>, i: int, j: int) -> Seq<usize>
    decreases tour.len() - i, tour.len() - j,
{
    let n = tour.len() as int;
    if i + 2 >= n {
        tour
    } else if j >= n {
        sweep_from(points, tour, i + 1, i + 3)
    } else if is_pair(n, i, j) && tour_gain(points, tour, i, j) > 0 {
        sweep_from(points, reversed_range(tour, i + 1, j), i, j + 1)
    } else {
        sweep_from(points, tour, i, j + 1)
    }
}

/// `tour` after one sweep over all its pairs.
pub open spec fn after_sweep(points: Seq<Point>, tour: Seq<usize>) -> Seq<usize> {
    sweep_from(points, tour, 0, 2)
}

/// `tour` after at most `sweeps` sweeps, the last of them the first
/// that finds no move.
pub open spec fn after_sweeps(points: Seq<Point>, tour: Seq<usize>, sweeps: nat) -> Seq<usize>
    decreases sweeps,
{
    if sweeps == 0 || locally_optimal(points, tour) {
        tour
    } else {
        after_sweeps(points, after_sweep(points, tour), (sweeps - 1) as nat)
    }
}

/// A sweep rearranges a tour and never lengthens it, from whatever pair
/// it sets out.
pub proof fn lemma_sweep_from(points: Seq<Point>, tour: Seq<usize>, i: int, j: int, n: nat)
    requires
        0 <= i,
    ensures
        sweep_from(points, tour, i, j).to_multiset() == tour.to_multiset(),
        sweep_from(points, tour, i, j).len() == tour.len(),
        indices_below(tour, n) ==> indices_below(sweep_from(points, tour, i, j), n),
        is_permutation(tour, n) ==> is_permutation(sweep_from(points, tour, i, j), n),
        tour_length(points, sweep_from(points, tour, i, j)) <= tour_length(points, tour),
    decreases tour.len() - i, tour.len() - j,
{
    let len = tour.len() as int;
    if i + 2 >= len {
    } else if j >= len {
        lemma_sweep_from(points, tour, i + 1, i + 3, n);
    } else if is_pair(len, i, j) && tour_gain(points, tour, i, j) > 0 {
        let next = reversed_range(tour, i + 1, j);
        lemma_reversed_multiset(tour, i + 1, j);
        lemma_reversed_permutation(tour, n, i + 1, j);
        lemma_reversal_length(route(points, tour), i, j);
        lemma_route_reversed(points, tour, i + 1, j);
        lemma_sweep_from(points, next, i, j + 1, n);
    } else {
        lemma_sweep_from(points, tour, i, j + 1, n);
    }
}

/// A sweep that sets out on a tour whose pairs from `(i, j)` on shorten
/// nothing leaves the tour as it is.
pub proof fn lemma_sweep_of_optimum(points: Seq<Point>, tour: Seq<usize>, i: int, j: int)
    requires
        locally_optimal(points, tour),
    ensures
        sweep_from(points, tour, i, j) == tour,
    decreases tour.len() - i, tour.len() - j,
{
    let len = tour.len() as int;
    if i + 2 >= len {
    } else if j >= len {
        lemma_sweep_of_optimum(points, tour, i + 1, i + 3);
    } else {
        if is_pair(len, i, j) {
            assert(tour_gain(points, tour, i, j) <= 0);
        }
        lemma_sweep_of_optimum(points, tour, i, j + 1);
    }
}

/// However many sweeps are made, the refined tour is a rearrangement of
/// the tour it started from and no longer than it.
pub proof fn lemma_sweeps(points: Seq<Point>, tour: Seq<usize>, sweeps: nat, n: nat)
    ensures
        after_sweeps(points, tour, sweeps).to_multiset() == tour.to_multiset(),
        after_sweeps(points, tour, sweeps).len() == tour.len(),
        indices_below(tour, n) ==> indices_below(after_sweeps(points, tour, sweeps), n),
        is_permutation(tour, n) ==> is_permutation(after_sweeps(points, tour, sweeps), n),
        tour_length(points, after_sweeps(points, tour, sweeps)) <= tour_length(points, tour),
    decreases sweeps,
{
    if sweeps > 0 && !locally_optimal(points, tour) {
        lemma_sweep_from(points, tour, 0, 2, n);
        lemma_sweeps(points, after_sweep(points, tour), (sweeps - 1) as nat, n);
    }
}

/// One sweep of the sequential refinement over `tour`. Says whether a
/// move was made.
pub fn two_opt_sweep(points: &[Point], tour: &mut Vec<usize>) -> (improved: bool)
    requires
        indices_below(old(tour)@, points@.len()),
    ensures
        final(tour)@ == after_sweep(points@, old(tour)@),
        improved == !locally_optimal(points@, old(tour)@),
        improved ==> tour_length(points@, final(tour)@) < tour_length(points@, old(tour)@),
{
    let ghost before = tour@;
    let n: usize = tour.len();
    let mut improved: bool = false;
    if n < 3 {
        proof {
            assert forall|i: int, j: int| is_pair(n as int, i, j) implies #[trigger] tour_gain(
                points@,
                before,
                i,
                j,
            ) <= 0 by {}
        }
        return improved;
    }
    let mut i: usize = 0;
    while i < n - 2
        invariant
            n >= 3,
            i <= n - 2,
            n == tour@.len(),
            indices_below(tour@, points@.len()),
            sweep_from(points@, tour@, i as int, i + 2) == after_sweep(points@, before),
            !improved ==> tour@ == before && forall|i2: int, j2: int|
                scanned(0, i as int, 0, i2, j2) && is_pair(n as int, i2, j2) ==> #[trigger] tour_gain(
                    points@,
                    before,
                    i2,
                    j2,
                ) <= 0,
            improved ==> !locally_optimal(points@, before) && tour_length(points@, tour@)
                < tour_length(points@, before),
            !improved ==> tour_length(points@, tour@) == tour_length(points@, before),
        decreases n - i,
    {
        let mut j: usize = i + 2;
        while j < n
            invariant
                n >= 3,
                i < n - 2,
                i + 2 <= j <= n,
                n == tour@.len(),
                indices_below(tour@, points@.len()),
                sweep_from(points@, tour@, i as int, j as int) == after_sweep(points@, before),
                !improved ==> tour@ == before && forall|i2: int, j2: int|
                    scanned(0, i as int, j as int, i2, j2) && is_pair(n as int, i2, j2)
                        ==> #[trigger] tour_gain(points@, before, i2, j2) <= 0,
                improved ==> !locally_optimal(points@, before) && tour_length(points@, tour@)
                    < tour_length(points@, before),
                !improved ==> tour_length(points@, tour@) == tour_length(points@, before),
            decreases n - j,
        {
            if !(i == 0 && j == n - 1) {
                let gain: i128 = gain_at(points, tour, i, j);
                if gain > 0 {
                    proof {
                        lemma_reversed_permutation(tour@, points@.len(), i + 1, j as int);
                        lemma_reversal_length(route(points@, tour@), i as int, j as int);
                        lemma_route_reversed(points@, tour@, i + 1, j as int);
                    }
                    reverse_stretch(tour, i + 1, j);
                    improved = true;
                }
            }
            j = j + 1;
        }
        i = i + 1;
    }
    proof {
        if !improved {
            assert forall|i2: int, j2: int| is_pair(n as int, i2, j2) implies #[trigger] tour_gain(
                points@,
                before,
                i2,
                j2,
            ) <= 0 by {
                assert(scanned(0, i as int, 0, i2, j2));
            }
        }
    }
    improved
}

/// Refines `tour` by 2-opt in the sequential mode: at most `MAX_PASSES`
/// sweeps, until one finds no move.
pub fn two_opt_sequential(points: &[Point], tour: &mut Vec<usize>)
    requires
        indices_below(old(tour)@, points@.len()),
    ensures
        final(tour)@ == after_sweeps(points@, old(tour)@, MAX_PASSES as nat),
        final(tour)@.to_multiset() == old(tour)@.to_multiset(),
        final(tour)@.len() == old(tour)@.len(),
        indices_below(final(tour)@, points@.len()),
        forall|n: nat| is_permutation(old(tour)@, n) ==> is_permutation(final(tour)@, n),
        tour_length(points@, final(tour)@) <= tour_length(points@, old(tour)@),
        locally_optimal(points@, old(tour)@) ==> final(tour)@ == old(tour)@,
{
    let ghost before = tour@;
    let mut improved: bool = true;
    let mut pass: usize = 0;
    while improved && pass < MAX_PASSES
        invariant
            pass <= MAX_PASSES,
            indices_below(tour@, points@.len()),
            after_sweeps(points@, before, MAX_PASSES as nat) == if improved {
                after_sweeps(points@, tour@, (MAX_PASSES - pass) as nat)
            } else {
                tour@
            },
        decreases MAX_PASSES - pass,
    {
        let ghost current = tour@;
        improved = two_opt_sweep(points, tour);
        proof {
            lemma_sweep_from(points@, current, 0, 2, points@.len());
            if !improved {
                lemma_sweep_of_optimum(points@, current, 0, 2);
            }
        }
        pass = pass + 1;
    }
    proof {
        lemma_sweeps(points@, before, MAX_PASSES as nat, points@.len());
        assert forall|n: nat| is_permutation(before, n) implies is_permutation(tour@, n) by {
            lemma_sweeps(points@, before, MAX_PASSES as nat, n);
        }
    }
}

} // verus!
