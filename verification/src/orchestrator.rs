//! The choice of a strategy for a point set, and the tour it builds.

use vstd::prelude::*;
use crate::cheapest_insertion::cheapest_insertion_tour;
use crate::crowding::{crowded_line, names_crowded_line};
use crate::geometry::Point;
use crate::greedy::{crowded_points, is_greedy_tour};
use crate::hull::{hull_cycle, hull_fits, seed_cycle, unmatched_vertex};
use crate::spatial_index::MAX_LEAVES;
use crate::tour::is_permutation;
use crate::tour_strategy::{CheapestInsertionStrategy, GreedyStrategy, TourStrategy};
use crate::two_opt::{MAX_PASSES, after_passes, is_refined};

verus! {

/// Point sets of more points than this are ordered by the greedy
/// strategy, the others by cheapest insertion.
pub const GREEDY_ABOVE: usize = 2048;

/// Why no tour is planned for a point set and its boundary.
#[derive(Clone, Copy, Debug, PartialEq, Eq)]
pub enum PlanError {
    /// The boundary position at place `at` is the position of no point.
    StrayVertex { at: usize },
    /// The boundary visits a point twice, beside the closing repeat.
    RepeatedVertex,
    /// There are points, few enough for cheapest insertion, and no
    /// boundary to insert them into.
    NoBoundary,
    /// The point set is too large for the spatial index.
    TooManyPoints,
    /// The point set is large, and the line `at` of the grid,
    /// horizontal or vertical, holds more points than the spatial index
    /// can tell apart.
    CrowdedLine { horizontal: bool, at: u32 },
}

/// The point set goes to the greedy strategy.
pub open spec fn takes_greedy(points: Seq<Point>) -> bool {
    points.len() > GREEDY_ABOVE
}

/// Every boundary position is the position of a point.
pub open spec fn all_matched(points: Seq<Point>, hull: Seq<Point>) -> bool {
    forall|k: int| 0 <= k < hull.len() ==> points.contains(#[trigger] hull[k])
}

/// A tour is planned for `points` and `hull`: the boundary fits, and
/// the strategy that the size of the point set calls for takes them.
pub open spec fn admits(points: Seq<Point>, hull: Seq<Point>) -> bool {
    &&& hull_fits(points, hull)
    &&& if takes_greedy(points) {
        points.len() < MAX_LEAVES && !crowded_points(points)
    } else {
        points.len() > 0 ==> hull.len() > 0
    }
}

/// `error` is why no tour is planned for `points` and `hull`: the
/// first fault in the order boundary, size, crowding.
pub open spec fn refuses(points: Seq<Point>, hull: Seq<Point>, error: PlanError) -> bool {
    match error {
        PlanError::StrayVertex { at } => {
            &&& at < hull.len()
            &&& !points.contains(hull[at as int])
            &&& forall|m: int| 0 <= m < at ==> points.contains(#[trigger] hull[m])
        },
        PlanError::RepeatedVertex => all_matched(points, hull) && !hull_cycle(
            points,
            hull,
        ).no_duplicates(),
        PlanError::NoBoundary => hull_fits(points, hull) && !takes_greedy(points) && points.len()
            > 0 && hull.len() == 0,
        PlanError::TooManyPoints => hull_fits(points, hull) && points.len() >= MAX_LEAVES,
        PlanError::CrowdedLine { horizontal, at } => {
            &&& hull_fits(points, hull)
            &&& takes_greedy(points)
            &&& points.len() < MAX_LEAVES
            &&& names_crowded_line(points, horizontal, at)
        },
    }
}

/// Orders `points` into one closed tour seeded from the boundary
/// `hull_points`: by the greedy strategy where there are more than
/// `GREEDY_ABOVE` points, by cheapest insertion else. Where the
/// boundary does not fit the points, or the strategy cannot take them,
/// the fault is handed back in place of a tour.
pub fn plan_tour(points: &Vec<Point>, hull_points: &Vec<Point>) -> (plan: Result<
    Vec<usize>,
    PlanError,
>)
    ensures
        plan is Ok <==> admits(points@, hull_points@),
        plan matches Err(error) ==> refuses(points@, hull_points@, error),
        plan matches Ok(tour) ==> is_permutation(tour@, points@.len()) && is_refined(
            points@,
            tour@,
        ),
        plan matches Ok(tour) ==> !takes_greedy(points@) ==> tour@ == cheapest_insertion_tour(
            points@,
            hull_points@,
        ),
        plan matches Ok(tour) ==> takes_greedy(points@) ==> is_greedy_tour(
            points@,
            hull_cycle(points@, hull_points@),
            tour@,
        ),
        plan matches Ok(tour) ==> takes_greedy(points@) && hull_cycle(
            points@,
            hull_points@,
        ).len() == points@.len() ==> tour@ == after_passes(
            points@,
            hull_cycle(points@, hull_points@),
            MAX_PASSES as nat,
        ),
{
    match unmatched_vertex(points, hull_points) {
        Some(at) => {
            return Err(PlanError::StrayVertex { at });
        },
        None => {},
    }
    if seed_cycle(points, hull_points).is_none() {
        return Err(PlanError::RepeatedVertex);
    }
    if points.len() > GREEDY_ABOVE {
        if points.len() >= MAX_LEAVES {
            return Err(PlanError::TooManyPoints);
        }
        match crowded_line(points) {
            Some((horizontal, at)) => {
                return Err(PlanError::CrowdedLine { horizontal, at });
            },
            None => {},
        }
        let builder = GreedyStrategy;
        Ok(builder.build_tour(points, hull_points))
    } else {
        if points.len() > 0 && hull_points.len() == 0 {
            return Err(PlanError::NoBoundary);
        }
        let builder = CheapestInsertionStrategy;
        Ok(builder.build_tour(points, hull_points))
    }
}

} // verus!
