//! The strategies that order a point set into a tour, and the choice
//! between them.

use vstd::prelude::*;
use crate::geometry::Point;
use crate::hull::hull_fits;
use crate::tour::is_permutation;
use crate::two_opt::is_refined;

verus! {

/// A way to build a tour through a point set from its convex hull.
pub trait TourStrategy {
    /// The point sets, each with a boundary that fits it, that the
    /// strategy takes.
    spec fn accepts(&self, points: Seq<Point>, hull: Seq<Point>) -> bool;

    /// Orders `points` into a closed tour that starts out as the cycle
    /// of `hull_points` and is refined by 2-opt once it is complete.
    fn build_tour(&self, points: &Vec<Point>, hull_points: &Vec<Point>) -> (tour: Vec<usize>)
        requires
            self.accepts(points@, hull_points@),
            hull_fits(points@, hull_points@),
        ensures
            is_permutation(tour@, points@.len()),
            is_refined(points@, tour@),
    ;
}

/// Nearest insertion over a spatial index: quick, for large point sets.
pub struct GreedyStrategy;

/// Exhaustive cheapest insertion: cubic, for small point sets.
pub struct CheapestInsertionStrategy;

/// A tour builder that works by one strategy.
pub struct Tour<T: TourStrategy> {
    tour_strategy: T,
}

impl<T: TourStrategy> Tour<T> {
    /// The strategy that the builder works by.
    pub closed spec fn strategy(&self) -> T {
        self.tour_strategy
    }

    /// A builder that works by `tour_strategy`.
    pub fn new(tour_strategy: T) -> (builder: Self)
        ensures
            builder.strategy() == tour_strategy,
    {
        Self { tour_strategy }
    }

    /// The tour that the builder's strategy makes of `points`: what its
    /// `build_tour` hands back, unchanged.
    pub fn tour(&self, points: &Vec<Point>, hull_points: &Vec<Point>) -> (tour: Vec<usize>)
        requires
            self.strategy().accepts(points@, hull_points@),
            hull_fits(points@, hull_points@),
        ensures
            call_ensures(T::build_tour, (&self.strategy(), points, hull_points), tour),
            is_permutation(tour@, points@.len()),
            is_refined(points@, tour@),
    {
        self.tour_strategy.build_tour(points, hull_points)
    }
}

} // verus!
