use tsp_art::cheapest_insertion::find_cheapest;
use tsp_art::crowding::{crowded_line, is_crowded};
use tsp_art::geometry::{distance, Point};
use tsp_art::greedy::{midpoint, neighbors, place_next, stride, weigh_candidates, Insertion};
use tsp_art::hull::{position_of, seed_cycle, unmatched_vertex};
use tsp_art::orchestrator::{plan_tour, PlanError};
use tsp_art::tour_strategy::{CheapestInsertionStrategy, GreedyStrategy, Tour, TourStrategy};

fn at(x: u32, y: u32) -> Point {
    Point { x, y }
}

fn tour_len(points: &[Point], tour: &[usize]) -> u128 {
    let n = tour.len();
    (0..n).map(|k| distance(points[tour[k]], points[tour[(k + 1) % n]])).sum()
}

fn is_permutation(tour: &[usize], n: usize) -> bool {
    let mut sorted = tour.to_vec();
    sorted.sort();
    sorted == (0..n).collect::<Vec<usize>>()
}

fn pentagon() -> Vec<Point> {
    vec![at(1000, 0), at(1951, 691), at(1588, 1809), at(412, 1809), at(49, 691)]
}

/// Four corners of a square, then points strictly inside it.
fn framed(inner: usize) -> (Vec<Point>, Vec<Point>) {
    let corners = vec![at(0, 0), at(1_000_000, 0), at(1_000_000, 1_000_000), at(0, 1_000_000)];
    let mut points = corners.clone();
    let mut state: u64 = 0x9E37_79B9_7F4A_7C15;
    for _ in 0..inner {
        state = state.wrapping_mul(6364136223846793005).wrapping_add(1442695040888963407);
        let x = 1 + ((state >> 33) % 999_998) as u32;
        state = state.wrapping_mul(6364136223846793005).wrapping_add(1442695040888963407);
        let y = 1 + ((state >> 33) % 999_998) as u32;
        points.push(at(x, y));
    }
    let mut hull = corners;
    hull.push(at(0, 0));
    (points, hull)
}

#[test]
fn position_of_finds_the_first_exact_match() {
    let points = vec![at(1, 1), at(2, 2), at(1, 1), at(3, 3)];
    assert_eq!(position_of(&points, at(1, 1)), Some(0));
    assert_eq!(position_of(&points, at(3, 3)), Some(3));
    assert_eq!(position_of(&points, at(3, 4)), None);
    assert_eq!(position_of(&Vec::new(), at(0, 0)), None);
}

#[test]
fn seed_cycle_drops_the_closing_repeat() {
    let points = vec![at(5, 5), at(0, 0), at(9, 0), at(9, 9)];
    let closed = vec![at(0, 0), at(9, 0), at(9, 9), at(0, 0)];
    assert_eq!(seed_cycle(&points, &closed), Some(vec![1, 2, 3]));
    let open = vec![at(0, 0), at(9, 0), at(9, 9)];
    assert_eq!(seed_cycle(&points, &open), Some(vec![1, 2, 3]));
    let single = vec![at(5, 5), at(5, 5)];
    assert_eq!(seed_cycle(&points, &single), Some(vec![0]));
}

#[test]
fn seed_cycle_refuses_a_boundary_that_does_not_fit() {
    let points = vec![at(5, 5), at(0, 0), at(9, 0), at(9, 9)];
    assert_eq!(seed_cycle(&points, &vec![at(0, 0), at(9, 1)]), None);
    assert_eq!(seed_cycle(&points, &Vec::new()), Some(Vec::new()));
    assert_eq!(seed_cycle(&points, &vec![at(0, 0), at(9, 0), at(0, 0), at(9, 9)]), None);
    assert_eq!(seed_cycle(&Vec::new(), &Vec::new()), Some(Vec::new()));
}

#[test]
fn unmatched_vertex_names_the_first_stray_position() {
    let points = vec![at(5, 5), at(0, 0), at(9, 0), at(9, 9)];
    assert_eq!(unmatched_vertex(&points, &vec![at(0, 0), at(9, 9), at(0, 0)]), None);
    assert_eq!(unmatched_vertex(&points, &vec![at(0, 0), at(9, 1), at(7, 7)]), Some(1));
    assert_eq!(unmatched_vertex(&points, &Vec::new()), None);
    assert_eq!(unmatched_vertex(&Vec::new(), &vec![at(0, 0)]), Some(0));
}

#[test]
fn greedy_puts_a_point_on_the_edge_that_the_index_offers_it_for() {
    let points = vec![at(0, 0), at(100, 0), at(100, 100), at(0, 100), at(50, 10)];
    let hull = vec![at(0, 0), at(100, 0), at(100, 100), at(0, 100), at(0, 0)];
    assert_eq!(GreedyStrategy.build_tour(&points, &hull), vec![0, 4, 1, 2, 3]);
    let points = vec![at(0, 0), at(100, 0), at(100, 100), at(0, 100), at(10, 50), at(50, 90)];
    assert_eq!(GreedyStrategy.build_tour(&points, &hull), vec![0, 1, 2, 5, 3, 4]);
}

#[test]
fn find_cheapest_takes_the_least_detour_and_the_first_among_equals() {
    let points = vec![at(0, 0), at(10, 0), at(10, 10), at(0, 10), at(5, 1), at(5, 9)];
    let tour = vec![0, 1, 2, 3];
    assert_eq!(find_cheapest(&points, &tour, &vec![4, 5]), Some((0, 0)));
    assert_eq!(find_cheapest(&points, &tour, &vec![5, 4]), Some((0, 2)));
    assert_eq!(find_cheapest(&points, &tour, &vec![5]), Some((0, 2)));
    assert_eq!(find_cheapest(&points, &tour, &Vec::new()), None);
    assert_eq!(find_cheapest(&points, &Vec::new(), &vec![5]), None);
}

#[test]
fn cheapest_insertion_keeps_a_convex_pentagon_in_hull_order() {
    let points = pentagon();
    let mut hull = points.clone();
    hull.push(points[0]);
    let tour = CheapestInsertionStrategy.build_tour(&points, &hull);
    assert_eq!(tour, vec![0, 1, 2, 3, 4]);
    let mut again = tour.clone();
    tsp_art::two_opt::two_opt(&points, &mut again);
    assert_eq!(again, tour);
}

#[test]
fn cheapest_insertion_places_each_point_on_its_cheapest_edge() {
    let points = vec![at(0, 0), at(100, 0), at(100, 100), at(0, 100), at(50, 10), at(90, 50)];
    let hull = vec![at(0, 0), at(100, 0), at(100, 100), at(0, 100), at(0, 0)];
    let tour = CheapestInsertionStrategy.build_tour(&points, &hull);
    assert_eq!(tour, vec![0, 4, 1, 5, 2, 3]);
}

#[test]
fn both_strategies_order_one_point() {
    let points = vec![at(7, 7)];
    let hull = vec![at(7, 7), at(7, 7)];
    assert_eq!(CheapestInsertionStrategy.build_tour(&points, &hull), vec![0]);
    assert_eq!(GreedyStrategy.build_tour(&points, &hull), vec![0]);
    assert_eq!(plan_tour(&points, &hull), Ok(vec![0]));
    assert_eq!(plan_tour(&points, &vec![at(7, 7)]), Ok(vec![0]));
}

#[test]
fn both_strategies_order_no_points() {
    let points: Vec<Point> = Vec::new();
    let hull: Vec<Point> = Vec::new();
    assert_eq!(CheapestInsertionStrategy.build_tour(&points, &hull), Vec::<usize>::new());
    assert_eq!(GreedyStrategy.build_tour(&points, &hull), Vec::<usize>::new());
}

#[test]
fn both_strategies_take_points_that_coincide() {
    let points = vec![at(3, 3), at(3, 3), at(3, 3), at(3, 3)];
    let hull = vec![at(3, 3), at(3, 3)];
    assert!(is_permutation(&CheapestInsertionStrategy.build_tour(&points, &hull), 4));
    assert!(is_permutation(&GreedyStrategy.build_tour(&points, &hull), 4));
}

#[test]
fn cheapest_insertion_returns_a_permutation() {
    let (points, hull) = framed(60);
    let tour = CheapestInsertionStrategy.build_tour(&points, &hull);
    assert!(is_permutation(&tour, points.len()));
}

#[test]
fn greedy_returns_a_permutation() {
    let (points, hull) = framed(400);
    assert!(!is_crowded(&points));
    let tour = GreedyStrategy.build_tour(&points, &hull);
    assert!(is_permutation(&tour, points.len()));
    let plain: Vec<usize> = (0..points.len()).collect();
    assert!(tour_len(&points, &tour) < tour_len(&points, &plain));
}

#[test]
fn a_tour_builder_works_by_its_strategy() {
    let (points, hull) = framed(30);
    let cheapest = Tour::new(CheapestInsertionStrategy);
    assert_eq!(
        cheapest.tour(&points, &hull),
        CheapestInsertionStrategy.build_tour(&points, &hull)
    );
    let greedy = Tour::new(GreedyStrategy);
    assert!(is_permutation(&greedy.tour(&points, &hull), points.len()));
}

#[test]
fn plan_tour_matches_cheapest_insertion_on_small_sets() {
    let (points, hull) = framed(50);
    assert_eq!(
        plan_tour(&points, &hull),
        Ok(CheapestInsertionStrategy.build_tour(&points, &hull))
    );
}

#[test]
fn plan_tour_orders_a_large_set_with_the_index() {
    let (points, hull) = framed(2100);
    assert!(!is_crowded(&points));
    let tour = plan_tour(&points, &hull).unwrap();
    assert!(is_permutation(&tour, points.len()));
}

#[test]
fn plan_tour_refuses_a_boundary_that_does_not_fit() {
    let (points, mut hull) = framed(10);
    assert_eq!(plan_tour(&points, &Vec::new()), Err(PlanError::NoBoundary));
    hull[3] = hull[1];
    assert_eq!(plan_tour(&points, &hull), Err(PlanError::RepeatedVertex));
    hull[2] = at(999_999, 0);
    assert_eq!(plan_tour(&points, &hull), Err(PlanError::StrayVertex { at: 2 }));
    hull[0] = at(1, 0);
    assert_eq!(plan_tour(&points, &hull), Err(PlanError::StrayVertex { at: 0 }));
    assert_eq!(plan_tour(&Vec::new(), &Vec::new()), Ok(Vec::new()));
}

#[test]
fn plan_tour_refuses_a_large_set_that_crowds_a_line() {
    let (mut points, hull) = framed(2100);
    for k in 0..40u32 {
        points.push(at(500_000, 1000 + 7 * k));
    }
    assert_eq!(
        plan_tour(&points, &hull),
        Err(PlanError::CrowdedLine { horizontal: false, at: 500_000 })
    );
    let (mut points, hull) = framed(2100);
    for k in 0..32u32 {
        points.push(at(1000 + 7 * k, 400_000));
    }
    assert_eq!(
        plan_tour(&points, &hull),
        Err(PlanError::CrowdedLine { horizontal: true, at: 400_000 })
    );
    points.pop();
    assert!(plan_tour(&points, &hull).is_ok());
}

#[test]
fn plan_tour_refuses_more_points_than_the_index_holds() {
    let points = vec![at(1, 1); 0x0100_0000];
    assert_eq!(plan_tour(&points, &Vec::new()), Err(PlanError::TooManyPoints));
}

#[test]
fn plan_tour_orders_a_large_set_without_a_boundary() {
    let (points, _) = framed(2100);
    let tour = plan_tour(&points, &Vec::new()).unwrap();
    assert!(is_permutation(&tour, points.len()));
}

#[test]
fn the_crowded_line_is_the_first_to_fill() {
    let mut points: Vec<Point> = Vec::new();
    for k in 0..31u32 {
        points.push(at(5, k));
        points.push(at(9, 100 + k));
    }
    assert_eq!(crowded_line(&points), None);
    points.push(at(9, 999));
    points.push(at(5, 999));
    assert_eq!(crowded_line(&points), Some((false, 9)));
    let row: Vec<Point> = (0..40).map(|k| at(3 * k, 77)).collect();
    assert_eq!(crowded_line(&row), Some((true, 77)));
}

#[test]
fn greedy_keeps_a_hull_that_holds_every_point() {
    let points = vec![at(2000, 0), at(5000, 2000), at(4000, 5000), at(1000, 5000), at(0, 2000)];
    let mut hull = points.clone();
    hull.push(points[0]);
    assert_eq!(GreedyStrategy.build_tour(&points, &hull), vec![0, 1, 2, 3, 4]);
    assert_eq!(GreedyStrategy.build_tour(&pentagon(), &pentagon()), vec![0, 1, 2, 3, 4]);
}

#[test]
fn greedy_puts_the_one_inner_point_on_its_cheapest_edge() {
    let points = vec![at(0, 0), at(4000, 0), at(4000, 4000), at(0, 4000), at(2000, 1000)];
    let hull = vec![at(0, 0), at(4000, 0), at(4000, 4000), at(0, 4000)];
    assert_eq!(GreedyStrategy.build_tour(&points, &hull), vec![0, 4, 1, 2, 3]);
}

#[test]
fn greedy_orders_points_without_a_boundary() {
    let (points, _) = framed(200);
    let tour = GreedyStrategy.build_tour(&points, &Vec::new());
    assert!(is_permutation(&tour, points.len()));
    assert_eq!(GreedyStrategy.build_tour(&vec![at(3, 4)], &Vec::new()), vec![0]);
}

#[test]
fn a_step_makes_the_best_insertion_among_the_offers() {
    let points = vec![at(0, 0), at(100, 0), at(100, 100), at(0, 100), at(50, 10), at(90, 50)];
    let start = vec![0, 1, 2, 3];
    let marks = vec![true, true, true, true, false, false];

    let (mut tour, mut placed) = (start.clone(), marks.clone());
    let offers = vec![vec![4], vec![4, 5], vec![5], vec![4]];
    let put = place_next(&points, &mut tour, &mut placed, &offers).unwrap();
    assert_eq!((put.point, put.offered), (4, true));
    assert_eq!(tour, vec![0, 4, 1, 2, 3]);
    assert_eq!(placed, vec![true, true, true, true, true, false]);

    let (mut tour, mut placed) = (start.clone(), marks.clone());
    let offers = vec![vec![], vec![5, 0, 77], vec![], vec![5]];
    let put = place_next(&points, &mut tour, &mut placed, &offers).unwrap();
    assert_eq!((put.point, put.offered), (5, true));
    assert_eq!(tour, vec![0, 1, 5, 2, 3]);

    let (mut tour, mut placed) = (start.clone(), marks.clone());
    let offers = vec![vec![], vec![], vec![], vec![4]];
    let put = place_next(&points, &mut tour, &mut placed, &offers).unwrap();
    assert_eq!((put.point, put.offered), (4, true));
    assert_eq!(tour, vec![0, 1, 2, 3, 4]);
}

#[test]
fn a_step_without_an_open_offer_appends_the_first_point_left() {
    let points = vec![at(0, 0), at(100, 0), at(100, 100), at(0, 100), at(50, 10), at(90, 50)];
    let mut tour = vec![0, 1, 5, 3];
    let mut placed = vec![true, true, false, true, false, true];
    let offers = vec![vec![0, 1], vec![], vec![5], vec![3, 9]];
    let put = place_next(&points, &mut tour, &mut placed, &offers).unwrap();
    assert_eq!((put.point, put.offered), (2, false));
    assert_eq!(tour, vec![0, 1, 5, 3, 2]);
    assert_eq!(placed, vec![true, true, true, true, false, true]);

    let mut empty: Vec<usize> = Vec::new();
    let mut none = vec![false; 6];
    let put = place_next(&points, &mut empty, &mut none, &Vec::new()).unwrap();
    assert_eq!((put.point, put.offered), (0, false));
    assert_eq!(empty, vec![0]);

    let mut full = vec![1, 0];
    let mut all = vec![true, true];
    let two = vec![at(0, 0), at(5, 5)];
    assert!(place_next(&two, &mut full, &mut all, &vec![vec![0], vec![1]]).is_none());
    assert_eq!(full, vec![1, 0]);
}

#[test]
fn crowding_counts_points_on_one_line() {
    let column = |n: u32| -> Vec<Point> { (0..n).map(|k| at(40, 10 * k)).collect() };
    assert!(!is_crowded(&column(31)));
    assert!(is_crowded(&column(32)));
    let row: Vec<Point> = (0..33).map(|k| at(3 * k, 77)).collect();
    assert!(is_crowded(&row));
    let diagonal: Vec<Point> = (0..500).map(|k| at(k, k)).collect();
    assert!(!is_crowded(&diagonal));
    assert!(!is_crowded(&Vec::new()));
}

#[test]
fn midpoint_rounds_down() {
    assert_eq!(midpoint(at(0, 0), at(10, 5)), at(5, 2));
    assert_eq!(midpoint(at(u32::MAX, u32::MAX), at(u32::MAX, 1)), at(u32::MAX, 1 << 31));
}

#[test]
fn stride_and_neighbors_follow_the_tour_length() {
    assert_eq!(stride(0), 1);
    assert_eq!(stride(255), 1);
    assert_eq!(stride(512), 2);
    assert_eq!(stride(1279), 4);
    assert_eq!(stride(1280), 5);
    assert_eq!(stride(1_000_000), 8);
    assert_eq!(neighbors(1), 4);
    assert_eq!(neighbors(4), 4);
    assert_eq!(neighbors(5), 8);
}

#[test]
fn weighing_keeps_the_cheapest_open_candidate() {
    let points = vec![at(0, 0), at(10, 0), at(5, 1), at(5, 3), at(5, 1), at(80, 80)];
    let tour = vec![0, 1];
    let placed = vec![true, true, false, false, false, true];
    let none = weigh_candidates(&points, &tour, &placed, 0, &vec![5, 9], None);
    assert!(none.is_none());
    let first = weigh_candidates(&points, &tour, &placed, 0, &vec![3, 5, 4, 2], None).unwrap();
    assert_eq!((first.point, first.edge, first.cost), (4, 0, 26 + 26 - 100));
    let kept = weigh_candidates(
        &points,
        &tour,
        &placed,
        1,
        &vec![2, 3],
        Some(Insertion { point: 4, edge: 0, cost: -48 }),
    )
    .unwrap();
    assert_eq!((kept.point, kept.edge, kept.cost), (4, 0, -48));
    let beaten = weigh_candidates(
        &points,
        &tour,
        &placed,
        1,
        &vec![3, 2],
        Some(Insertion { point: 3, edge: 0, cost: -32 }),
    )
    .unwrap();
    assert_eq!((beaten.point, beaten.edge, beaten.cost), (2, 1, -48));
}
