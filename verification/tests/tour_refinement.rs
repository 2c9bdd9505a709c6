use tsp_art::geometry::{distance, insertion_cost, Point};
use tsp_art::sweep::{two_opt_sequential, two_opt_sweep};
use tsp_art::two_opt::{
    best_swap_in_rows, gain_at, reverse_stretch, rows_per_task, two_opt, two_opt_pass,
};

fn pt(x: u32, y: u32) -> Point {
    Point { x, y }
}

fn length(points: &[Point], tour: &[usize]) -> u128 {
    let n = tour.len();
    (0..n).map(|k| distance(points[tour[k]], points[tour[(k + 1) % n]])).sum()
}

fn crossed_square() -> (Vec<Point>, Vec<usize>) {
    (vec![pt(0, 0), pt(10, 10), pt(10, 0), pt(0, 10)], vec![0, 1, 2, 3])
}

fn scattered(n: usize) -> Vec<Point> {
    let mut state: u64 = 0x2545_F491_4F6C_DD1D;
    let mut points = Vec::new();
    for _ in 0..n {
        state = state.wrapping_mul(6364136223846793005).wrapping_add(1442695040888963407);
        let x = ((state >> 33) % 100_000) as u32;
        state = state.wrapping_mul(6364136223846793005).wrapping_add(1442695040888963407);
        let y = ((state >> 33) % 100_000) as u32;
        points.push(pt(x, y));
    }
    points
}

#[test]
fn distance_is_the_squared_euclidean_distance() {
    assert_eq!(distance(pt(0, 0), pt(3, 4)), 25);
    assert_eq!(distance(pt(3, 4), pt(0, 0)), 25);
    assert_eq!(distance(pt(7, 7), pt(7, 7)), 0);
    assert_eq!(
        distance(pt(0, 0), pt(u32::MAX, u32::MAX)),
        2 * (u32::MAX as u128) * (u32::MAX as u128)
    );
}

#[test]
fn insertion_cost_is_the_detour_in_squared_distances() {
    assert_eq!(insertion_cost(pt(0, 0), pt(5, 5), pt(10, 0)), 50 + 50 - 100);
    assert_eq!(insertion_cost(pt(0, 0), pt(5, 0), pt(10, 0)), 25 + 25 - 100);
    assert_eq!(insertion_cost(pt(0, 0), pt(0, 10), pt(10, 0)), 100 + 200 - 100);
}

#[test]
fn reverse_stretch_reverses_the_stretch_only() {
    let mut tour = vec![10, 11, 12, 13, 14, 15];
    reverse_stretch(&mut tour, 1, 4);
    assert_eq!(tour, vec![10, 14, 13, 12, 11, 15]);
    reverse_stretch(&mut tour, 2, 2);
    assert_eq!(tour, vec![10, 14, 13, 12, 11, 15]);
    reverse_stretch(&mut tour, 0, 5);
    assert_eq!(tour, vec![15, 11, 12, 13, 14, 10]);
}

#[test]
fn gain_of_uncrossing_a_square() {
    let (points, tour) = crossed_square();
    assert_eq!(gain_at(&points, &tour, 0, 2), 200);
    assert_eq!(gain_at(&points, &tour, 1, 3), 0);
}

#[test]
fn search_finds_the_best_move_and_the_first_among_equals() {
    let (points, tour) = crossed_square();
    let found = best_swap_in_rows(&points, &tour, 0, 4).unwrap();
    assert_eq!((found.i, found.j, found.gain), (0, 2, 200));
    assert!(best_swap_in_rows(&points, &tour, 1, 3).is_none());
    assert!(best_swap_in_rows(&points, &tour, 9, 3).is_none());
}

#[test]
fn two_opt_uncrosses_a_square() {
    let (points, mut tour) = crossed_square();
    assert_eq!(length(&points, &tour), 600);
    two_opt(&points, &mut tour);
    assert_eq!(tour, vec![0, 2, 1, 3]);
    assert_eq!(length(&points, &tour), 400);
}

#[test]
fn one_pass_makes_one_move_whatever_the_run_length() {
    for rows in [0usize, 1, 2, 3, 100] {
        let (points, mut tour) = crossed_square();
        assert!(two_opt_pass(&points, &mut tour, rows));
        assert_eq!(tour, vec![0, 2, 1, 3]);
        assert!(!two_opt_pass(&points, &mut tour, rows));
        assert_eq!(tour, vec![0, 2, 1, 3]);
    }
}

#[test]
fn a_pass_gives_the_same_tour_for_every_split_of_the_rows() {
    let points = scattered(60);
    let start: Vec<usize> = (0..60).collect();
    let mut expected = start.clone();
    two_opt_pass(&points, &mut expected, 1000);
    for rows in [1usize, 2, 7, 13, 59, 60] {
        let mut tour = start.clone();
        two_opt_pass(&points, &mut tour, rows);
        assert_eq!(tour, expected);
    }
}

#[test]
fn two_opt_never_lengthens_and_keeps_the_permutation() {
    let points = scattered(80);
    let mut tour: Vec<usize> = (0..80).collect();
    let mut before = length(&points, &tour);
    for _ in 0..6 {
        two_opt(&points, &mut tour);
        let after = length(&points, &tour);
        assert!(after <= before);
        before = after;
        let mut sorted = tour.clone();
        sorted.sort();
        assert_eq!(sorted, (0..80).collect::<Vec<usize>>());
    }
}

#[test]
fn two_opt_leaves_a_locally_optimal_tour_unchanged() {
    let points = scattered(40);
    let mut tour: Vec<usize> = (0..40).collect();
    loop {
        let before = tour.clone();
        two_opt(&points, &mut tour);
        if tour == before {
            break;
        }
    }
    let settled = tour.clone();
    two_opt(&points, &mut tour);
    assert_eq!(tour, settled);
    two_opt_sequential(&points, &mut tour);
    assert_eq!(tour, settled);
    assert!(!two_opt_sweep(&points, &mut tour));
}

#[test]
fn two_opt_handles_the_shortest_tours() {
    let points = vec![pt(1, 1), pt(5, 5), pt(9, 1)];
    let mut empty: Vec<usize> = Vec::new();
    two_opt(&points, &mut empty);
    assert!(empty.is_empty());
    let mut one = vec![0];
    two_opt(&points, &mut one);
    assert_eq!(one, vec![0]);
    let mut two = vec![1, 0];
    two_opt_sequential(&points, &mut two);
    assert_eq!(two, vec![1, 0]);
    let mut three = vec![2, 0, 1];
    two_opt(&points, &mut three);
    assert_eq!(three, vec![2, 0, 1]);
}

#[test]
fn a_sweep_applies_each_move_as_it_finds_it() {
    let (points, mut tour) = crossed_square();
    assert!(two_opt_sweep(&points, &mut tour));
    assert_eq!(tour, vec![0, 2, 1, 3]);
    assert!(!two_opt_sweep(&points, &mut tour));
}

#[test]
fn the_sequential_mode_never_lengthens_and_keeps_the_permutation() {
    let points = scattered(70);
    let mut tour: Vec<usize> = (0..70).rev().collect();
    let before = length(&points, &tour);
    two_opt_sequential(&points, &mut tour);
    assert!(length(&points, &tour) < before);
    let mut sorted = tour.clone();
    sorted.sort();
    assert_eq!(sorted, (0..70).collect::<Vec<usize>>());
}

#[test]
fn rows_per_task_deals_the_rows_out() {
    assert_eq!(rows_per_task(1000, 4), 250);
    assert_eq!(rows_per_task(10, 4), 25);
    assert_eq!(rows_per_task(10, 0), 100);
    assert_eq!(rows_per_task(10, 1000), 1);
}
