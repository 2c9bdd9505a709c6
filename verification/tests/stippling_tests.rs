use tsp_art::density::{position_of_pixel, DensityField, MAX_SIDE};
use tsp_art::geometry::{Point, UNITS_PER_PIXEL};
use tsp_art::sampler::{bright_pool, place_draws, sample_points, BRIGHT_ABOVE};
use tsp_art::stippling::{
    extent, normalize, pixel_span, point_in_polygon, ray_crosses, relax_cell, Stippler, WEIGHT_ONE,
};

fn p(x: u32, y: u32) -> Point {
    Point { x, y }
}

fn flat_field(width: u32, height: u32, brightness: u8) -> DensityField {
    DensityField::new(width, height, vec![brightness; (width * height) as usize]).unwrap()
}

fn square(lo: u32, hi: u32) -> Vec<Point> {
    vec![p(lo, lo), p(hi, lo), p(hi, hi), p(lo, hi)]
}

#[test]
fn a_field_wants_one_sample_for_each_pixel() {
    assert!(DensityField::new(3, 2, vec![0; 6]).is_some());
    assert!(DensityField::new(3, 2, vec![0; 5]).is_none());
    assert!(DensityField::new(3, 2, vec![0; 7]).is_none());
    assert!(DensityField::new(0, 0, Vec::new()).is_some());
    assert!(DensityField::new(MAX_SIDE + 1, 0, Vec::new()).is_none());
    assert!(DensityField::new(0, MAX_SIDE + 1, Vec::new()).is_none());
}

#[test]
fn a_field_is_read_row_by_row() {
    let field = DensityField::new(3, 2, vec![10, 20, 30, 40, 50, 60]).unwrap();
    assert_eq!(field.width(), 3);
    assert_eq!(field.height(), 2);
    assert_eq!(field.brightness(0, 0), 10);
    assert_eq!(field.brightness(2, 0), 30);
    assert_eq!(field.brightness(0, 1), 40);
    assert_eq!(field.brightness(2, 1), 60);
}

#[test]
fn pixel_under_pulls_positions_into_the_raster() {
    let field = flat_field(4, 3, 0);
    assert_eq!(field.pixel_under(p(0, 0)), (0, 0));
    assert_eq!(field.pixel_under(p(255, 256)), (0, 1));
    assert_eq!(field.pixel_under(p(3 * 256 + 200, 2 * 256 + 255)), (3, 2));
    assert_eq!(field.pixel_under(p(4 * 256, 3 * 256)), (3, 2));
    assert_eq!(field.pixel_under(p(u32::MAX, u32::MAX)), (3, 2));
}

#[test]
fn pixels_sit_on_multiples_of_the_unit() {
    assert_eq!(UNITS_PER_PIXEL, 256);
    assert_eq!(position_of_pixel(0, 0), p(0, 0));
    assert_eq!(position_of_pixel(3, 7), p(768, 1792));
    assert_eq!(position_of_pixel(MAX_SIDE, MAX_SIDE), p(MAX_SIDE * 256, MAX_SIDE * 256));
}

#[test]
fn the_pool_holds_the_pixels_above_the_threshold_row_by_row() {
    assert_eq!(BRIGHT_ABOVE, 24);
    let field = DensityField::new(3, 2, vec![24, 25, 0, 255, 24, 100]).unwrap();
    assert_eq!(bright_pool(&field), vec![(1, 0), (0, 1), (2, 1)]);
    assert!(bright_pool(&flat_field(4, 4, 24)).is_empty());
    assert_eq!(bright_pool(&flat_field(2, 2, 25)).len(), 4);
}

#[test]
fn sampling_a_white_field_gives_the_points_asked_for_inside_the_raster() {
    let field = flat_field(4, 4, 255);
    let points = sample_points(&field, 4, 42);
    assert_eq!(points.len(), 4);
    for point in &points {
        assert!(point.x < 4 * 256 && point.y < 4 * 256);
        assert_eq!(point.x % 256, 0);
        assert_eq!(point.y % 256, 0);
    }
    let run = Stippler::new(flat_field(4, 4, 255), 4, 42, 0);
    assert!(!run.wants_cells());
    let out = run.finish();
    assert_eq!(out.points, points);
    assert_eq!(out.radii, vec![0, 0, 0, 0]);
}

#[test]
fn sampling_a_dark_field_falls_back_to_every_pixel() {
    let field = flat_field(4, 4, 0);
    let points = sample_points(&field, 200, 7);
    assert_eq!(points.len(), 200);
    for point in &points {
        assert!(point.x < 4 * 256 && point.y < 4 * 256);
        assert_eq!(point.x % 256, 0);
        assert_eq!(point.y % 256, 0);
    }
    let first = points[0];
    assert!(points.iter().any(|point| *point != first));
}

#[test]
fn sampling_draws_from_the_pool_alone() {
    let mut data = vec![0u8; 20];
    data[7] = 200;
    let field = DensityField::new(5, 4, data).unwrap();
    let points = sample_points(&field, 50, 1);
    assert_eq!(points, vec![p(2 * 256, 256); 50]);
    assert!(sample_points(&field, 0, 1).is_empty());
    assert!(sample_points(&flat_field(0, 0, 0), 0, 1).is_empty());
}

#[test]
fn the_sample_is_what_the_draws_pick() {
    let field = DensityField::new(3, 2, vec![24, 25, 0, 255, 24, 100]).unwrap();
    assert_eq!(
        place_draws(&field, 4, &vec![2, 0, 0, 1]),
        vec![p(512, 256), p(256, 0), p(256, 0), p(0, 256)]
    );
    let dark = flat_field(3, 2, 0);
    assert_eq!(
        place_draws(&dark, 3, &vec![2, 1, 0, 0, 1, 1]),
        vec![p(512, 256), p(0, 0), p(256, 256)]
    );
    assert!(place_draws(&dark, 0, &Vec::new()).is_empty());
}

#[test]
fn sampling_is_the_same_for_the_same_seed() {
    let field = flat_field(16, 16, 90);
    assert_eq!(sample_points(&field, 64, 42), sample_points(&field, 64, 42));
    assert_ne!(sample_points(&field, 64, 42), sample_points(&field, 64, 43));
}

#[test]
fn a_ray_crosses_an_edge_half_open() {
    assert!(ray_crosses(p(10, 0), p(10, 10), 5, 5));
    assert!(ray_crosses(p(10, 10), p(10, 0), 5, 5));
    assert!(!ray_crosses(p(10, 0), p(10, 10), 15, 5));
    assert!(!ray_crosses(p(10, 0), p(10, 10), 10, 5));
    assert!(ray_crosses(p(10, 0), p(10, 10), 5, 0));
    assert!(!ray_crosses(p(10, 0), p(10, 10), 5, 10));
    assert!(!ray_crosses(p(0, 5), p(10, 5), 2, 5));
    assert!(ray_crosses(p(0, 0), p(10, 10), 4, 5));
    assert!(!ray_crosses(p(0, 0), p(10, 10), 5, 5));
}

#[test]
fn point_in_polygon_counts_crossings() {
    let cell = square(10, 20);
    assert!(point_in_polygon(15, 15, &cell));
    assert!(point_in_polygon(10, 10, &cell));
    assert!(!point_in_polygon(20, 15, &cell));
    assert!(!point_in_polygon(15, 20, &cell));
    assert!(!point_in_polygon(5, 15, &cell));
    assert!(!point_in_polygon(25, 15, &cell));
    assert!(!point_in_polygon(15, 15, &vec![p(10, 10), p(20, 20)]));
    assert!(!point_in_polygon(15, 15, &Vec::new()));
    let triangle = vec![p(0, 0), p(100, 0), p(0, 100)];
    assert!(point_in_polygon(10, 10, &triangle));
    assert!(!point_in_polygon(60, 60, &triangle));
}

#[test]
fn the_extent_of_a_cell_is_its_bounding_box() {
    let cell = vec![p(300, 900), p(100, 700), p(500, 40), p(260, 41)];
    assert_eq!(extent(&cell, false), (100, 500));
    assert_eq!(extent(&cell, true), (40, 900));
    assert_eq!(pixel_span(&cell, false, 10), (0, 3));
    assert_eq!(pixel_span(&cell, true, 10), (0, 5));
    assert_eq!(pixel_span(&cell, true, 3), (0, 3));
    assert_eq!(pixel_span(&vec![p(256, 256), p(512, 512)], false, 10), (1, 3));
    assert_eq!(pixel_span(&vec![p(5000, 0)], false, 4), (19, 4));
}

#[test]
fn a_point_moves_to_the_centroid_of_its_cell() {
    let field = flat_field(4, 4, 0);
    let moved = relax_cell(&field, p(0, 0), &square(128, 640));
    assert_eq!(moved.point, p(384, 384));
    assert_eq!(moved.weight, WEIGHT_ONE);
    assert_eq!(moved.count, 4);
}

#[test]
fn the_centroid_is_weighted_by_ink() {
    let mut data = vec![0u8; 16];
    data[5] = 255;
    let field = DensityField::new(4, 4, data).unwrap();
    let moved = relax_cell(&field, p(0, 0), &square(128, 640));
    assert_eq!(moved.point, p(426, 426));
    assert_eq!(moved.weight, 49152);
    assert_eq!(moved.count, 4);
    let mut grey = vec![0u8; 16];
    grey[5] = 155;
    grey[6] = 55;
    let field = DensityField::new(4, 4, grey).unwrap();
    let flat = vec![p(128, 128), p(640, 128), p(640, 384), p(128, 384)];
    let moved = relax_cell(&field, p(0, 0), &flat);
    assert_eq!(moved.point, p((100 + 2 * 200) * 256 / 300, 256));
    assert_eq!(moved.weight, 300 * 65536 / (255 * 2));
    assert_eq!(moved.count, 2);
}

#[test]
fn a_cell_without_pixels_or_ink_leaves_its_point() {
    let dark = flat_field(4, 4, 0);
    let white = flat_field(4, 4, 255);
    let here = p(77, 99);
    let unmoved = relax_cell(&dark, here, &Vec::new());
    assert_eq!((unmoved.point, unmoved.weight, unmoved.count), (here, 0, 0));
    let unmoved = relax_cell(&white, here, &square(128, 640));
    assert_eq!((unmoved.point, unmoved.weight, unmoved.count), (here, 0, 0));
    let unmoved = relax_cell(&dark, here, &square(300, 500));
    assert_eq!((unmoved.point, unmoved.weight, unmoved.count), (here, 0, 0));
    let unmoved = relax_cell(&dark, here, &square(5000, 6000));
    assert_eq!((unmoved.point, unmoved.weight, unmoved.count), (here, 0, 0));
    let unmoved = relax_cell(&dark, here, &vec![p(0, 0), p(900, 900)]);
    assert_eq!((unmoved.point, unmoved.weight, unmoved.count), (here, 0, 0));
}

#[test]
fn weights_are_shares_of_the_greatest() {
    assert_eq!(normalize(&vec![10, 40, 0, 20], 40), vec![16384, 65536, 0, 32768]);
    assert_eq!(normalize(&vec![0, 0, 0], 0), vec![0, 0, 0]);
    assert_eq!(normalize(&vec![1, 3], 3), vec![21845, 65536]);
    assert_eq!(normalize(&vec![WEIGHT_ONE], WEIGHT_ONE), vec![WEIGHT_ONE]);
    assert!(normalize(&Vec::new(), 0).is_empty());
}

#[test]
fn a_run_relaxes_all_points_at_once_and_normalizes_at_the_end() {
    let mut data = vec![0u8; 64];
    for x in 4..8 {
        for y in 0..8 {
            data[y * 8 + x] = 255;
        }
    }
    for y in 0..8 {
        data[y * 8 + 2] = 128;
    }
    let field = DensityField::new(8, 8, data).unwrap();
    let mut run = Stippler::new(field, 3, 5, 2);
    assert!(run.wants_cells());
    assert_eq!(run.current_points().len(), 3);
    let left = vec![p(0, 0), p(640, 0), p(640, 2048), p(0, 2048)];
    let middle = vec![p(640, 0), p(900, 0), p(900, 2048), p(640, 2048)];
    let right = vec![p(900, 0), p(2048, 0), p(2048, 2048), p(900, 2048)];
    let start = run.current_points().clone();
    run.relax(&vec![left.clone(), middle.clone(), right.clone()]);
    assert!(run.wants_cells());
    let after = run.current_points().clone();
    assert_eq!(after[0], p((255 + 2 * 127) * 256 / (2 * 255 + 127), 3 * 256 + 128));
    assert_eq!(after[1], p(3 * 256, 3 * 256 + 128));
    assert_eq!(after[2], start[2]);
    run.relax(&vec![left, middle, right]);
    assert!(!run.wants_cells());
    assert_eq!(run.current_points(), &after);
    let out = run.finish();
    assert_eq!(out.points, after);
    let first = ((2 * 255 + 127) * 8 * 65536u64 / (255 * 24)) as u32;
    assert_eq!(out.radii, vec![first, WEIGHT_ONE, 0]);
    assert!(out.radii.iter().all(|r| *r <= WEIGHT_ONE));
}
