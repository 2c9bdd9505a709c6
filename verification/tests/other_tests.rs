use image::{DynamicImage, GrayImage};
use tsp_art::geometry::Point;
use tsp_art::hilbert_curve::{
    cell_of, grid_side, hilbert_distance, key_of, order_points_by_hilbert, MAX_GRID,
};
use tsp_art::image_processing::{load_and_grayscale, target_size, MAX_HEIGHT};

#[test]
fn hilbert_distance_walks_the_smallest_grid() {
    assert_eq!(hilbert_distance(0, 0, 1), 0);
    assert_eq!(hilbert_distance(0, 0, 2), 0);
    assert_eq!(hilbert_distance(0, 1, 2), 1);
    assert_eq!(hilbert_distance(1, 1, 2), 2);
    assert_eq!(hilbert_distance(1, 0, 2), 3);
}

#[test]
fn hilbert_distance_visits_every_cell_once_and_moves_by_one_step() {
    let order = [
        (0, 0), (1, 0), (1, 1), (0, 1), (0, 2), (0, 3), (1, 3), (1, 2),
        (2, 2), (2, 3), (3, 3), (3, 2), (3, 1), (2, 1), (2, 0), (3, 0),
    ];
    for (d, (x, y)) in order.iter().enumerate() {
        assert_eq!(hilbert_distance(*x, *y, 4), d as u32);
    }
    let n: u32 = 64;
    let mut cells = vec![(0u32, 0u32); (n * n) as usize];
    let mut seen = vec![false; (n * n) as usize];
    for x in 0..n {
        for y in 0..n {
            let d = hilbert_distance(x, y, n) as usize;
            assert!(!seen[d]);
            seen[d] = true;
            cells[d] = (x, y);
        }
    }
    for d in 1..cells.len() {
        let (ax, ay) = cells[d - 1];
        let (bx, by) = cells[d];
        assert_eq!(ax.abs_diff(bx) + ay.abs_diff(by), 1);
    }
}

#[test]
fn hilbert_distance_fits_the_widest_grid() {
    assert_eq!(hilbert_distance(MAX_GRID - 1, 0, MAX_GRID), u32::MAX);
    assert_eq!(hilbert_distance(0, 0, MAX_GRID), 0);
}

#[test]
fn the_grid_side_is_the_next_power_of_two() {
    assert_eq!(grid_side(0), 1);
    assert_eq!(grid_side(1), 1);
    assert_eq!(grid_side(2), 2);
    assert_eq!(grid_side(3), 4);
    assert_eq!(grid_side(1000), 1024);
    assert_eq!(grid_side(1024), 1024);
    assert_eq!(grid_side(1025), 2048);
    assert_eq!(grid_side(MAX_GRID), MAX_GRID);
}

#[test]
fn positions_fall_into_grid_cells() {
    assert_eq!(cell_of(0, 100, 128), 0);
    assert_eq!(cell_of(50 * 256, 100, 128), 64);
    assert_eq!(cell_of(100 * 256, 100, 128), 127);
    assert_eq!(cell_of(u32::MAX, 100, 128), 127);
    assert_eq!(key_of(Point { x: 0, y: 0 }, 4, 4, 4), 0);
    assert_eq!(key_of(Point { x: 3 * 256, y: 0 }, 4, 4, 4), 15);
    assert_eq!(key_of(Point { x: 2 * 256 + 255, y: 2 * 256 }, 4, 4, 4), 8);
}

#[test]
fn points_are_ordered_along_the_curve() {
    let at = |x: u32, y: u32| Point { x: x * 256, y: y * 256 };
    let points = vec![at(3, 0), at(2, 2), at(0, 0), at(0, 3), at(1, 1), at(2, 2), at(3, 3)];
    let ordered = order_points_by_hilbert(&points, 4, 4);
    assert_eq!(
        ordered,
        vec![at(0, 0), at(1, 1), at(0, 3), at(2, 2), at(2, 2), at(3, 3), at(3, 0)]
    );
    assert!(order_points_by_hilbert(&Vec::new(), 4, 4).is_empty());
}

#[test]
fn points_of_one_cell_keep_their_order() {
    let p = |x: u32, y: u32| Point { x, y };
    let points = vec![p(600, 600), p(10, 10), p(520, 700), p(0, 0), p(700, 520), p(255, 255)];
    assert_eq!(
        order_points_by_hilbert(&points, 4, 4),
        vec![p(10, 10), p(0, 0), p(255, 255), p(600, 600), p(520, 700), p(700, 520)]
    );
}

#[test]
fn the_working_size_keeps_low_images_and_scales_high_ones() {
    assert_eq!(MAX_HEIGHT, 1080);
    assert_eq!(target_size(1920, 1080), (1920, 1080));
    assert_eq!(target_size(0, 0), (0, 0));
    assert_eq!(target_size(4000, 2160), (2000, 1080));
    assert_eq!(target_size(1000, 1081), (999, 1080));
    assert_eq!(target_size(1, 5000), (0, 1080));
    assert_eq!(target_size(u32::MAX, u32::MAX), (1080, 1080));
    assert_eq!(target_size(u32::MAX, 1081), (4290994152, 1080));
}

#[test]
fn a_low_image_is_read_as_it_is() {
    let gray = GrayImage::from_raw(3, 2, vec![1, 2, 3, 4, 5, 6]).unwrap();
    let (image, field) = load_and_grayscale(DynamicImage::ImageLuma8(gray));
    assert_eq!((image.width(), image.height()), (3, 2));
    let field = field.unwrap();
    assert_eq!((field.width(), field.height()), (3, 2));
    assert_eq!(field.brightness(0, 0), 1);
    assert_eq!(field.brightness(2, 0), 3);
    assert_eq!(field.brightness(0, 1), 4);
    assert_eq!(field.brightness(2, 1), 6);
}

#[test]
fn a_high_image_is_scaled_down() {
    let gray = GrayImage::from_raw(8, 2160, vec![200; 8 * 2160]).unwrap();
    let (image, field) = load_and_grayscale(DynamicImage::ImageLuma8(gray));
    assert_eq!((image.width(), image.height()), (4, 1080));
    let field = field.unwrap();
    assert_eq!((field.width(), field.height()), (4, 1080));
    assert_eq!(field.brightness(2, 500), 200);
}

#[test]
fn a_raster_that_is_too_wide_gives_no_field() {
    let (image, field) = load_and_grayscale(DynamicImage::new_luma8(0x0100_0000, 1));
    assert_eq!((image.width(), image.height()), (0x0100_0000, 1));
    assert!(field.is_none());
    let (_, field) = load_and_grayscale(DynamicImage::new_luma8(0x00FF_FFFF, 1));
    assert!(field.is_some());
}

#[test]
fn an_image_without_pixels_gives_an_empty_field() {
    let (image, field) = load_and_grayscale(DynamicImage::new_luma8(0, 0));
    assert_eq!((image.width(), image.height()), (0, 0));
    let field = field.unwrap();
    assert_eq!((field.width(), field.height()), (0, 0));
}
