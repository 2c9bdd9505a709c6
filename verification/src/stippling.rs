//! Weighted Lloyd relaxation: each point moves to the ink-weighted
//! centroid of the pixels of its Voronoi cell.

use vstd::prelude::*;
use rayon::iter::{IndexedParallelIterator, IntoParallelRefIterator, ParallelIterator};
use crate::density::{DensityField, MAX_SIDE};
use crate::geometry::{Point, UNITS_PER_PIXEL, coordinate};
use crate::sampler::{drawn_from, is_sample, sample_points};

verus! {

/// The weight that stands for 1: weights are counted in this many parts.
pub const WEIGHT_ONE: u32 = 0x1_0000;

/// The ink of the brightest pixel is 0, that of the darkest this much.
pub const FULL_INK: u32 = 255;

/// The ray that runs from `(x, y)` to the right crosses the edge from
/// `a` to `b`. The edge counts as half open: of its two ends, only the
/// one strictly above `y` is on it.
pub open spec fn crosses(a: Point, b: Point, x: int, y: int) -> bool {
    &&& (a.y > y) != (b.y > y)
    &&& if b.y > a.y {
        (x - a.x) * (b.y - a.y) < (b.x - a.x) * (y - a.y)
    } else {
        (x - a.x) * (b.y - a.y) > (b.x - a.x) * (y - a.y)
    }
}

/// The vertex before vertex `i` on the boundary of a polygon of `n`
/// vertices.
pub open spec fn before(n: int, i: int) -> int {
    if i == 0 {
        n - 1
    } else {
        i - 1
    }
}

/// How many of the first `upto` edges of `polygon` the ray from
/// `(x, y)` crosses; edge `i` runs from vertex `i` to the vertex before
/// it.
pub open spec fn crossings(polygon: Seq<Point>, x: int, y: int, upto: int) -> nat
    decreases upto,
{
    if upto <= 0 {
        0
    } else if crosses(polygon[upto - 1], polygon[before(polygon.len() as int, upto - 1)], x, y) {
        crossings(polygon, x, y, upto - 1) + 1
    } else {
        crossings(polygon, x, y, upto - 1)
    }
}

/// `(x, y)` lies inside `polygon`: the polygon has three vertices at
/// least, and the ray from `(x, y)` crosses its boundary an odd number
/// of times.
pub open spec fn inside(polygon: Seq<Point>, x: int, y: int) -> bool {
    polygon.len() >= 3 && crossings(polygon, x, y, polygon.len() as int) % 2 == 1
}

/// Whether the ray from `(x, y)` to the right crosses the edge from `a`
/// to `b`.
pub fn ray_crosses(a: Point, b: Point, x: u32, y: u32) -> (hit: bool)
    ensures
        hit == crosses(a, b, x as int, y as int),
{
    if (a.y > y) == (b.y > y) {
        return false;
    }
    let run: i128 = (x as i128) - (a.x as i128);
    let rise: i128 = (b.y as i128) - (a.y as i128);
    let span: i128 = (b.x as i128) - (a.x as i128);
    let lift: i128 = (y as i128) - (a.y as i128);
    assert(-0x1_0000_0000_0000_0000 <= run * rise <= 0x1_0000_0000_0000_0000) by (nonlinear_arith)
        requires
            -0x1_0000_0000 <= run <= 0x1_0000_0000,
            -0x1_0000_0000 <= rise <= 0x1_0000_0000,
    ;
    assert(-0x1_0000_0000_0000_0000 <= span * lift <= 0x1_0000_0000_0000_0000) by (nonlinear_arith)
        requires
            -0x1_0000_0000 <= span <= 0x1_0000_0000,
            -0x1_0000_0000 <= lift <= 0x1_0000_0000,
    ;
    if b.y > a.y {
        run * rise < span * lift
    } else {
        run * rise > span * lift
    }
}

/// Whether `(x, y)` lies inside `polygon`, by casting a ray.
pub fn point_in_polygon(x: u32, y: u32, polygon: &Vec<Point>) -> (within: bool)
    ensures
        within == inside(polygon@, x as int, y as int),
{
    let n: usize = polygon.len();
    if n < 3 {
        return false;
    }
    let mut within: bool = false;
    let mut j: usize = n - 1;
    let mut i: usize = 0;
    while i < n
        invariant
            n == polygon@.len(),
            n >= 3,
            i <= n,
            j == before(n as int, i as int) || i == n,
            j < n,
            within == (crossings(polygon@, x as int, y as int, i as int) % 2 == 1),
        decreases n - i,
    {
        if ray_crosses(polygon[i], polygon[j], x, y) {
            within = !within;
        }
        j = i;
        i = i + 1;
    }
    within
}

/// What a stretch of the raster adds up to for one cell: the ink of its
/// pixels inside the cell, that ink times the pixels' columns and rows,
/// and the number of those pixels.
pub struct Sums {
    pub weight: int,
    pub moment_x: int,
    pub moment_y: int,
    pub count: int,
}

/// The ink of the pixel `(px, py)`.
pub open spec fn ink(field: DensityField, px: int, py: int) -> int {
    FULL_INK - field.brightness_at(px, py)
}

/// The sums of no pixel.
pub open spec fn no_sums() -> Sums {
    Sums { weight: 0, moment_x: 0, moment_y: 0, count: 0 }
}

/// The sums of two stretches together.
pub open spec fn plus(a: Sums, b: Sums) -> Sums {
    Sums {
        weight: a.weight + b.weight,
        moment_x: a.moment_x + b.moment_x,
        moment_y: a.moment_y + b.moment_y,
        count: a.count + b.count,
    }
}

/// What the pixel `(px, py)` adds to the sums of `cell`: its ink where
/// its position lies inside the cell, nothing else.
pub open spec fn pixel_sums(field: DensityField, cell: Seq<Point>, px: int, py: int) -> Sums {
    if inside(cell, px * UNITS_PER_PIXEL, py * UNITS_PER_PIXEL) {
        Sums {
            weight: ink(field, px, py),
            moment_x: px * ink(field, px, py),
            moment_y: py * ink(field, px, py),
            count: 1,
        }
    } else {
        no_sums()
    }
}

/// The sums of the pixels `y0 .. upto` of column `px`.
pub open spec fn column_sums(field: DensityField, cell: Seq<Point>, px: int, y0: int, upto: int) -> Sums
    decreases upto - y0,
{
    if upto <= y0 {
        no_sums()
    } else {
        plus(column_sums(field, cell, px, y0, upto - 1), pixel_sums(field, cell, px, upto - 1))
    }
}

/// The sums of the pixels of the columns `x0 .. upto`, rows `y0 .. y1`.
pub open spec fn box_sums(
    field: DensityField,
    cell: Seq<Point>,
    x0: int,
    upto: int,
    y0: int,
    y1: int,
) -> Sums
    decreases upto - x0,
{
    if upto <= x0 {
        no_sums()
    } else {
        plus(box_sums(field, cell, x0, upto - 1, y0, y1), column_sums(field, cell, upto - 1, y0, y1))
    }
}

/// The sums `s` are those of pixels of the columns `x0 .. x1` and the
/// rows `y0 .. y1`, no more than `area` of them.
pub open spec fn sums_within(s: Sums, x0: int, x1: int, y0: int, y1: int, area: int) -> bool {
    &&& 0 <= s.count <= area
    &&& 0 <= s.weight <= FULL_INK * s.count
    &&& x0 * s.weight <= s.moment_x <= (x1 - 1) * s.weight || s.weight == 0 && s.moment_x == 0
    &&& y0 * s.weight <= s.moment_y <= (y1 - 1) * s.weight || s.weight == 0 && s.moment_y == 0
}

/// What the sums of a column are bounded by.
pub proof fn lemma_column_sums(field: DensityField, cell: Seq<Point>, px: int, y0: int, upto: int)
    requires
        0 <= y0 <= upto,
        0 <= px,
    ensures
        sums_within(column_sums(field, cell, px, y0, upto), px, px + 1, y0, upto, upto - y0),
    decreases upto - y0,
{
    if upto > y0 {
        lemma_column_sums(field, cell, px, y0, upto - 1);
        let rest = column_sums(field, cell, px, y0, upto - 1);
        let last = pixel_sums(field, cell, px, upto - 1);
        let all = plus(rest, last);
        let w = ink(field, px, upto - 1);
        assert(0 <= w <= 255);
        assert(px * (rest.weight + w) == px * rest.weight + px * w) by (nonlinear_arith);
        assert((upto - 1) * (rest.weight + w) == (upto - 1) * rest.weight + (upto - 1) * w)
            by (nonlinear_arith);
        assert(y0 * (rest.weight + w) == y0 * rest.weight + y0 * w) by (nonlinear_arith);
        assert((upto - 2) * rest.weight <= (upto - 1) * rest.weight) by (nonlinear_arith)
            requires
                rest.weight >= 0,
        ;
        assert(y0 * w <= (upto - 1) * w) by (nonlinear_arith)
            requires
                y0 <= upto - 1,
                w >= 0,
        ;
        assert(FULL_INK * (rest.count + 1) == FULL_INK * rest.count + FULL_INK) by (nonlinear_arith);
    }
}

/// What the sums of a box are bounded by.
pub proof fn lemma_box_sums(
    field: DensityField,
    cell: Seq<Point>,
    x0: int,
    upto: int,
    y0: int,
    y1: int,
)
    requires
        0 <= x0 <= upto,
        0 <= y0 <= y1,
    ensures
        sums_within(
            box_sums(field, cell, x0, upto, y0, y1),
            x0,
            upto,
            y0,
            y1,
            (upto - x0) * (y1 - y0),
        ),
    decreases upto - x0,
{
    if upto > x0 {
        lemma_box_sums(field, cell, x0, upto - 1, y0, y1);
        lemma_column_sums(field, cell, upto - 1, y0, y1);
        let rest = box_sums(field, cell, x0, upto - 1, y0, y1);
        let last = column_sums(field, cell, upto - 1, y0, y1);
        assert((upto - x0) * (y1 - y0) == (upto - 1 - x0) * (y1 - y0) + (y1 - y0))
            by (nonlinear_arith);
        assert(FULL_INK * (rest.count + last.count) == FULL_INK * rest.count + FULL_INK * last.count)
            by (nonlinear_arith);
        lemma_sums_join(rest, last, x0, upto - 1, upto, y0, y1);
    } else {
        assert((upto - x0) * (y1 - y0) == 0) by (nonlinear_arith)
            requires
                upto - x0 == 0,
        ;
    }
}

/// The moments of two stretches side by side stay between the bounds of
/// the two together.
proof fn lemma_sums_join(a: Sums, b: Sums, x0: int, mid: int, x1: int, y0: int, y1: int)
    requires
        0 <= x0 <= mid < x1,
        0 <= y0 <= y1,
        0 <= a.weight,
        0 <= b.weight,
        x0 * a.weight <= a.moment_x <= (mid - 1) * a.weight || a.weight == 0 && a.moment_x == 0,
        y0 * a.weight <= a.moment_y <= (y1 - 1) * a.weight || a.weight == 0 && a.moment_y == 0,
        mid * b.weight <= b.moment_x <= (x1 - 1) * b.weight || b.weight == 0 && b.moment_x == 0,
        y0 * b.weight <= b.moment_y <= (y1 - 1) * b.weight || b.weight == 0 && b.moment_y == 0,
    ensures
        x0 * (a.weight + b.weight) <= a.moment_x + b.moment_x <= (x1 - 1) * (a.weight + b.weight)
            || a.weight + b.weight == 0 && a.moment_x + b.moment_x == 0,
        y0 * (a.weight + b.weight) <= a.moment_y + b.moment_y <= (y1 - 1) * (a.weight + b.weight)
            || a.weight + b.weight == 0 && a.moment_y + b.moment_y == 0,
{
    assert(x0 * (a.weight + b.weight) == x0 * a.weight + x0 * b.weight) by (nonlinear_arith);
    assert((x1 - 1) * (a.weight + b.weight) == (x1 - 1) * a.weight + (x1 - 1) * b.weight)
        by (nonlinear_arith);
    assert(y0 * (a.weight + b.weight) == y0 * a.weight + y0 * b.weight) by (nonlinear_arith);
    assert((y1 - 1) * (a.weight + b.weight) == (y1 - 1) * a.weight + (y1 - 1) * b.weight)
        by (nonlinear_arith);
    assert((mid - 1) * a.weight <= (x1 - 1) * a.weight) by (nonlinear_arith)
        requires
            mid <= x1,
            a.weight >= 0,
    ;
    assert(x0 * b.weight <= mid * b.weight) by (nonlinear_arith)
        requires
            x0 <= mid,
            b.weight >= 0,
    ;
}

/// The least of the given coordinate among the first `upto` vertices.
pub open spec fn least(cell: Seq<Point>, horizontal: bool, upto: int) -> int
    decreases upto,
{
    if upto <= 1 {
        coordinate(cell[0], horizontal) as int
    } else if coordinate(cell[upto - 1], horizontal) < least(cell, horizontal, upto - 1) {
        coordinate(cell[upto - 1], horizontal) as int
    } else {
        least(cell, horizontal, upto - 1)
    }
}

/// The greatest of the given coordinate among the first `upto`
/// vertices.
pub open spec fn greatest(cell: Seq<Point>, horizontal: bool, upto: int) -> int
    decreases upto,
{
    if upto <= 1 {
        coordinate(cell[0], horizontal) as int
    } else if coordinate(cell[upto - 1], horizontal) > greatest(cell, horizontal, upto - 1) {
        coordinate(cell[upto - 1], horizontal) as int
    } else {
        greatest(cell, horizontal, upto - 1)
    }
}

/// The first pixel column (or row) that the cell's bounding box reaches.
pub open spec fn first_pixel(cell: Seq<Point>, horizontal: bool) -> int {
    least(cell, horizontal, cell.len() as int) / (UNITS_PER_PIXEL as int)
}

/// One past the last pixel column (or row) that the cell's bounding box
/// reaches on a raster of `side` columns (or rows).
pub open spec fn pixel_end(cell: Seq<Point>, horizontal: bool, side: int) -> int {
    let reach = (greatest(cell, horizontal, cell.len() as int) + UNITS_PER_PIXEL - 1) / (
    UNITS_PER_PIXEL as int);
    if reach < side - 1 {
        reach + 1
    } else {
        side
    }
}

/// The sums of the pixels of the cell's bounding box.
pub open spec fn cell_sums(field: DensityField, cell: Seq<Point>) -> Sums {
    box_sums(
        field,
        cell,
        first_pixel(cell, false),
        pixel_end(cell, false, field.spec_width() as int),
        first_pixel(cell, true),
        pixel_end(cell, true, field.spec_height() as int),
    )
}

/// What relaxation makes of one point: where it moves, the mean ink of
/// its cell in parts of `WEIGHT_ONE`, and how many pixels the cell
/// holds.
#[derive(Clone, Copy, Debug)]
pub struct CellResult {
    pub point: Point,
    pub weight: u32,
    pub count: u64,
}

/// A point that stays where it is, with no weight.
pub open spec fn unmoved(point: Point) -> CellResult {
    CellResult { point, weight: 0, count: 0 }
}

/// What relaxation makes of `point` with the Voronoi cell `cell`: the
/// point moves to the ink-weighted centroid of the cell's pixels, and
/// its weight is their mean ink; a cell without vertices or without ink
/// leaves the point unmoved, with weight 0.
pub open spec fn relaxed_cell(field: DensityField, point: Point, cell: Seq<Point>) -> CellResult {
    let s = cell_sums(field, cell);
    if cell.len() == 0 || s.weight <= 0 {
        unmoved(point)
    } else {
        CellResult {
            point: Point {
                x: (s.moment_x * UNITS_PER_PIXEL / s.weight) as u32,
                y: (s.moment_y * UNITS_PER_PIXEL / s.weight) as u32,
            },
            weight: (s.weight * WEIGHT_ONE / (FULL_INK * s.count)) as u32,
            count: s.count as u64,
        }
    }
}

/// `p` lies on the raster of `field`: short of its right and lower
/// edge.
pub open spec fn within_raster(field: DensityField, p: Point) -> bool {
    p.x < field.spec_width() * UNITS_PER_PIXEL && p.y < field.spec_height() * UNITS_PER_PIXEL
}

/// Relaxation keeps a point on the raster: the centroid of pixels is no
/// further right or down than the last of them.
pub proof fn lemma_relaxed_within(field: DensityField, point: Point, cell: Seq<Point>)
    requires
        0 < field.spec_width() <= MAX_SIDE,
        0 < field.spec_height() <= MAX_SIDE,
        within_raster(field, point),
    ensures
        within_raster(field, relaxed_cell(field, point, cell).point),
        relaxed_cell(field, point, cell).weight <= WEIGHT_ONE,
{
    let s = cell_sums(field, cell);
    if cell.len() > 0 && s.weight > 0 {
        let x0 = first_pixel(cell, false);
        let x1 = pixel_end(cell, false, field.spec_width() as int);
        let y0 = first_pixel(cell, true);
        let y1 = pixel_end(cell, true, field.spec_height() as int);
        lemma_least(cell, false, cell.len() as int);
        lemma_least(cell, true, cell.len() as int);
        if x0 >= x1 || y0 >= y1 {
            lemma_empty_box(field, cell, x0, x1, y0, y1);
        } else {
            lemma_box_sums(field, cell, x0, x1, y0, y1);
            assert(s.count > 0) by (nonlinear_arith)
                requires
                    0 < s.weight <= FULL_INK * s.count,
            ;
            lemma_scaled_mean(s.moment_x, s.weight, x1 - 1, UNITS_PER_PIXEL as int);
            lemma_scaled_mean(s.moment_y, s.weight, y1 - 1, UNITS_PER_PIXEL as int);
            lemma_scaled_mean(s.weight, FULL_INK * s.count, 1, WEIGHT_ONE as int);
            assert((x1 - 1) * UNITS_PER_PIXEL < field.spec_width() * UNITS_PER_PIXEL)
                by (nonlinear_arith)
                requires
                    x1 <= field.spec_width(),
                    UNITS_PER_PIXEL > 0,
            ;
            assert((y1 - 1) * UNITS_PER_PIXEL < field.spec_height() * UNITS_PER_PIXEL)
                by (nonlinear_arith)
                requires
                    y1 <= field.spec_height(),
                    UNITS_PER_PIXEL > 0,
            ;
            assert(field.spec_width() * UNITS_PER_PIXEL <= 0x00FF_FFFF * 0x100) by (nonlinear_arith)
                requires
                    field.spec_width() <= 0x00FF_FFFF,
                    UNITS_PER_PIXEL == 0x100,
            ;
            assert(field.spec_height() * UNITS_PER_PIXEL <= 0x00FF_FFFF * 0x100) by (nonlinear_arith)
                requires
                    field.spec_height() <= 0x00FF_FFFF,
                    UNITS_PER_PIXEL == 0x100,
            ;
        }
    }
}

/// The least coordinate of a cell is not negative.
proof fn lemma_least(cell: Seq<Point>, horizontal: bool, upto: int)
    ensures
        0 <= least(cell, horizontal, upto),
    decreases upto,
{
    if upto > 1 {
        lemma_least(cell, horizontal, upto - 1);
    }
}

/// The least and the greatest of one coordinate among the vertices of
/// `cell`.
pub fn extent(cell: &Vec<Point>, horizontal: bool) -> (span: (u32, u32))
    requires
        cell@.len() > 0,
    ensures
        span.0 == least(cell@, horizontal, cell@.len() as int),
        span.1 == greatest(cell@, horizontal, cell@.len() as int),
        span.0 <= span.1,
{
    let first: u32 = if horizontal {
        cell[0].y
    } else {
        cell[0].x
    };
    let mut lo: u32 = first;
    let mut hi: u32 = first;
    let mut k: usize = 1;
    while k < cell.len()
        invariant
            1 <= k <= cell@.len(),
            lo == least(cell@, horizontal, k as int),
            hi == greatest(cell@, horizontal, k as int),
            lo <= hi,
        decreases cell@.len() - k,
    {
        let at: u32 = if horizontal {
            cell[k].y
        } else {
            cell[k].x
        };
        if at < lo {
            lo = at;
        }
        if at > hi {
            hi = at;
        }
        k = k + 1;
    }
    (lo, hi)
}

/// The pixel columns (or rows) `first .. end` that the bounding box of
/// `cell` reaches on a raster of `side` columns (or rows).
pub fn pixel_span(cell: &Vec<Point>, horizontal: bool, side: u32) -> (span: (u32, u32))
    requires
        cell@.len() > 0,
        0 < side <= MAX_SIDE,
    ensures
        span.0 == first_pixel(cell@, horizontal),
        span.1 == pixel_end(cell@, horizontal, side as int),
        span.1 <= side,
{
    let (lo, hi): (u32, u32) = extent(cell, horizontal);
    let first: u32 = lo / UNITS_PER_PIXEL;
    let reach: u64 = (hi as u64 + UNITS_PER_PIXEL as u64 - 1) / (UNITS_PER_PIXEL as u64);
    let end: u32 = if reach < (side - 1) as u64 {
        (reach + 1) as u32
    } else {
        side
    };
    (first, end)
}

/// Relaxes one point: adds up the ink of the pixels of its cell and
/// moves the point to their weighted centroid.
pub fn relax_cell(field: &DensityField, point: Point, cell: &Vec<Point>) -> (moved: CellResult)
    requires
        field.spec_width() > 0,
        field.spec_height() > 0,
    ensures
        moved == relaxed_cell(*field, point, cell@),
{
    if cell.len() == 0 {
        return CellResult { point, weight: 0, count: 0 };
    }
    let width: u32 = field.width();
    let height: u32 = field.height();
    let (x0, x1): (u32, u32) = pixel_span(cell, false, width);
    let (y0, y1): (u32, u32) = pixel_span(cell, true, height);
    if x0 >= x1 || y0 >= y1 {
        proof {
            lemma_empty_box(*field, cell@, x0 as int, x1 as int, y0 as int, y1 as int);
        }
        return CellResult { point, weight: 0, count: 0 };
    }
    let mut weight: u128 = 0;
    let mut moment_x: u128 = 0;
    let mut moment_y: u128 = 0;
    let mut count: u64 = 0;
    let mut x: u32 = x0;
    while x < x1
        invariant
            x1 <= width == field.spec_width(),
            y1 <= height == field.spec_height(),
            width <= MAX_SIDE,
            height <= MAX_SIDE,
            x0 <= x <= x1,
            y0 < y1,
            box_sums(*field, cell@, x0 as int, x as int, y0 as int, y1 as int) == (Sums {
                weight: weight as int,
                moment_x: moment_x as int,
                moment_y: moment_y as int,
                count: count as int,
            }),
        decreases x1 - x,
    {
        let mut column_weight: u128 = 0;
        let mut column_moment: u128 = 0;
        let mut column_count: u64 = 0;
        let mut y: u32 = y0;
        while y < y1
            invariant
                x < x1 <= width == field.spec_width(),
                y1 <= height == field.spec_height(),
                width <= MAX_SIDE,
                height <= MAX_SIDE,
                y0 <= y <= y1,
                column_sums(*field, cell@, x as int, y0 as int, y as int) == (Sums {
                    weight: column_weight as int,
                    moment_x: x * column_weight,
                    moment_y: column_moment as int,
                    count: column_count as int,
                }),
            decreases y1 - y,
        {
            proof {
                lemma_column_sums(*field, cell@, x as int, y0 as int, y as int);
                assert(y * 0xFF * (y - y0) <= 0x00FF_FFFF * 0xFF * 0x00FF_FFFF) by (nonlinear_arith)
                    requires
                        0 <= y0 <= y <= 0x00FF_FFFF,
                ;
                assert((y - 1) * column_weight <= y * 0xFF * (y - y0)) by (nonlinear_arith)
                    requires
                        0 <= column_weight <= 0xFF * (y - y0),
                        0 <= y0 <= y,
                ;
            }
            if point_in_polygon(x * UNITS_PER_PIXEL, y * UNITS_PER_PIXEL, cell) {
                let drop: u128 = (FULL_INK - field.brightness(x, y) as u32) as u128;
                assert(y * drop <= 0x00FF_FFFF * 0xFF) by (nonlinear_arith)
                    requires
                        0 <= y <= 0x00FF_FFFF,
                        0 <= drop <= 0xFF,
                ;
                assert(x * (column_weight + drop) == x * column_weight + x * drop)
                    by (nonlinear_arith);
                column_weight = column_weight + drop;
                column_moment = column_moment + (y as u128) * drop;
                column_count = column_count + 1;
            }
            y = y + 1;
        }
        proof {
            lemma_box_sums(*field, cell@, x0 as int, x as int, y0 as int, y1 as int);
            lemma_column_sums(*field, cell@, x as int, y0 as int, y1 as int);
            lemma_box_sums(*field, cell@, x0 as int, x + 1, y0 as int, y1 as int);
            let all = box_sums(*field, cell@, x0 as int, x + 1, y0 as int, y1 as int);
            assert(all.count <= 0x00FF_FFFF * 0x00FF_FFFF) by (nonlinear_arith)
                requires
                    all.count <= (x + 1 - x0) * (y1 - y0),
                    0 <= x0 <= x < 0x00FF_FFFF,
                    0 <= y0 <= y1 <= 0x00FF_FFFF,
            ;
            assert(all.weight <= 0xFF * (0x00FF_FFFF * 0x00FF_FFFF)) by (nonlinear_arith)
                requires
                    all.weight <= 0xFF * all.count,
                    all.count <= 0x00FF_FFFF * 0x00FF_FFFF,
            ;
            assert(all.moment_x <= 0x00FF_FFFF * (0xFF * (0x00FF_FFFF * 0x00FF_FFFF)))
                by (nonlinear_arith)
                requires
                    all.moment_x <= x * all.weight,
                    0 <= x <= 0x00FF_FFFF,
                    0 <= all.weight <= 0xFF * (0x00FF_FFFF * 0x00FF_FFFF),
            ;
            assert(all.moment_y <= 0x00FF_FFFF * (0xFF * (0x00FF_FFFF * 0x00FF_FFFF)))
                by (nonlinear_arith)
                requires
                    all.moment_y <= (y1 - 1) * all.weight || all.moment_y == 0,
                    0 <= y1 <= 0x00FF_FFFF,
                    0 <= all.weight <= 0xFF * (0x00FF_FFFF * 0x00FF_FFFF),
            ;
            let col = column_sums(*field, cell@, x as int, y0 as int, y1 as int);
            assert(x * column_weight <= 0x00FF_FFFF * (0xFF * 0x00FF_FFFF)) by (nonlinear_arith)
                requires
                    0 <= x <= 0x00FF_FFFF,
                    0 <= column_weight <= 0xFF * col.count,
                    col.count <= 0x00FF_FFFF,
            ;
        }
        weight = weight + column_weight;
        moment_x = moment_x + (x as u128) * column_weight;
        moment_y = moment_y + column_moment;
        count = count + column_count;
        x = x + 1;
    }
    if weight == 0 {
        return CellResult { point, weight: 0, count: 0 };
    }
    proof {
        lemma_box_sums(*field, cell@, x0 as int, x1 as int, y0 as int, y1 as int);
        let s = cell_sums(*field, cell@);
        assert(s.count > 0);
        lemma_scaled_mean(s.moment_x, s.weight, x1 - 1, UNITS_PER_PIXEL as int);
        lemma_scaled_mean(s.moment_y, s.weight, y1 - 1, UNITS_PER_PIXEL as int);
        lemma_scaled_mean(s.weight, FULL_INK * s.count, 1, WEIGHT_ONE as int);
        assert(s.weight <= 0xFF * (0x00FF_FFFF * 0x00FF_FFFF)) by (nonlinear_arith)
            requires
                s.weight <= 0xFF * s.count,
                s.count <= (x1 - x0) * (y1 - y0),
                0 <= x0 <= x1 <= 0x00FF_FFFF,
                0 <= y0 <= y1 <= 0x00FF_FFFF,
        ;
        assert(s.moment_x <= 0x00FF_FFFF * (0xFF * (0x00FF_FFFF * 0x00FF_FFFF))) by (nonlinear_arith)
            requires
                s.moment_x <= (x1 - 1) * s.weight,
                0 <= x1 <= 0x00FF_FFFF,
                0 <= s.weight <= 0xFF * (0x00FF_FFFF * 0x00FF_FFFF),
        ;
        assert(s.moment_y <= 0x00FF_FFFF * (0xFF * (0x00FF_FFFF * 0x00FF_FFFF))) by (nonlinear_arith)
            requires
                s.moment_y <= (y1 - 1) * s.weight,
                0 <= y1 <= 0x00FF_FFFF,
                0 <= s.weight <= 0xFF * (0x00FF_FFFF * 0x00FF_FFFF),
        ;
        assert(FULL_INK * s.count <= 0xFF * (0x00FF_FFFF * 0x00FF_FFFF)) by (nonlinear_arith)
            requires
                s.count <= (x1 - x0) * (y1 - y0),
                0 <= x0 <= x1 <= 0x00FF_FFFF,
                0 <= y0 <= y1 <= 0x00FF_FFFF,
        ;
    }
    let new_x: u128 = moment_x * (UNITS_PER_PIXEL as u128) / weight;
    let new_y: u128 = moment_y * (UNITS_PER_PIXEL as u128) / weight;
    let mean: u128 = weight * (WEIGHT_ONE as u128) / ((FULL_INK as u128) * (count as u128));
    CellResult { point: Point { x: new_x as u32, y: new_y as u32 }, weight: mean as u32, count }
}

/// A box without columns or without rows adds up to nothing.
pub proof fn lemma_empty_box(
    field: DensityField,
    cell: Seq<Point>,
    x0: int,
    upto: int,
    y0: int,
    y1: int,
)
    requires
        upto <= x0 || y1 <= y0,
    ensures
        box_sums(field, cell, x0, upto, y0, y1) == no_sums(),
    decreases upto - x0,
{
    if upto > x0 {
        lemma_empty_box(field, cell, x0, upto - 1, y0, y1);
    }
}

/// A weighted mean, scaled: where `total` is at most `bound` times
/// `weight`, `total * scale / weight` is at most `bound * scale`.
pub proof fn lemma_scaled_mean(total: int, weight: int, bound: int, scale: int)
    requires
        0 <= total <= bound * weight,
        weight > 0,
        scale >= 0,
    ensures
        0 <= total * scale / weight <= bound * scale,
{
    assert(total * scale <= (bound * scale) * weight) by (nonlinear_arith)
        requires
            0 <= total <= bound * weight,
            scale >= 0,
    ;
    assert(0 <= total * scale) by (nonlinear_arith)
        requires
            0 <= total,
            0 <= scale,
    ;
    assert((bound * scale) * weight == weight * (bound * scale)) by (nonlinear_arith);
    vstd::arithmetic::div_mod::lemma_div_is_ordered(total * scale, weight * (bound * scale), weight);
    vstd::arithmetic::div_mod::lemma_div_multiples_vanish(bound * scale, weight);
    vstd::arithmetic::div_mod::lemma_div_pos_is_pos(total * scale, weight);
}

/// `rayon`'s `par_iter`, `enumerate`, `map` and `collect` on the cells:
/// each point is relaxed with its cell by `relax_cell`, on whatever
/// thread, and the outcomes come back in the order of the cells.
#[verifier::external_body]
fn relax_cells(field: &DensityField, points: &Vec<Point>, cells: &Vec<Vec<Point>>) -> (moved: Vec<
    CellResult,
>)
    requires
        points@.len() == cells@.len(),
        field.spec_width() > 0,
        field.spec_height() > 0,
    ensures
        moved@.len() == cells@.len(),
        forall|i: int|
            0 <= i < cells@.len() ==> #[trigger] moved@[i] == relaxed_cell(
                *field,
                points@[i],
                cells@[i]@,
            ),
{
    cells.par_iter().enumerate().map(|(i, cell)| relax_cell(field, points[i], cell)).collect()
}

/// `max` is the greatest of `weights`, or 0 where there are none.
pub open spec fn is_greatest(weights: Seq<u32>, max: u32) -> bool {
    &&& forall|i: int| 0 <= i < weights.len() ==> (#[trigger] weights[i]) <= max
    &&& weights.len() > 0 ==> exists|i: int| 0 <= i < weights.len() && #[trigger] weights[i] == max
    &&& weights.len() == 0 ==> max == 0
}

/// The weight `weight` as a share of the greatest weight `max`, in
/// parts of `WEIGHT_ONE`; 0 where the greatest weight is 0.
pub open spec fn normalized(weight: u32, max: u32) -> int {
    if max > 0 {
        weight * WEIGHT_ONE / (max as int)
    } else {
        0
    }
}

/// Every normalized weight lies between 0 and `WEIGHT_ONE`, and the
/// greatest weight, where it is not 0, is normalized to `WEIGHT_ONE`
/// exactly.
pub proof fn lemma_normalized(weight: u32, max: u32)
    requires
        weight <= max,
    ensures
        0 <= normalized(weight, max) <= WEIGHT_ONE,
        weight == max && max > 0 ==> normalized(weight, max) == WEIGHT_ONE,
{
    if max > 0 {
        lemma_scaled_mean(weight as int, max as int, 1, WEIGHT_ONE as int);
        if weight == max {
            assert(max * WEIGHT_ONE == max * (WEIGHT_ONE as int)) by (nonlinear_arith);
            vstd::arithmetic::div_mod::lemma_div_multiples_vanish(WEIGHT_ONE as int, max as int);
        }
    }
}

/// Where some weight is not 0, some point's normalized weight is
/// `WEIGHT_ONE`.
pub proof fn lemma_some_weight_is_one(weights: Seq<u32>, max: u32)
    requires
        is_greatest(weights, max),
        max > 0,
    ensures
        exists|i: int| 0 <= i < weights.len() && normalized(#[trigger] weights[i], max) == WEIGHT_ONE,
{
    let i = choose|i: int| 0 <= i < weights.len() && #[trigger] weights[i] == max;
    lemma_normalized(weights[i], max);
}

/// The weights as shares of the greatest of them.
pub fn normalize(weights: &Vec<u32>, max: u32) -> (radii: Vec<u32>)
    requires
        is_greatest(weights@, max),
    ensures
        radii@.len() == weights@.len(),
        forall|i: int| 0 <= i < radii@.len() ==> #[trigger] radii@[i] == normalized(weights@[i], max),
        forall|i: int| 0 <= i < radii@.len() ==> (#[trigger] radii@[i]) <= WEIGHT_ONE,
        max > 0 ==> exists|i: int| 0 <= i < radii@.len() && #[trigger] radii@[i] == WEIGHT_ONE,
{
    let mut radii: Vec<u32> = Vec::new();
    let mut i: usize = 0;
    while i < weights.len()
        invariant
            i <= weights@.len(),
            radii@.len() == i,
            is_greatest(weights@, max),
            forall|k: int| 0 <= k < i ==> #[trigger] radii@[k] == normalized(weights@[k], max),
            forall|k: int| 0 <= k < i ==> (#[trigger] radii@[k]) <= WEIGHT_ONE,
        decreases weights@.len() - i,
    {
        proof {
            lemma_normalized(weights@[i as int], max);
        }
        let share: u32 = if max > 0 {
            ((weights[i] as u64) * (WEIGHT_ONE as u64) / (max as u64)) as u32
        } else {
            0
        };
        radii.push(share);
        i = i + 1;
    }
    proof {
        if max > 0 {
            lemma_some_weight_is_one(weights@, max);
            let w = choose|i: int|
                0 <= i < weights@.len() && normalized(#[trigger] weights@[i], max) == WEIGHT_ONE;
            assert(radii@[w] == WEIGHT_ONE);
        }
    }
    radii
}

/// What a run of the stippler hands on: the points, and beside each its
/// normalized weight in parts of `WEIGHT_ONE`.
pub struct Stippling {
    pub points: Vec<Point>,
    pub radii: Vec<u32>,
}

/// A run of the stippler: the points as they stand, the weights of the
/// last relaxation, and the relaxations still to come. Each relaxation
/// wants the Voronoi cells of the points as they then stand.
pub struct Stippler {
    field: DensityField,
    points: Vec<Point>,
    weights: Vec<u32>,
    max_weight: u32,
    remaining: usize,
}

impl Stippler {
    /// The density field that the run works on.
    pub closed spec fn field(&self) -> DensityField {
        self.field
    }

    /// The points as they stand.
    pub closed spec fn points(&self) -> Seq<Point> {
        self.points@
    }

    /// The mean ink of each point's cell at the last relaxation, in
    /// parts of `WEIGHT_ONE`.
    pub closed spec fn weights(&self) -> Seq<u32> {
        self.weights@
    }

    /// The greatest of the weights.
    pub closed spec fn max_weight(&self) -> u32 {
        self.max_weight
    }

    /// How many relaxations are still to come.
    pub closed spec fn remaining(&self) -> nat {
        self.remaining as nat
    }

    /// There is one weight for each point, no weight is above
    /// `WEIGHT_ONE`, `max_weight` is the greatest of them, and every
    /// point lies on the raster.
    pub open spec fn well_formed(&self) -> bool {
        &&& self.weights().len() == self.points().len()
        &&& is_greatest(self.weights(), self.max_weight())
        &&& self.max_weight() <= WEIGHT_ONE
        &&& forall|i: int|
            0 <= i < self.points().len() ==> within_raster(self.field(), #[trigger] self.points()[i])
    }

    /// A run that starts from `num_points` points sampled from `field`
    /// by the generator that `seed` stands for, with `iterations`
    /// relaxations to come.
    pub fn new(field: DensityField, num_points: usize, seed: u64, iterations: usize) -> (run: Self)
        requires
            num_points > 0 ==> field.spec_width() > 0 && field.spec_height() > 0,
        ensures
            run.well_formed(),
            run.field() == field,
            run.remaining() == iterations,
            run.points().len() == num_points,
            is_sample(field, num_points as int, run.points()),
            forall|i: int| 0 <= i < num_points ==> drawn_from(field, #[trigger] run.points()[i]),
            forall|i: int| 0 <= i < num_points ==> #[trigger] run.weights()[i] == 0,
            run.max_weight() == 0,
    {
        let points: Vec<Point> = sample_points(&field, num_points, seed);
        let weights: Vec<u32> = vec![0u32; num_points];
        proof {
            if num_points > 0 {
                assert(weights@[0] == 0);
            }
        }
        Stippler { field, points, weights, max_weight: 0, remaining: iterations }
    }

    /// Whether a relaxation is still to come.
    pub fn wants_cells(&self) -> (wanted: bool)
        ensures
            wanted == (self.remaining() > 0),
    {
        self.remaining > 0
    }

    /// The points as they stand.
    pub fn current_points(&self) -> (points: &Vec<Point>)
        ensures
            points@ == self.points(),
    {
        &self.points
    }

    /// The density field that the run works on.
    pub fn raster(&self) -> (field: &DensityField)
        ensures
            *field == self.field(),
    {
        &self.field
    }

    /// One relaxation: every point moves to the weighted centroid of
    /// its cell, all at once, and the weights are those of this
    /// relaxation. `cells[i]` is the boundary of the Voronoi cell of
    /// point `i`.
    pub fn relax(&mut self, cells: &Vec<Vec<Point>>)
        requires
            old(self).well_formed(),
            old(self).remaining() > 0,
            cells@.len() == old(self).points().len(),
        ensures
            final(self).well_formed(),
            final(self).field() == old(self).field(),
            final(self).remaining() == old(self).remaining() - 1,
            final(self).points().len() == old(self).points().len(),
            forall|i: int|
                0 <= i < cells@.len() ==> #[trigger] final(self).points()[i] == relaxed_cell(
                    old(self).field(),
                    old(self).points()[i],
                    cells@[i]@,
                ).point,
            forall|i: int|
                0 <= i < cells@.len() ==> #[trigger] final(self).weights()[i] == relaxed_cell(
                    old(self).field(),
                    old(self).points()[i],
                    cells@[i]@,
                ).weight,
    {
        self.remaining = self.remaining - 1;
        if self.points.len() == 0 {
            return ;
        }
        let width: u32 = self.field.width();
        let height: u32 = self.field.height();
        assert(within_raster(self.field, self.points@[0]));
        let moved: Vec<CellResult> = relax_cells(&self.field, &self.points, cells);
        proof {
            assert forall|k: int| 0 <= k < moved@.len() implies within_raster(
                self.field,
                (#[trigger] moved@[k]).point,
            ) && moved@[k].weight <= WEIGHT_ONE by {
                assert(within_raster(self.field, self.points@[k]));
                lemma_relaxed_within(self.field, self.points@[k], cells@[k]@);
            }
        }
        let mut points: Vec<Point> = Vec::new();
        let mut weights: Vec<u32> = Vec::new();
        let mut max_weight: u32 = 0;
        let mut i: usize = 0;
        while i < moved.len()
            invariant
                i <= moved@.len(),
                points@.len() == i,
                weights@.len() == i,
                forall|k: int| 0 <= k < i ==> #[trigger] points@[k] == moved@[k].point,
                forall|k: int| 0 <= k < i ==> #[trigger] weights@[k] == moved@[k].weight,
                forall|k: int| 0 <= k < i ==> (#[trigger] weights@[k]) <= max_weight,
                i > 0 ==> exists|k: int| 0 <= k < i && #[trigger] weights@[k] == max_weight,
                i == 0 ==> max_weight == 0,
                max_weight <= WEIGHT_ONE,
                forall|k: int| 0 <= k < moved@.len() ==> (#[trigger] moved@[k]).weight <= WEIGHT_ONE,
            decreases moved@.len() - i,
        {
            let cell: CellResult = moved[i];
            let ghost before = weights@;
            let ghost greatest = max_weight;
            points.push(cell.point);
            weights.push(cell.weight);
            if cell.weight > max_weight || i == 0 {
                max_weight = cell.weight;
            }
            proof {
                assert(weights@[i as int] == cell.weight);
                if max_weight != cell.weight {
                    let k = choose|k: int| 0 <= k < i && #[trigger] before[k] == greatest;
                    assert(weights@[k] == max_weight);
                }
            }
            i = i + 1;
        }
        self.points = points;
        self.weights = weights;
        self.max_weight = max_weight;
    }

    /// Ends the run: the points as they stand, each with its weight as a
    /// share of the greatest weight.
    pub fn finish(self) -> (out: Stippling)
        requires
            self.well_formed(),
        ensures
            out.points@ == self.points(),
            forall|i: int|
                0 <= i < out.points@.len() ==> within_raster(self.field(), #[trigger] out.points@[i]),
            out.radii@.len() == self.points().len(),
            forall|i: int|
                0 <= i < out.radii@.len() ==> #[trigger] out.radii@[i] == normalized(
                    self.weights()[i],
                    self.max_weight(),
                ),
            forall|i: int| 0 <= i < out.radii@.len() ==> (#[trigger] out.radii@[i]) <= WEIGHT_ONE,
            self.max_weight() > 0 ==> exists|i: int|
                0 <= i < out.radii@.len() && #[trigger] out.radii@[i] == WEIGHT_ONE,
    {
        let radii: Vec<u32> = normalize(&self.weights, self.max_weight);
        let ghost full = if self.max_weight > 0 {
            choose|i: int| 0 <= i < radii@.len() && #[trigger] radii@[i] == WEIGHT_ONE
        } else {
            0
        };
        let out = Stippling { points: self.points, radii };
        assert(self.max_weight() > 0 ==> out.radii@[full] == WEIGHT_ONE);
        out
    }
}

} // verus!
