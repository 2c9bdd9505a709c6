//! The point sampler: the first, unordered point set, drawn with
//! replacement from the pixels that are bright enough.

use vstd::prelude::*;
use rand::rngs::StdRng;
use rand::{Rng, SeedableRng};
use crate::density::{DensityField, MAX_SIDE, pixel_position, position_of_pixel};
use crate::geometry::{Point, UNITS_PER_PIXEL};

verus! {

/// Pixels brighter than this are the pool that points are drawn from.
pub const BRIGHT_ABOVE: u8 = 24;

/// The standard generator of `rand`, carried as an opaque value.
#[verifier::external_type_specification]
#[verifier::external_body]
pub struct ExStdRng(StdRng);

/// `StdRng::seed_from_u64`: the generator that the seed stands for.
/// Nothing is claimed of its state.
#[verifier::external_body]
fn seeded(seed: u64) -> StdRng {
    StdRng::seed_from_u64(seed)
}

/// `Rng::random_range` on the range `0..bound`: some number of that
/// range, whichever the generator comes to. The source refuses an empty
/// range; it is left out.
#[verifier::external_body]
fn draw_below(rng: &mut StdRng, bound: usize) -> (drawn: usize)
    requires
        bound > 0,
    ensures
        drawn < bound,
{
    rng.random_range(0..bound)
}

/// The bright pixels among the first `upto` pixels of row `y`, from
/// left to right.
pub open spec fn bright_in_row(field: DensityField, y: int, upto: int) -> Seq<(u32, u32)>
    decreases upto,
{
    if upto <= 0 {
        Seq::empty()
    } else if field.brightness_at(upto - 1, y) > BRIGHT_ABOVE {
        bright_in_row(field, y, upto - 1).push(((upto - 1) as u32, y as u32))
    } else {
        bright_in_row(field, y, upto - 1)
    }
}

/// The bright pixels of the first `rows` rows, row by row.
pub open spec fn bright_in_rows(field: DensityField, rows: int) -> Seq<(u32, u32)>
    decreases rows,
{
    if rows <= 0 {
        Seq::empty()
    } else {
        bright_in_rows(field, rows - 1) + bright_in_row(
            field,
            rows - 1,
            field.spec_width() as int,
        )
    }
}

/// The pool of the sampler: every pixel brighter than `BRIGHT_ABOVE`,
/// row by row.
pub open spec fn bright_pixels(field: DensityField) -> Seq<(u32, u32)> {
    bright_in_rows(field, field.spec_height() as int)
}

/// `p` is a position that the sampler may draw from `field`: that of a
/// pixel of the pool, or of any pixel where the pool is empty.
pub open spec fn drawn_from(field: DensityField, p: Point) -> bool {
    if bright_pixels(field).len() > 0 {
        exists|k: int|
            0 <= k < bright_pixels(field).len() && p == pixel_position(
                (#[trigger] bright_pixels(field)[k]).0 as int,
                bright_pixels(field)[k].1 as int,
            )
    } else {
        exists|px: int, py: int|
            0 <= px < field.spec_width() && 0 <= py < field.spec_height() && p == #[trigger] pixel_position(
                px,
                py,
            )
    }
}

/// Every pixel of the pool is a pixel of the raster.
pub proof fn lemma_bright_in_row(field: DensityField, y: int, upto: int)
    requires
        0 <= upto <= field.spec_width(),
        0 <= y < field.spec_height(),
        field.spec_width() <= MAX_SIDE,
        field.spec_height() <= MAX_SIDE,
    ensures
        bright_in_row(field, y, upto).len() <= upto,
        forall|k: int|
            0 <= k < bright_in_row(field, y, upto).len() ==> (#[trigger] bright_in_row(
                field,
                y,
                upto,
            )[k]).0 < upto && bright_in_row(field, y, upto)[k].1 == y,
    decreases upto,
{
    if upto > 0 {
        lemma_bright_in_row(field, y, upto - 1);
    }
}

/// Every pixel of the pool is a pixel of the raster.
pub proof fn lemma_bright_in_rows(field: DensityField, rows: int)
    requires
        0 <= rows <= field.spec_height(),
        field.spec_width() <= MAX_SIDE,
        field.spec_height() <= MAX_SIDE,
    ensures
        bright_in_rows(field, rows).len() <= rows * field.spec_width(),
        forall|k: int|
            0 <= k < bright_in_rows(field, rows).len() ==> (#[trigger] bright_in_rows(
                field,
                rows,
            )[k]).0 < field.spec_width() && bright_in_rows(field, rows)[k].1 < rows,
    decreases rows,
{
    if rows > 0 {
        lemma_bright_in_rows(field, rows - 1);
        lemma_bright_in_row(field, rows - 1, field.spec_width() as int);
        assert(rows * field.spec_width() == (rows - 1) * field.spec_width() + field.spec_width())
            by (nonlinear_arith);
    }
}

/// The pool that points are drawn from: the pixels of `field` brighter
/// than `BRIGHT_ABOVE`, row by row.
pub fn bright_pool(field: &DensityField) -> (pool: Vec<(u32, u32)>)
    ensures
        pool@ == bright_pixels(*field),
        forall|k: int|
            0 <= k < pool@.len() ==> (#[trigger] pool@[k]).0 < field.spec_width() && pool@[k].1
                < field.spec_height(),
{
    let width: u32 = field.width();
    let height: u32 = field.height();
    let mut pool: Vec<(u32, u32)> = Vec::new();
    let mut y: u32 = 0;
    while y < height
        invariant
            y <= height,
            width == field.spec_width(),
            height == field.spec_height(),
            pool@ == bright_in_rows(*field, y as int),
        decreases height - y,
    {
        let ghost above = pool@;
        let mut x: u32 = 0;
        while x < width
            invariant
                x <= width,
                y < height,
                width == field.spec_width(),
                height == field.spec_height(),
                pool@ == above + bright_in_row(*field, y as int, x as int),
            decreases width - x,
        {
            if field.brightness(x, y) > BRIGHT_ABOVE {
                pool.push((x, y));
            }
            x = x + 1;
        }
        y = y + 1;
    }
    proof {
        lemma_bright_in_rows(*field, height as int);
    }
    pool
}

/// How many numbers the sampler draws for `n` points: one for each
/// point that comes from the pool, a column and a row for each point
/// where the pool is empty.
pub open spec fn draws_needed(field: DensityField, n: int) -> int {
    if bright_pixels(field).len() > 0 {
        n
    } else {
        2 * n
    }
}

/// What the `k`-th number of the sampler is drawn below: the size of
/// the pool, or the width and the height of the raster in turn where
/// the pool is empty.
pub open spec fn draw_bound(field: DensityField, k: int) -> int {
    if bright_pixels(field).len() > 0 {
        bright_pixels(field).len() as int
    } else if k % 2 == 0 {
        field.spec_width() as int
    } else {
        field.spec_height() as int
    }
}

/// `draws` is a run of numbers that the generator may hand the sampler
/// for `n` points: as many as it needs, each below its bound.
pub open spec fn fair_draws(field: DensityField, n: int, draws: Seq<usize>) -> bool {
    &&& draws.len() == draws_needed(field, n)
    &&& forall|k: int| 0 <= k < draws.len() ==> (#[trigger] draws[k]) < draw_bound(field, k)
}

/// The `i`-th point that the sampler makes of `draws`: the position of
/// the pool's pixel that the `i`-th number picks, or of the pixel whose
/// column and row are the `i`-th pair of numbers where the pool is
/// empty.
pub open spec fn point_of_draws(field: DensityField, draws: Seq<usize>, i: int) -> Point {
    let pool = bright_pixels(field);
    if pool.len() > 0 {
        pixel_position(pool[draws[i] as int].0 as int, pool[draws[i] as int].1 as int)
    } else {
        pixel_position(draws[2 * i] as int, draws[2 * i + 1] as int)
    }
}

/// The points that the sampler makes of `draws`.
pub open spec fn placed_draws(field: DensityField, n: int, draws: Seq<usize>) -> Seq<Point> {
    Seq::new(n as nat, |i: int| point_of_draws(field, draws, i))
}

/// `points` is a sample of `n` points of `field`: what the sampler
/// makes of some run of numbers that the generator may hand it.
pub open spec fn is_sample(field: DensityField, n: int, points: Seq<Point>) -> bool {
    exists|draws: Seq<usize>| #[trigger]
        fair_draws(field, n, draws) && points == placed_draws(field, n, draws)
}

/// The points that the sampler makes of the numbers `draws`: each the
/// position of a pixel of the pool, or of any pixel of the raster where
/// the pool is empty.
pub fn place_draws(field: &DensityField, num_points: usize, draws: &Vec<usize>) -> (points: Vec<
    Point,
>)
    requires
        fair_draws(*field, num_points as int, draws@),
    ensures
        points@ == placed_draws(*field, num_points as int, draws@),
        forall|i: int| 0 <= i < points@.len() ==> drawn_from(*field, #[trigger] points@[i]),
        forall|i: int|
            0 <= i < points@.len() ==> (#[trigger] points@[i]).x < field.spec_width()
                * UNITS_PER_PIXEL && points@[i].y < field.spec_height() * UNITS_PER_PIXEL,
{
    let width: u32 = field.width();
    let height: u32 = field.height();
    let pool: Vec<(u32, u32)> = bright_pool(field);
    let taken: usize = draws.len();
    let mut points: Vec<Point> = Vec::new();
    let mut i: usize = 0;
    while i < num_points
        invariant
            i <= num_points,
            points@.len() == i,
            taken == draws@.len(),
            width == field.spec_width(),
            height == field.spec_height(),
            width <= MAX_SIDE,
            height <= MAX_SIDE,
            pool@ == bright_pixels(*field),
            fair_draws(*field, num_points as int, draws@),
            forall|k: int|
                0 <= k < pool@.len() ==> (#[trigger] pool@[k]).0 < field.spec_width() && pool@[k].1
                    < field.spec_height(),
            forall|k: int| 0 <= k < i ==> #[trigger] points@[k] == point_of_draws(*field, draws@, k),
            forall|k: int| 0 <= k < i ==> drawn_from(*field, #[trigger] points@[k]),
            forall|k: int|
                0 <= k < i ==> (#[trigger] points@[k]).x < field.spec_width() * UNITS_PER_PIXEL
                    && points@[k].y < field.spec_height() * UNITS_PER_PIXEL,
        decreases num_points - i,
    {
        let pixel: (u32, u32) = if pool.len() == 0 {
            assert(draws@[2 * i] < draw_bound(*field, 2 * i));
            assert(draws@[2 * i + 1] < draw_bound(*field, 2 * i + 1));
            (draws[2 * i] as u32, draws[2 * i + 1] as u32)
        } else {
            assert(draws@[i as int] < draw_bound(*field, i as int));
            pool[draws[i]]
        };
        let p: Point = position_of_pixel(pixel.0, pixel.1);
        proof {
            if pool@.len() == 0 {
                assert(p == pixel_position(pixel.0 as int, pixel.1 as int));
            }
            assert(drawn_from(*field, p));
        }
        points.push(p);
        i = i + 1;
    }
    assert(points@ =~= placed_draws(*field, num_points as int, draws@));
    points
}

/// Draws `num_points` positions from `field`, with replacement, by the
/// generator that `seed` stands for: the generator hands out one number
/// below the size of the pool for each point, or one below the width
/// and one below the height where the pool is empty, and the points are
/// what `place_draws` makes of those numbers.
pub fn sample_points(field: &DensityField, num_points: usize, seed: u64) -> (points: Vec<Point>)
    requires
        num_points > 0 ==> field.spec_width() > 0 && field.spec_height() > 0,
    ensures
        is_sample(*field, num_points as int, points@),
        points@.len() == num_points,
        forall|i: int| 0 <= i < points@.len() ==> drawn_from(*field, #[trigger] points@[i]),
        forall|i: int|
            0 <= i < points@.len() ==> (#[trigger] points@[i]).x < field.spec_width()
                * UNITS_PER_PIXEL && points@[i].y < field.spec_height() * UNITS_PER_PIXEL,
{
    let width: u32 = field.width();
    let height: u32 = field.height();
    let pool: Vec<(u32, u32)> = bright_pool(field);
    let mut rng: StdRng = seeded(seed);
    let mut draws: Vec<usize> = Vec::new();
    let mut i: usize = 0;
    while i < num_points
        invariant
            i <= num_points,
            width == field.spec_width(),
            height == field.spec_height(),
            num_points > 0 ==> width > 0 && height > 0,
            pool@ == bright_pixels(*field),
            draws@.len() == draws_needed(*field, i as int),
            forall|k: int| 0 <= k < draws@.len() ==> (#[trigger] draws@[k]) < draw_bound(*field, k),
        decreases num_points - i,
    {
        if pool.len() == 0 {
            let x: usize = draw_below(&mut rng, width as usize);
            draws.push(x);
            let y: usize = draw_below(&mut rng, height as usize);
            draws.push(y);
        } else {
            let k: usize = draw_below(&mut rng, pool.len());
            draws.push(k);
        }
        i = i + 1;
    }
    place_draws(field, num_points, &draws)
}

} // verus!
