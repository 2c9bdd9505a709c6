//! Ordering points along a Hilbert curve over the raster.

use vstd::prelude::*;
use crate::geometry::{Point, UNITS_PER_PIXEL};

verus! {

/// The widest grid that a Hilbert distance is computed on.
pub const MAX_GRID: u32 = 0x1_0000;

/// Which of the four quadrants of a square the curve visits when: the
/// one at the origin first, then the one above it, then the one across
/// from the origin, then the one beside it.
pub open spec fn quadrant(right: bool, upper: bool) -> int {
    if right {
        if upper {
            2
        } else {
            3
        }
    } else {
        if upper {
            1
        } else {
            0
        }
    }
}

/// The distance along the curve that the squares of side `s` and
/// smaller add for the cell `(x, y)` of a grid of side `n`: the
/// quadrant of side `s` that the cell is in counts `s * s` for each
/// quadrant before it, and the cell is then turned into the frame of
/// that quadrant.
pub open spec fn hilbert_from(x: u32, y: u32, n: u32, s: u32) -> int
    decreases s,
{
    if s == 0 {
        0
    } else {
        let right = (x & s) > 0;
        let upper = (y & s) > 0;
        let (nx, ny) = if upper {
            (x, y)
        } else if right {
            ((n - 1 - y) as u32, (n - 1 - x) as u32)
        } else {
            (y, x)
        };
        s * s * quadrant(right, upper) + hilbert_from(nx, ny, n, s / 2)
    }
}

/// The distance of the cell `(x, y)` along the Hilbert curve over a
/// grid of side `n`.
pub open spec fn hilbert_index(x: u32, y: u32, n: u32) -> int {
    hilbert_from(x, y, n, n / 2)
}

/// The squares of side `s` and smaller add less than `4 * s * s`.
pub proof fn lemma_hilbert_from(x: u32, y: u32, n: u32, s: u32)
    requires
        x < n,
        y < n,
    ensures
        0 <= hilbert_from(x, y, n, s),
        s > 0 ==> hilbert_from(x, y, n, s) < 4 * (s * s),
        s == 0 ==> hilbert_from(x, y, n, s) == 0,
    decreases s,
{
    if s > 0 {
        let right = (x & s) > 0;
        let upper = (y & s) > 0;
        let (nx, ny) = if upper {
            (x, y)
        } else if right {
            ((n - 1 - y) as u32, (n - 1 - x) as u32)
        } else {
            (y, x)
        };
        lemma_hilbert_from(nx, ny, n, s / 2);
        let half = (s / 2) as int;
        let q = quadrant(right, upper);
        assert(4 * (half * half) <= s * s) by (nonlinear_arith)
            requires
                0 <= half,
                2 * half <= s,
        ;
        assert(0 <= s * s * q <= 3 * (s * s)) by (nonlinear_arith)
            requires
                0 <= q <= 3,
                s >= 0,
        ;
        assert(s * s >= 1) by (nonlinear_arith)
            requires
                s >= 1,
        ;
    }
}

/// The distance along the curve is below the number of cells.
pub proof fn lemma_hilbert_index(x: u32, y: u32, n: u32)
    requires
        x < n,
        y < n,
    ensures
        0 <= hilbert_index(x, y, n) < n * n,
{
    lemma_hilbert_from(x, y, n, n / 2);
    let half = (n / 2) as int;
    assert(4 * (half * half) <= n * n) by (nonlinear_arith)
        requires
            0 <= half,
            2 * half <= n,
    ;
    assert(n * n >= 1) by (nonlinear_arith)
        requires
            n >= 1,
    ;
}

/// The distance of the cell `(x, y)` along the Hilbert curve over a
/// grid of side `n`.
pub fn hilbert_distance(x: u32, y: u32, n: u32) -> (d: u32)
    requires
        x < n,
        y < n,
        n <= MAX_GRID,
    ensures
        d == hilbert_index(x, y, n),
        d < n * n,
{
    let mut x: u32 = x;
    let mut y: u32 = y;
    let ghost x0 = x;
    let ghost y0 = y;
    let mut d: u32 = 0;
    let mut s: u32 = n / 2;
    proof {
        lemma_hilbert_index(x0, y0, n);
    }
    while s > 0
        invariant
            x < n,
            y < n,
            n <= MAX_GRID,
            s <= n / 2,
            d + hilbert_from(x, y, n, s) == hilbert_index(x0, y0, n),
            hilbert_index(x0, y0, n) < n * n,
        decreases s,
    {
        let right: bool = (x & s) > 0;
        let upper: bool = (y & s) > 0;
        let turns: u32 = if right {
            if upper {
                2
            } else {
                3
            }
        } else {
            if upper {
                1
            } else {
                0
            }
        };
        proof {
            let (nx, ny) = if upper {
                (x, y)
            } else if right {
                ((n - 1 - y) as u32, (n - 1 - x) as u32)
            } else {
                (y, x)
            };
            lemma_hilbert_from(nx, ny, n, s / 2);
            assert(n * n <= 0x1_0000 * 0x1_0000) by (nonlinear_arith)
                requires
                    n <= 0x1_0000,
            ;
            assert(s * s <= 0x8000 * 0x8000) by (nonlinear_arith)
                requires
                    s <= 0x8000,
            ;
            assert(0 <= s * s * turns) by (nonlinear_arith)
                requires
                    turns >= 0,
                    s >= 0,
            ;
            assert(s * s * turns <= s * s * 3) by (nonlinear_arith)
                requires
                    0 <= turns <= 3,
                    s >= 0,
            ;
        }
        d = d + s * s * turns;
        if !upper {
            if right {
                x = n - 1 - x;
                y = n - 1 - y;
            }
            let t: u32 = x;
            x = y;
            y = t;
        }
        s = s / 2;
    }
    d
}

/// `n` is a power of two.
pub open spec fn is_power_of_two(n: int) -> bool
    decreases n,
{
    n == 1 || (n > 1 && n % 2 == 0 && is_power_of_two(n / 2))
}

/// `side` is the side of the Hilbert grid for a raster whose longer
/// side is `longer`: the least power of two that is no less.
pub open spec fn is_grid_side(longer: u32, side: u32) -> bool {
    &&& is_power_of_two(side as int)
    &&& side >= longer
    &&& side == 1 || side / 2 < longer
}

/// The side of the Hilbert grid for a raster whose longer side is
/// `longer`.
pub fn grid_side(longer: u32) -> (side: u32)
    requires
        longer <= MAX_GRID,
    ensures
        is_grid_side(longer, side),
        1 <= side <= MAX_GRID,
{
    let mut side: u32 = 1;
    while side < longer
        invariant
            is_power_of_two(side as int),
            1 <= side <= MAX_GRID,
            longer <= MAX_GRID,
            side == 1 || side / 2 < longer,
        decreases MAX_GRID - side,
    {
        proof {
            lemma_power_below(side as int);
        }
        side = side * 2;
    }
    side
}

/// A power of two below `MAX_GRID` is no more than half of it.
proof fn lemma_power_below(n: int)
    requires
        is_power_of_two(n),
        n < MAX_GRID,
    ensures
        n <= MAX_GRID / 2,
        is_power_of_two(2 * n),
{
    vstd::arithmetic::power2::lemma2_to64();
    lemma_powers(n, 16);
}

/// A power of two below `2^k` is no more than `2^(k - 1)`.
proof fn lemma_powers(n: int, k: nat)
    requires
        is_power_of_two(n),
        k >= 1,
        n < vstd::arithmetic::power2::pow2(k),
    ensures
        2 * n <= vstd::arithmetic::power2::pow2(k),
    decreases k,
{
    vstd::arithmetic::power2::lemma_pow2_unfold(k);
    if n > 1 {
        if k == 1 {
            vstd::arithmetic::power2::lemma2_to64();
        } else {
            lemma_powers(n / 2, (k - 1) as nat);
        }
    } else {
        vstd::arithmetic::power2::lemma_pow2_pos((k - 1) as nat);
    }
}

/// The cell of the Hilbert grid of side `side` that the grid coordinate
/// `at` falls in, on a raster of `extent` pixels along that axis.
pub open spec fn grid_cell(at: u32, extent: u32, side: u32) -> int {
    let scaled = at * side / (extent * UNITS_PER_PIXEL);
    if scaled < side - 1 {
        scaled
    } else {
        side - 1
    }
}

/// The key that `p` is ordered by: the Hilbert distance of its cell.
pub open spec fn hilbert_key(p: Point, width: u32, height: u32, side: u32) -> int {
    hilbert_index(
        grid_cell(p.x, width, side) as u32,
        grid_cell(p.y, height, side) as u32,
        side,
    )
}

/// The cell of the Hilbert grid that the grid coordinate `at` falls in.
pub fn cell_of(at: u32, extent: u32, side: u32) -> (cell: u32)
    requires
        0 < extent <= MAX_GRID,
        1 <= side <= MAX_GRID,
    ensures
        cell == grid_cell(at, extent, side),
        cell < side,
{
    assert(at * side <= 0xFFFF_FFFF * 0x1_0000) by (nonlinear_arith)
        requires
            at <= 0xFFFF_FFFF,
            side <= 0x1_0000,
    ;
    assert(0 < extent * UNITS_PER_PIXEL <= 0x1_0000 * 0x100) by (nonlinear_arith)
        requires
            0 < extent <= 0x1_0000,
            UNITS_PER_PIXEL == 0x100,
    ;
    let scaled: u64 = (at as u64) * (side as u64) / ((extent as u64) * (UNITS_PER_PIXEL as u64));
    if scaled < (side - 1) as u64 {
        scaled as u32
    } else {
        side - 1
    }
}

/// The key that `p` is ordered by.
pub fn key_of(p: Point, width: u32, height: u32, side: u32) -> (key: u32)
    requires
        0 < width <= MAX_GRID,
        0 < height <= MAX_GRID,
        1 <= side <= MAX_GRID,
    ensures
        key == hilbert_key(p, width, height, side),
{
    hilbert_distance(cell_of(p.x, width, side), cell_of(p.y, height, side), side)
}

/// The side of the Hilbert grid for a raster of `width` by `height`
/// pixels.
pub open spec fn side_for(width: u32, height: u32, side: u32) -> bool {
    is_grid_side(
        if width > height {
            width
        } else {
            height
        },
        side,
    )
}

/// The Hilbert distances of the cells of `points` never fall along the
/// sequence.
pub open spec fn rises_along_curve(points: Seq<Point>, width: u32, height: u32, side: u32) -> bool {
    forall|a: int, b: int|
        0 <= a <= b < points.len() ==> hilbert_key(points[a], width, height, side) <= hilbert_key(
            points[b],
            width,
            height,
            side,
        )
}

/// Where a point of key `key` goes into `ordered`: behind the last
/// point whose key is no greater.
pub open spec fn slot(ordered: Seq<Point>, key: int, width: u32, height: u32, side: u32) -> int
    decreases ordered.len(),
{
    if ordered.len() == 0 || hilbert_key(ordered.last(), width, height, side) <= key {
        ordered.len() as int
    } else {
        slot(ordered.drop_last(), key, width, height, side)
    }
}

/// The points in the order of the curve: by rising Hilbert distance of
/// their cells, points of one cell in the order they came in.
pub open spec fn hilbert_order(points: Seq<Point>, width: u32, height: u32, side: u32) -> Seq<Point>
    decreases points.len(),
{
    if points.len() == 0 {
        Seq::empty()
    } else {
        let before = hilbert_order(points.drop_last(), width, height, side);
        before.insert(
            slot(before, hilbert_key(points.last(), width, height, side), width, height, side),
            points.last(),
        )
    }
}

/// Orders the points of a raster of `width` by `height` pixels along
/// the Hilbert curve: by rising Hilbert distance of their cells, points
/// of one cell in the order they came in.
pub fn order_points_by_hilbert(points: &Vec<Point>, width: u32, height: u32) -> (ordered: Vec<
    Point,
>)
    requires
        0 < width <= MAX_GRID,
        0 < height <= MAX_GRID,
    ensures
        ordered@.to_multiset() == points@.to_multiset(),
        exists|side: u32|
            side_for(width, height, side) && #[trigger] rises_along_curve(
                ordered@,
                width,
                height,
                side,
            ) && ordered@ == hilbert_order(points@, width, height, side),
{
    let side: u32 = grid_side(
        if width > height {
            width
        } else {
            height
        },
    );
    let mut keys: Vec<u32> = Vec::new();
    let mut ordered: Vec<Point> = Vec::new();
    let mut i: usize = 0;
    assert(points@.take(0) =~= ordered@);
    while i < points.len()
        invariant
            i <= points@.len(),
            0 < width <= MAX_GRID,
            0 < height <= MAX_GRID,
            1 <= side <= MAX_GRID,
            keys@.len() == ordered@.len(),
            ordered@.len() == i,
            ordered@.to_multiset() == points@.take(i as int).to_multiset(),
            ordered@ == hilbert_order(points@.take(i as int), width, height, side),
            forall|k: int|
                0 <= k < keys@.len() ==> #[trigger] keys@[k] == hilbert_key(
                    ordered@[k],
                    width,
                    height,
                    side,
                ),
            forall|a: int, b: int| 0 <= a <= b < keys@.len() ==> keys@[a] <= keys@[b],
        decreases points@.len() - i,
    {
        let p: Point = points[i];
        let key: u32 = key_of(p, width, height, side);
        let mut at: usize = keys.len();
        assert(ordered@.take(at as int) =~= ordered@);
        while at > 0 && keys[at - 1] > key
            invariant
                at <= keys@.len(),
                keys@.len() == ordered@.len(),
                forall|k: int| at <= k < keys@.len() ==> keys@[k] > key,
                forall|k: int|
                    0 <= k < keys@.len() ==> #[trigger] keys@[k] == hilbert_key(
                        ordered@[k],
                        width,
                        height,
                        side,
                    ),
                slot(ordered@, key as int, width, height, side) == slot(
                    ordered@.take(at as int),
                    key as int,
                    width,
                    height,
                    side,
                ),
            decreases at,
        {
            proof {
                assert(ordered@.take(at as int).last() == ordered@[at - 1]);
                assert(ordered@.take(at as int).drop_last() =~= ordered@.take(at - 1));
            }
            at = at - 1;
        }
        proof {
            assert(ordered@.take(ordered@.len() as int) =~= ordered@);
            if at > 0 {
                assert(ordered@.take(at as int).last() == ordered@[at - 1]);
            }
            assert(slot(ordered@, key as int, width, height, side) == at);
            vstd::seq_lib::to_multiset_insert(ordered@, at as int, p);
            vstd::seq_lib::to_multiset_build(points@.take(i as int), p);
            assert(points@.take(i + 1) =~= points@.take(i as int).push(p));
            assert(points@.take(i + 1).drop_last() =~= points@.take(i as int));
        }
        keys.insert(at, key);
        ordered.insert(at, p);
        i = i + 1;
    }
    proof {
        assert(points@.take(points@.len() as int) =~= points@);
        assert(side_for(width, height, side));
        assert forall|a: int, b: int| 0 <= a <= b < ordered@.len() implies hilbert_key(
            ordered@[a],
            width,
            height,
            side,
        ) <= hilbert_key(ordered@[b], width, height, side) by {
            assert(keys@[a] <= keys@[b]);
        }
        assert(rises_along_curve(ordered@, width, height, side));
    }
    ordered
}

} // verus!
