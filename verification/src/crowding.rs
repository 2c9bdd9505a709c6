//! Whether a point set crowds a line of the grid: a leaf of the spatial
//! index that filled up with points of one line could not be split.

use vstd::prelude::*;
use std::collections::HashMap;
use crate::geometry::{Point, coordinate};
use crate::greedy::{crowded_points, line_of_points};
use crate::spatial_index::BUCKET;

verus! {

/// How many of the first `upto` points lie on the line `v`.
pub open spec fn on_line(points: Seq<Point>, horizontal: bool, v: u32, upto: int) -> nat
    decreases upto,
{
    if upto <= 0 {
        0
    } else if coordinate(points[upto - 1], horizontal) == v {
        on_line(points, horizontal, v, upto - 1) + 1
    } else {
        on_line(points, horizontal, v, upto - 1)
    }
}

/// The indices of the first `upto` points that lie on the line `v`, in
/// rising order.
pub open spec fn line_keys(points: Seq<Point>, horizontal: bool, v: u32, upto: int) -> Seq<usize>
    decreases upto,
{
    if upto <= 0 {
        Seq::empty()
    } else if coordinate(points[upto - 1], horizontal) == v {
        line_keys(points, horizontal, v, upto - 1).push((upto - 1) as usize)
    } else {
        line_keys(points, horizontal, v, upto - 1)
    }
}

/// Distinct points of one line are no more than the line holds.
pub proof fn lemma_line_bound(
    points: Seq<Point>,
    horizontal: bool,
    v: u32,
    keys: Seq<usize>,
    upto: int,
)
    requires
        0 <= upto <= points.len(),
        upto <= usize::MAX,
        keys.no_duplicates(),
        forall|k: int|
            0 <= k < keys.len() ==> (#[trigger] keys[k]) < upto && coordinate(
                points[keys[k] as int],
                horizontal,
            ) == v,
    ensures
        keys.len() <= on_line(points, horizontal, v, upto),
    decreases upto,
{
    if upto == 0 {
        if keys.len() > 0 {
            assert(keys[0] < 0);
        }
    } else {
        let last = (upto - 1) as usize;
        if keys.contains(last) {
            let m = choose|m: int| 0 <= m < keys.len() && keys[m] == last;
            let rest = keys.remove(m);
            assert forall|k: int| 0 <= k < rest.len() implies (#[trigger] rest[k]) < upto - 1
                && coordinate(points[rest[k] as int], horizontal) == v by {
                let from = if k < m { k } else { k + 1 };
                assert(rest[k] == keys[from]);
                assert(keys[from] != keys[m]);
            }
            assert forall|a: int, b: int| 0 <= a < rest.len() && 0 <= b < rest.len() && a != b implies rest[a]
                != rest[b] by {
                let fa = if a < m { a } else { a + 1 };
                let fb = if b < m { b } else { b + 1 };
                assert(rest[a] == keys[fa]);
                assert(rest[b] == keys[fb]);
            }
            lemma_line_bound(points, horizontal, v, rest, upto - 1);
        } else {
            assert forall|k: int| 0 <= k < keys.len() implies (#[trigger] keys[k]) < upto - 1 by {
                assert(keys.contains(keys[k]));
            }
            lemma_line_bound(points, horizontal, v, keys, upto - 1);
        }
    }
}

/// `line_keys` lists as many indices as the line holds points, each
/// below `upto`, each of a point on the line, in strictly rising order.
pub proof fn lemma_line_keys(points: Seq<Point>, horizontal: bool, v: u32, upto: int)
    requires
        0 <= upto <= points.len(),
        upto <= usize::MAX,
    ensures
        line_keys(points, horizontal, v, upto).len() == on_line(points, horizontal, v, upto),
        forall|k: int|
            0 <= k < line_keys(points, horizontal, v, upto).len() ==> (#[trigger] line_keys(
                points,
                horizontal,
                v,
                upto,
            )[k]) < upto && coordinate(
                points[line_keys(points, horizontal, v, upto)[k] as int],
                horizontal,
            ) == v,
        forall|a: int, b: int|
            0 <= a < b < line_keys(points, horizontal, v, upto).len() ==> line_keys(
                points,
                horizontal,
                v,
                upto,
            )[a] < line_keys(points, horizontal, v, upto)[b],
    decreases upto,
{
    if upto > 0 {
        lemma_line_keys(points, horizontal, v, upto - 1);
    }
}

/// A line that holds as many points as a leaf holds entries shows that
/// the points are crowded.
pub proof fn lemma_full_line_crowds(points: Seq<Point>, horizontal: bool, v: u32)
    requires
        points.len() <= usize::MAX,
        on_line(points, horizontal, v, points.len() as int) >= BUCKET,
    ensures
        crowded_points(points),
{
    lemma_line_keys(points, horizontal, v, points.len() as int);
    let all = line_keys(points, horizontal, v, points.len() as int);
    let keys = all.subrange(0, BUCKET as int);
    assert forall|k: int| 0 <= k < keys.len() implies (#[trigger] keys[k]) < points.len()
        && coordinate(points[keys[k] as int], horizontal) == v by {
        assert(keys[k] == all[k]);
    }
    assert forall|a: int, b: int| 0 <= a < keys.len() && 0 <= b < keys.len() && a != b implies keys[a]
        != keys[b] by {
        assert(keys[a] == all[a]);
        assert(keys[b] == all[b]);
        if a < b {
            assert(all[a] < all[b]);
        } else {
            assert(all[b] < all[a]);
        }
    }
    assert(coordinate(points[keys[0] as int], horizontal) == v);
    assert(line_of_points(points, keys));
}

/// Points of which no line, horizontal or vertical, holds as many as a
/// leaf holds entries are not crowded.
pub proof fn lemma_thin_lines(points: Seq<Point>)
    requires
        points.len() <= usize::MAX,
        forall|v: u32| on_line(points, false, v, points.len() as int) < BUCKET,
        forall|v: u32| on_line(points, true, v, points.len() as int) < BUCKET,
    ensures
        !crowded_points(points),
{
    if crowded_points(points) {
        let keys = choose|keys: Seq<usize>| line_of_points(points, keys);
        assert(keys[0] < points.len());
        if forall|k: int|
            0 <= k < keys.len() ==> points[(#[trigger] keys[k]) as int].x == points[keys[0] as int].x {
            let v = points[keys[0] as int].x;
            lemma_line_bound(points, false, v, keys, points.len() as int);
        } else {
            let v = points[keys[0] as int].y;
            lemma_line_bound(points, true, v, keys, points.len() as int);
        }
    }
}

/// Point `i` is the first to make a line of direction `horizontal`
/// as full as a leaf: with it its line holds `BUCKET` points, and no
/// line holds as many of the points before it.
pub open spec fn fills_at(points: Seq<Point>, horizontal: bool, i: int) -> bool {
    &&& 0 <= i < points.len()
    &&& on_line(points, horizontal, coordinate(points[i], horizontal), i + 1) >= BUCKET
    &&& forall|w: u32| #[trigger] on_line(points, horizontal, w, i) < BUCKET
}

/// The line `v` of direction `horizontal` is the first of that
/// direction to fill up as the points are read in order.
pub open spec fn fills_first(points: Seq<Point>, horizontal: bool, v: u32) -> bool {
    exists|i: int| #[trigger] fills_at(points, horizontal, i) && coordinate(points[i], horizontal) == v
}

/// No line of direction `horizontal` holds as many points as a leaf.
pub open spec fn thin_lines(points: Seq<Point>, horizontal: bool) -> bool {
    forall|w: u32| #[trigger] on_line(points, horizontal, w, points.len() as int) < BUCKET
}

/// The line that a crowded point set is refused for: the first vertical
/// line to fill up, or the first horizontal one where no vertical line
/// is full.
pub open spec fn names_crowded_line(points: Seq<Point>, horizontal: bool, v: u32) -> bool {
    fills_first(points, horizontal, v) && (horizontal ==> thin_lines(points, false))
}

/// The first line of direction `horizontal` to hold `BUCKET` of the
/// points, if one does.
fn first_full_line(points: &Vec<Point>, horizontal: bool) -> (full: Option<u32>)
    ensures
        match full {
            Some(v) => fills_first(points@, horizontal, v),
            None => thin_lines(points@, horizontal),
        },
{
    broadcast use vstd::std_specs::hash::group_hash_axioms;

    let mut counts: HashMap<u32, usize> = HashMap::new();
    let mut i: usize = 0;
    while i < points.len()
        invariant
            i <= points@.len(),
            forall|v: u32| #[trigger]
                counts@.contains_key(v) ==> counts@[v] == on_line(points@, horizontal, v, i as int),
            forall|v: u32|
                !(#[trigger] counts@.contains_key(v)) ==> on_line(points@, horizontal, v, i as int)
                    == 0,
            forall|v: u32| #[trigger] on_line(points@, horizontal, v, i as int) < BUCKET,
        decreases points@.len() - i,
    {
        let at: u32 = if horizontal {
            points[i].y
        } else {
            points[i].x
        };
        let seen: usize = match counts.get(&at) {
            Some(count) => *count,
            None => 0,
        };
        assert(seen == on_line(points@, horizontal, at, i as int));
        if seen + 1 >= BUCKET {
            proof {
                assert(fills_at(points@, horizontal, i as int));
            }
            return Some(at);
        }
        counts.insert(at, seen + 1);
        proof {
            assert forall|v: u32| #[trigger] on_line(points@, horizontal, v, i + 1) < BUCKET by {
                assert(on_line(points@, horizontal, v, i as int) < BUCKET);
                assert(coordinate(points@[i as int], horizontal) == at);
            }
        }
        i = i + 1;
    }
    None
}

/// A line holds no fewer of the first `hi` points than of the first
/// `lo`.
pub proof fn lemma_on_line_grows(points: Seq<Point>, horizontal: bool, v: u32, lo: int, hi: int)
    requires
        lo <= hi,
    ensures
        on_line(points, horizontal, v, lo) <= on_line(points, horizontal, v, hi),
    decreases hi - lo,
{
    if lo < hi {
        lemma_on_line_grows(points, horizontal, v, lo, hi - 1);
    }
}

/// A line that fills up first is a full line: the points are crowded.
pub proof fn lemma_first_full_crowds(points: Seq<Point>, horizontal: bool, v: u32)
    requires
        points.len() <= usize::MAX,
        fills_first(points, horizontal, v),
    ensures
        crowded_points(points),
{
    let i = choose|i: int| #[trigger]
        fills_at(points, horizontal, i) && coordinate(points[i], horizontal) == v;
    lemma_on_line_grows(points, horizontal, v, i + 1, points.len() as int);
    lemma_full_line_crowds(points, horizontal, v);
}

/// The line that a crowded point set is refused for, if the points
/// crowd one.
pub fn crowded_line(points: &Vec<Point>) -> (line: Option<(bool, u32)>)
    ensures
        line is Some <==> crowded_points(points@),
        line matches Some(named) ==> names_crowded_line(points@, named.0, named.1),
{
    let n: usize = points.len();
    match first_full_line(points, false) {
        Some(v) => {
            proof {
                lemma_first_full_crowds(points@, false, v);
            }
            return Some((false, v));
        },
        None => {},
    }
    match first_full_line(points, true) {
        Some(v) => {
            proof {
                lemma_first_full_crowds(points@, true, v);
            }
            return Some((true, v));
        },
        None => {},
    }
    proof {
        lemma_thin_lines(points@);
    }
    None
}

/// Whether the points crowd a line of the grid.
pub fn is_crowded(points: &Vec<Point>) -> (crowd: bool)
    ensures
        crowd == crowded_points(points@),
{
    crowded_line(points).is_some()
}

} // verus!
