//! The mathematical model of a tour: an order of point indices read as a
//! closed cycle, its length, and what reversing a stretch or inserting an
//! index does to both.

use vstd::prelude::*;
use crate::geometry::{Point, sq_dist, detour, lemma_sq_dist};

verus! {

/// Every entry of `tour` is an index into a point set of `n` points.
pub open spec fn indices_below(tour: Seq<usize>, n: nat) -> bool {
    forall|k: int| 0 <= k < tour.len() ==> (#[trigger] tour[k]) < n
}

/// `tour` visits each of the indices `0..n` exactly once.
pub open spec fn is_permutation(tour: Seq<usize>, n: nat) -> bool {
    &&& tour.len() == n
    &&& indices_below(tour, n)
    &&& tour.no_duplicates()
}

/// The positions that `tour` visits, in its order.
pub open spec fn route(points: Seq<Point>, tour: Seq<usize>) -> Seq<Point> {
    Seq::new(tour.len(), |k: int| points[tour[k] as int])
}

/// The summed squared length of the open path through `ps`.
pub open spec fn path_length(ps: Seq<Point>) -> int
    decreases ps.len(),
{
    if ps.len() < 2 {
        0
    } else {
        path_length(ps.drop_last()) + sq_dist(ps[ps.len() - 2], ps.last())
    }
}

/// The summed squared length of the closed path through `ps`, the last
/// position joined to the first.
pub open spec fn cycle_length(ps: Seq<Point>) -> int {
    if ps.len() == 0 {
        0
    } else {
        path_length(ps) + sq_dist(ps.last(), ps[0])
    }
}

/// The length of `tour` over `points`: the sum, over its edges
/// `k -> (k + 1) mod n`, of their squared lengths.
pub open spec fn tour_length(points: Seq<Point>, tour: Seq<usize>) -> int {
    cycle_length(route(points, tour))
}

/// `s` with the stretch `lo..=hi` in reverse order.
pub open spec fn reversed_range<A>(s: Seq<A>, lo: int, hi: int) -> Seq<A> {
    Seq::new(
        s.len(),
        |k: int|
            if lo <= k <= hi {
                s[lo + hi - k]
            } else {
                s[k]
            },
    )
}

/// The squared length of the edge that joins the end of `a` to the start
/// of `b`, where both have one.
pub open spec fn link(a: Seq<Point>, b: Seq<Point>) -> int {
    if a.len() > 0 && b.len() > 0 {
        sq_dist(a.last(), b[0])
    } else {
        0
    }
}

/// A path through `a` then `b` is as long as both and the edge between.
pub proof fn lemma_path_concat(a: Seq<Point>, b: Seq<Point>)
    ensures
        path_length(a + b) == path_length(a) + path_length(b) + link(a, b),
    decreases b.len(),
{
    let ab = a + b;
    if b.len() == 0 {
        assert(ab =~= a);
    } else if a.len() == 0 {
        assert(ab =~= b);
    } else if b.len() == 1 {
        assert(ab.drop_last() =~= a);
    } else {
        assert(ab.drop_last() =~= a + b.drop_last());
        lemma_path_concat(a, b.drop_last());
    }
}

/// A path is as long backwards as forwards.
pub proof fn lemma_path_reverse(ps: Seq<Point>)
    ensures
        path_length(ps.reverse()) == path_length(ps),
    decreases ps.len(),
{
    if ps.len() >= 2 {
        let head = seq![ps.last()];
        let rest = ps.drop_last();
        assert(ps.reverse() =~= head + rest.reverse());
        lemma_path_concat(head, rest.reverse());
        lemma_path_reverse(rest);
        lemma_sq_dist(ps.last(), ps[ps.len() - 2]);
    } else {
        assert(ps.reverse() =~= ps);
    }
}

/// What a 2-opt move on the edges `i -> i + 1` and `j -> j + 1` takes
/// off the length of the closed path `ps`: the two edges that go, less
/// the two that come.
pub open spec fn swap_gain(ps: Seq<Point>, i: int, j: int) -> int {
    let n = ps.len() as int;
    sq_dist(ps[i], ps[i + 1]) + sq_dist(ps[j], ps[(j + 1) % n]) - sq_dist(ps[i], ps[j]) - sq_dist(
        ps[i + 1],
        ps[(j + 1) % n],
    )
}

/// Reversing the stretch `i + 1 ..= j` of a closed path shortens it by
/// exactly `swap_gain`.
pub proof fn lemma_reversal_length(ps: Seq<Point>, i: int, j: int)
    requires
        0 <= i < j < ps.len(),
    ensures
        cycle_length(reversed_range(ps, i + 1, j)) == cycle_length(ps) - swap_gain(ps, i, j),
{
    let n = ps.len() as int;
    let a = ps.subrange(0, i + 1);
    let b = ps.subrange(i + 1, j + 1);
    let c = ps.subrange(j + 1, n);
    let new = reversed_range(ps, i + 1, j);
    assert(ps =~= (a + b) + c);
    assert(new =~= (a + b.reverse()) + c);
    lemma_path_concat(a, b);
    lemma_path_concat(a + b, c);
    lemma_path_concat(a, b.reverse());
    lemma_path_concat(a + b.reverse(), c);
    lemma_path_reverse(b);
    if j + 1 < n {
        assert((j + 1) % n == j + 1) by (nonlinear_arith)
            requires
                0 <= j + 1 < n,
        ;
    } else {
        assert((j + 1) % n == 0) by (nonlinear_arith)
            requires
                j + 1 == n,
                n > 0,
        ;
    }
}

/// Reversing a stretch and reading off the positions is reading off the
/// positions and reversing the stretch.
pub proof fn lemma_route_reversed(points: Seq<Point>, tour: Seq<usize>, lo: int, hi: int)
    requires
        0 <= lo <= hi < tour.len(),
    ensures
        route(points, reversed_range(tour, lo, hi)) == reversed_range(route(points, tour), lo, hi),
{
    assert(route(points, reversed_range(tour, lo, hi)) =~= reversed_range(
        route(points, tour),
        lo,
        hi,
    ));
}

/// Reversing a stretch rearranges a sequence and loses nothing.
pub proof fn lemma_reversed_multiset<A>(s: Seq<A>, lo: int, hi: int)
    requires
        0 <= lo <= hi < s.len(),
    ensures
        reversed_range(s, lo, hi).to_multiset() == s.to_multiset(),
{
    let a = s.subrange(0, lo);
    let b = s.subrange(lo, hi + 1);
    let c = s.subrange(hi + 1, s.len() as int);
    assert(s =~= (a + b) + c);
    assert(reversed_range(s, lo, hi) =~= (a + b.reverse()) + c);
    b.lemma_reverse_to_multiset();
    vstd::seq_lib::lemma_multiset_commutative(a, b);
    vstd::seq_lib::lemma_multiset_commutative(a + b, c);
    vstd::seq_lib::lemma_multiset_commutative(a, b.reverse());
    vstd::seq_lib::lemma_multiset_commutative(a + b.reverse(), c);
}

/// Reversing a stretch keeps a permutation a permutation.
pub proof fn lemma_reversed_permutation(tour: Seq<usize>, n: nat, lo: int, hi: int)
    requires
        0 <= lo <= hi < tour.len(),
    ensures
        indices_below(tour, n) ==> indices_below(reversed_range(tour, lo, hi), n),
        is_permutation(tour, n) ==> is_permutation(reversed_range(tour, lo, hi), n),
{
    let r = reversed_range(tour, lo, hi);
    if indices_below(tour, n) {
        assert forall|k: int| 0 <= k < r.len() implies (#[trigger] r[k]) < n by {
            if lo <= k <= hi {
                assert(tour[lo + hi - k] < n);
            } else {
                assert(tour[k] < n);
            }
        }
    }
    if is_permutation(tour, n) {
        assert forall|p: int, q: int| 0 <= p < r.len() && 0 <= q < r.len() && p != q implies r[p]
            != r[q] by {
            let pp = if lo <= p <= hi { lo + hi - p } else { p };
            let qq = if lo <= q <= hi { lo + hi - q } else { q };
            assert(r[p] == tour[pp]);
            assert(r[q] == tour[qq]);
            assert(pp != qq);
        }
    }
}

/// The entries of `s` as mathematical integers.
pub open spec fn as_ints(s: Seq<usize>) -> Seq<int> {
    Seq::new(s.len(), |k: int| s[k] as int)
}

/// A permutation of `0..n` holds every index below `n`.
pub proof fn lemma_permutation_covers(tour: Seq<usize>, n: nat)
    requires
        is_permutation(tour, n),
    ensures
        forall|v: usize| v < n ==> tour.contains(v),
{
    let t = as_ints(tour);
    assert(t.no_duplicates());
    t.unique_seq_to_set();
    vstd::seq_lib::seq_to_set_is_finite(t);
    vstd::set_lib::lemma_int_range(0, n as int);
    let full = vstd::set_lib::set_int_range(0, n as int);
    assert(t.to_set().subset_of(full)) by {
        assert forall|v: int| t.to_set().contains(v) implies full.contains(v) by {
            let k = choose|k: int| 0 <= k < t.len() && t[k] == v;
            assert(tour[k] < n);
        }
    }
    vstd::set_lib::lemma_subset_equality(t.to_set(), full);
    assert forall|v: usize| v < n implies tour.contains(v) by {
        assert(full.contains(v as int));
        assert(t.to_set().contains(v as int));
        let k = choose|k: int| 0 <= k < t.len() && t[k] == v as int;
        assert(tour[k] == v);
    }
}

/// A sequence without repeats that holds every index below `n` and
/// nothing else is a permutation of `0..n`, for an `n` that a machine
/// index can reach.
pub proof fn lemma_covering_is_permutation(tour: Seq<usize>, n: nat)
    requires
        n <= usize::MAX,
        tour.no_duplicates(),
        indices_below(tour, n),
        forall|v: usize| v < n ==> tour.contains(v),
    ensures
        is_permutation(tour, n),
{
    let t = as_ints(tour);
    assert(t.no_duplicates());
    t.unique_seq_to_set();
    vstd::set_lib::lemma_int_range(0, n as int);
    let full = vstd::set_lib::set_int_range(0, n as int);
    assert(t.to_set() =~= full) by {
        assert forall|v: int| t.to_set().contains(v) <==> full.contains(v) by {
            if t.to_set().contains(v) {
                let k = choose|k: int| 0 <= k < t.len() && t[k] == v;
                assert(tour[k] < n);
            }
            if full.contains(v) {
                assert(tour.contains(v as usize));
                let k = choose|k: int| 0 <= k < tour.len() && tour[k] == v as usize;
                assert(t[k] == v);
            }
        }
    }
}

/// No more than `n` distinct indices are below `n`.
pub proof fn lemma_distinct_fit(tour: Seq<usize>, n: nat)
    requires
        tour.no_duplicates(),
        indices_below(tour, n),
    ensures
        tour.len() <= n,
{
    let t = as_ints(tour);
    assert(t.no_duplicates());
    t.unique_seq_to_set();
    vstd::set_lib::lemma_int_range(0, n as int);
    let full = vstd::set_lib::set_int_range(0, n as int);
    assert(t.to_set().subset_of(full)) by {
        assert forall|v: int| t.to_set().contains(v) implies full.contains(v) by {
            let k = choose|k: int| 0 <= k < t.len() && t[k] == v;
            assert(tour[k] < n);
        }
    }
    vstd::set_lib::lemma_len_subset(t.to_set(), full);
}

/// A rearrangement of a permutation of `0..n` is one too.
pub proof fn lemma_rearranged_permutation(a: Seq<usize>, b: Seq<usize>, n: nat)
    requires
        a.to_multiset() == b.to_multiset(),
    ensures
        a.len() == b.len(),
        indices_below(a, n) ==> indices_below(b, n),
        is_permutation(a, n) ==> is_permutation(b, n),
{
    vstd::seq_lib::to_multiset_len(a);
    vstd::seq_lib::to_multiset_len(b);
    if indices_below(a, n) {
        assert forall|k: int| 0 <= k < b.len() implies (#[trigger] b[k]) < n by {
            vstd::seq_lib::to_multiset_contains(b, b[k]);
            vstd::seq_lib::to_multiset_contains(a, b[k]);
            assert(b.contains(b[k]));
            let m = choose|m: int| 0 <= m < a.len() && a[m] == b[k];
            assert(a[m] < n);
        }
    }
    if is_permutation(a, n) {
        a.lemma_multiset_has_no_duplicates();
        b.lemma_multiset_has_no_duplicates_conv();
    }
}

/// A rearrangement holds what the sequence held, and repeats nothing
/// that the sequence did not repeat.
pub proof fn lemma_rearranged<A>(a: Seq<A>, b: Seq<A>)
    requires
        a.to_multiset() == b.to_multiset(),
    ensures
        a.len() == b.len(),
        forall|v: A| a.contains(v) <==> b.contains(v),
        a.no_duplicates() ==> b.no_duplicates(),
{
    vstd::seq_lib::to_multiset_len(a);
    vstd::seq_lib::to_multiset_len(b);
    assert forall|v: A| a.contains(v) <==> b.contains(v) by {
        vstd::seq_lib::to_multiset_contains(a, v);
        vstd::seq_lib::to_multiset_contains(b, v);
    }
    if a.no_duplicates() {
        a.lemma_multiset_has_no_duplicates();
        b.lemma_multiset_has_no_duplicates_conv();
    }
}

/// Putting an entry that a sequence does not hold into it adds that
/// entry and nothing else, and repeats nothing.
pub proof fn lemma_insert_fresh<A>(s: Seq<A>, at: int, v: A)
    requires
        0 <= at <= s.len(),
        !s.contains(v),
    ensures
        forall|w: A| s.insert(at, v).contains(w) <==> (w == v || s.contains(w)),
        s.no_duplicates() ==> s.insert(at, v).no_duplicates(),
{
    let t = s.insert(at, v);
    assert forall|w: A| t.contains(w) <==> (w == v || s.contains(w)) by {
        if t.contains(w) {
            let k = choose|k: int| 0 <= k < t.len() && t[k] == w;
            if k < at {
                assert(s[k] == w);
            } else if k > at {
                assert(s[k - 1] == w);
            }
        }
        if w == v {
            assert(t[at] == w);
        }
        if s.contains(w) {
            let k = choose|k: int| 0 <= k < s.len() && s[k] == w;
            if k < at {
                assert(t[k] == w);
            } else {
                assert(t[k + 1] == w);
            }
        }
    }
    if s.no_duplicates() {
        assert forall|a: int, b: int| 0 <= a < t.len() && 0 <= b < t.len() && a != b implies t[a]
            != t[b] by {
            let sa = if a < at { a } else { a - 1 };
            let sb = if b < at { b } else { b - 1 };
            if a != at && b != at {
                assert(t[a] == s[sa]);
                assert(t[b] == s[sb]);
            } else if a == at {
                assert(t[b] == s[sb]);
                assert(s.contains(s[sb]));
            } else {
                assert(t[a] == s[sa]);
                assert(s.contains(s[sa]));
            }
        }
    }
}

/// Visiting `c` between position `i` of a closed path and the position
/// after it lengthens the path by exactly the detour through `c`.
pub proof fn lemma_insertion_length(ps: Seq<Point>, i: int, c: Point)
    requires
        0 <= i < ps.len(),
    ensures
        cycle_length(ps.insert((i + 1) % (ps.len() as int), c)) == cycle_length(ps) + detour(
            ps[i],
            c,
            ps[(i + 1) % (ps.len() as int)],
        ),
{
    let n = ps.len() as int;
    let mid = seq![c];
    if i + 1 < n {
        assert((i + 1) % n == i + 1) by (nonlinear_arith)
            requires
                0 <= i + 1 < n,
        ;
        let a = ps.subrange(0, i + 1);
        let b = ps.subrange(i + 1, n);
        assert(ps =~= a + b);
        assert(ps.insert(i + 1, c) =~= (a + mid) + b);
        lemma_path_concat(a, b);
        lemma_path_concat(a, mid);
        lemma_path_concat(a + mid, b);
    } else {
        assert((i + 1) % n == 0) by (nonlinear_arith)
            requires
                i + 1 == n,
                n > 0,
        ;
        assert(ps.insert(0, c) =~= mid + ps);
        lemma_path_concat(mid, ps);
        lemma_sq_dist(c, ps[0]);
    }
}

} // verus!
