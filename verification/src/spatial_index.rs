//! The spatial index of the greedy strategy: a k-d tree of the `kiddo`
//! crate over grid positions, each stored under the index of its point.

use vstd::prelude::*;
use fixed::FixedU64;
use fixed::types::extra::U0;
use kiddo::fixed::distance::SquaredEuclidean;
use kiddo::fixed::kdtree::KdTree;
use crate::geometry::Point;

verus! {

/// How many entries one leaf of the tree holds.
pub const BUCKET: usize = 32;

/// The most leaves that one tree is let grow to, and the most entries
/// that room is reserved for when a tree is made.
pub const MAX_LEAVES: usize = 0x0100_0000;

/// The marker of `fixed` for a number without fractional bits; nothing
/// is known of it.
#[verifier::external_type_specification]
#[verifier::external_body]
pub struct ExU0(U0);

/// The 64-bit fixed-point number of `fixed`, carried as an opaque value.
#[verifier::external_type_specification]
#[verifier::external_body]
#[verifier::reject_recursive_types(Frac)]
pub struct ExFixedU64<Frac>(FixedU64<Frac>);

/// The fixed-point k-d tree of `kiddo`, carried as an opaque value: what
/// it holds is known through `index_entries` alone.
#[verifier::external_type_specification]
#[verifier::external_body]
#[verifier::reject_recursive_types(A)]
#[verifier::reject_recursive_types(T)]
#[verifier::reject_recursive_types(IDX)]
pub struct ExKdTree<A: Copy + Default, T: Copy + Default, const K: usize, const B: usize, IDX>(
    KdTree<A, T, K, B, IDX>,
);

/// The tree that the index is: positions as whole numbers of grid
/// units, point indices as items, leaves of `BUCKET` entries.
pub type PointIndex = KdTree<FixedU64<U0>, usize, 2, 32, u32>;

/// What the tree holds: under each stored point index, the position it
/// was stored at.
pub uninterp spec fn index_entries(tree: PointIndex) -> Map<usize, (u32, u32)>;

/// How many more leaves the tree may grow by before it reaches
/// `MAX_LEAVES`.
pub uninterp spec fn index_spare(tree: PointIndex) -> nat;

/// What an empty tree holds.
pub open spec fn no_entries() -> Map<usize, (u32, u32)> {
    Map::empty()
}

/// The entries under `keys` are as many as a leaf holds, all different,
/// and all on one line of the grid: one `x`, or one `y`.
pub open spec fn fills_a_line(entries: Map<usize, (u32, u32)>, keys: Seq<usize>) -> bool {
    &&& keys.len() == BUCKET
    &&& keys.no_duplicates()
    &&& forall|k: int| 0 <= k < keys.len() ==> entries.contains_key(#[trigger] keys[k])
    &&& {
        ||| forall|k: int|
            0 <= k < keys.len() ==> (#[trigger] entries[keys[k]]).0 == entries[keys[0]].0
        ||| forall|k: int|
            0 <= k < keys.len() ==> (#[trigger] entries[keys[k]]).1 == entries[keys[0]].1
    }
}

/// Some line of the grid holds as many entries as a leaf: a leaf that
/// filled up with them could not be split.
pub open spec fn crowded(entries: Map<usize, (u32, u32)>) -> bool {
    exists|keys: Seq<usize>| fills_a_line(entries, keys)
}

/// The tree holds an entry.
pub open spec fn holds_any(entries: Map<usize, (u32, u32)>) -> bool {
    exists|k: usize| entries.contains_key(k)
}

/// `KdTree::with_capacity` of `kiddo`'s fixed-point tree: an empty tree
/// with room reserved for `capacity` entries. The capacity is kept to
/// what one allocation can hold.
#[verifier::external_body]
pub(crate) fn index_with_capacity(capacity: usize) -> (tree: PointIndex)
    requires
        capacity <= MAX_LEAVES,
    ensures
        index_entries(tree) == no_entries(),
        index_spare(tree) == MAX_LEAVES - 1,
{
    KdTree::with_capacity(capacity)
}

/// `KdTree::add`: stores `item` at `p`. The source splits a full leaf
/// in two and gives up where all of the leaf's entries share the
/// coordinate it splits by, so a crowded tree is left out; so is an
/// `item` that the tree holds already, which a map could not show. One
/// call grows the tree by one leaf at most.
#[verifier::external_body]
pub(crate) fn index_add(tree: &mut PointIndex, p: Point, item: usize)
    requires
        !crowded(index_entries(*old(tree))),
        !index_entries(*old(tree)).contains_key(item),
        index_spare(*old(tree)) > 0,
    ensures
        index_entries(*final(tree)) == index_entries(*old(tree)).insert(item, (p.x, p.y)),
        index_spare(*final(tree)) >= index_spare(*old(tree)) - 1,
{
    let at = [FixedU64::<U0>::from_bits(p.x as u64), FixedU64::<U0>::from_bits(p.y as u64)];
    tree.add(&at, item);
}

/// `KdTree::remove`: takes `item` at `p` out of the leaf that a search
/// for `p` ends in. An entry that a split has left in another leaf
/// stays, so the contract says only that nothing else goes and nothing
/// comes.
#[verifier::external_body]
pub(crate) fn index_remove(tree: &mut PointIndex, p: Point, item: usize)
    ensures
        index_entries(*final(tree)).submap_of(index_entries(*old(tree))),
        forall|k: usize|
            k != item && index_entries(*old(tree)).contains_key(k) ==> #[trigger] index_entries(
                *final(tree),
            ).contains_key(k),
        index_spare(*final(tree)) == index_spare(*old(tree)),
{
    let at = [FixedU64::<U0>::from_bits(p.x as u64), FixedU64::<U0>::from_bits(p.y as u64)];
    tree.remove(&at, item);
}

/// `KdTree::nearest_n` with `kiddo`'s squared Euclidean metric: the
/// items stored nearest to `p`, nearest first, about `qty` of them.
/// Claimed here is only that each comes out of the tree, and that a
/// tree with entries yields one at least: while its heap is empty the
/// search enters every leaf and takes the first entry it meets. A `qty`
/// of 0 makes the source look into an empty heap, and a heap is
/// reserved for `qty` items before the search: both ends are left out.
#[verifier::external_body]
pub(crate) fn index_nearest(tree: &PointIndex, p: Point, qty: usize) -> (items: Vec<usize>)
    requires
        0 < qty <= MAX_LEAVES,
    ensures
        forall|k: int|
            0 <= k < items@.len() ==> index_entries(*tree).contains_key(#[trigger] items@[k]),
        holds_any(index_entries(*tree)) ==> items@.len() > 0,
{
    let at = [FixedU64::<U0>::from_bits(p.x as u64), FixedU64::<U0>::from_bits(p.y as u64)];
    tree.nearest_n::<SquaredEuclidean>(&at, qty).into_iter().map(|near| near.item).collect()
}

} // verus!
