//! How the builders divide a run of primitives in two, and the tree that
//! follows from dividing again and again.
//!
//! Everything here is specification: the executable builders are proved to
//! produce exactly the tree that [`tree_of`] names.

use vstd::prelude::*;
use vstd::seq_lib::*;
use vstd::multiset::*;
use crate::aabb::{
    AABB, Axis, IndexedAABB, union_of, lemma_union_concat, lemma_union_single,
    lemma_grow_commutative, lemma_grow_associative, lemma_grow_empty,
};
use crate::node::NodeView;
use crate::layout::{is_subtree, has_pivots, leaf_items, lemma_leaf_items_concat};

verus! {

/// The coordinate by which an item is ordered along `axis`: its centroid's.
pub open spec fn key_on<I>(item: IndexedAABB<I>, axis: Axis) -> int {
    item.aabb.spec_centroid()[axis.index()] as int
}

/// The ordered run `s` with `x` put in behind every item whose key is not
/// larger than its own.
pub open spec fn insert_on<I>(s: Seq<IndexedAABB<I>>, x: IndexedAABB<I>, axis: Axis) -> Seq<
    IndexedAABB<I>,
>
    decreases s.len(),
{
    if s.len() == 0 || key_on(s.last(), axis) <= key_on(x, axis) {
        s.push(x)
    } else {
        insert_on(s.drop_last(), x, axis).push(s.last())
    }
}

/// The items of `s` in ascending order of their centroids along `axis`; items
/// with equal centroids keep the order they had in `s`.
pub open spec fn sorted_on<I>(s: Seq<IndexedAABB<I>>, axis: Axis) -> Seq<IndexedAABB<I>>
    decreases s.len(),
{
    if s.len() == 0 {
        s
    } else {
        insert_on(sorted_on(s.drop_last(), axis), s.last(), axis)
    }
}

/// The items of `s` whose key along `axis` is `c`, in the order of `s`.
pub open spec fn with_key<I>(s: Seq<IndexedAABB<I>>, axis: Axis, c: int) -> Seq<IndexedAABB<I>>
    decreases s.len(),
{
    if s.len() == 0 {
        Seq::empty()
    } else if key_on(s.last(), axis) == c {
        with_key(s.drop_last(), axis, c).push(s.last())
    } else {
        with_key(s.drop_last(), axis, c)
    }
}

/// Whether the keys of `s` along `axis` never fall.
pub open spec fn is_ordered_on<I>(s: Seq<IndexedAABB<I>>, axis: Axis) -> bool {
    forall|i: int, j: int| 0 <= i <= j < s.len() ==> key_on(s[i], axis) <= key_on(s[j], axis)
}

/// The cost of dividing `s` behind its first `k` items: the surface areas of
/// the two halves' boxes, added. The heuristic divides this sum by the area of
/// the parent's box, which is the same for every `k` and so does not change
/// which `k` is cheapest.
pub open spec fn split_cost<I>(s: Seq<IndexedAABB<I>>, k: int) -> int {
    union_of(s.take(k)).area() + union_of(s.skip(k)).area()
}

/// The cheapest of the divisions behind `1..=m` items; of several cheapest the
/// first.
pub open spec fn best_split<I>(s: Seq<IndexedAABB<I>>, m: int) -> int
    decreases m,
{
    if m <= 1 {
        1
    } else {
        let j = best_split(s, m - 1);
        if split_cost(s, m) < split_cost(s, j) {
            m
        } else {
            j
        }
    }
}

/// The box of the centroids of `items`.
pub open spec fn centroid_bounds<I>(items: Seq<IndexedAABB<I>>) -> AABB
    decreases items.len(),
{
    if items.len() == 0 {
        AABB::spec_empty()
    } else {
        centroid_bounds(items.drop_last()).spec_grow(AABB::point(items.last().aabb.spec_centroid()))
    }
}

/// A row of `count` equal buckets along `axis`, from `low` over `extent`.
pub struct Grid {
    pub axis: Axis,
    pub low: int,
    pub extent: int,
    pub count: int,
}

/// The bucket, in a row of `count` buckets over `extent`, of a centroid at
/// distance `d` from the row's low end: the ceiling of `d * count / extent`,
/// less one, kept within the row. The arithmetic is exact: a centroid on the
/// border between two buckets falls into the lower one, and the centroid at
/// the low end into bucket 0. Where the row has no extent the bucket is 0.
pub open spec fn slot(d: int, extent: int, count: int) -> int {
    if extent <= 0 || d <= 0 {
        0
    } else {
        let b = (d * count + extent - 1) / extent - 1;
        if b < 0 {
            0
        } else if b > count - 1 {
            count - 1
        } else {
            b
        }
    }
}

impl Grid {
    /// The bucket of `item`.
    pub open spec fn bucket<I>(self, item: IndexedAABB<I>) -> int {
        slot(key_on(item, self.axis) - self.low, self.extent, self.count)
    }
}

/// The row of `count` buckets that spans the centroids of `items` along the
/// axis on which they are spread most.
pub open spec fn grid_of<I>(items: Seq<IndexedAABB<I>>, count: int) -> Grid {
    let cb = centroid_bounds(items);
    let axis = cb.spec_largest_axis();
    Grid { axis, low: cb.min[axis.index()] as int, extent: cb.extent(axis.index()), count }
}

/// The items of `items` whose bucket is in `a..m`, in the order of `items`.
pub open spec fn pick<I>(items: Seq<IndexedAABB<I>>, g: Grid, a: int, m: int) -> Seq<
    IndexedAABB<I>,
>
    decreases items.len(),
{
    if items.len() == 0 {
        Seq::empty()
    } else if a <= g.bucket(items.last()) < m {
        pick(items.drop_last(), g, a, m).push(items.last())
    } else {
        pick(items.drop_last(), g, a, m)
    }
}

/// The contents of the buckets `a..m`, one bucket after the other, each in the
/// order of `items`.
pub open spec fn gather<I>(items: Seq<IndexedAABB<I>>, g: Grid, a: int, m: int) -> Seq<
    IndexedAABB<I>,
>
    decreases m - a,
{
    if m <= a {
        Seq::empty()
    } else {
        gather(items, g, a, m - 1) + pick(items, g, m - 1, m)
    }
}

/// The cost of dividing behind bucket `b`: the surface areas of the boxes of
/// what lies in the buckets up to `b` and of what lies in the buckets behind
/// it, added.
pub open spec fn boundary_cost<I>(items: Seq<IndexedAABB<I>>, g: Grid, b: int) -> int {
    union_of(gather(items, g, 0, b + 1)).area() + union_of(gather(items, g, b + 1, g.count)).area()
}

/// The cheapest of the boundaries `0..=m`; of several cheapest the first.
/// Every boundary has an item on its left: the item with the smallest
/// centroid always lies in bucket 0.
pub open spec fn best_boundary<I>(items: Seq<IndexedAABB<I>>, g: Grid, m: int) -> int
    decreases m,
{
    if m <= 0 {
        0
    } else {
        let j = best_boundary(items, g, m - 1);
        if boundary_cost(items, g, m) < boundary_cost(items, g, j) {
            m
        } else {
            j
        }
    }
}

/// The two ways of dividing.
pub enum Strategy {
    /// Order the items along the longest axis of their box and try every
    /// division of that order.
    Sweep,
    /// Drop the items into this many buckets along the axis on which their
    /// centroids are spread most, and try every boundary between buckets.
    Buckets(int),
}

impl Strategy {
    /// A row of buckets needs a boundary: at least two buckets.
    pub open spec fn is_valid(self) -> bool {
        match self {
            Strategy::Sweep => true,
            Strategy::Buckets(count) => count >= 2,
        }
    }
}

/// The order in which a node hands its items on to its children: the left
/// child gets a prefix of it, the right child the rest.
pub open spec fn arrange<I>(how: Strategy, items: Seq<IndexedAABB<I>>) -> Seq<IndexedAABB<I>> {
    match how {
        Strategy::Sweep => sorted_on(items, union_of(items).spec_largest_axis()),
        Strategy::Buckets(count) => {
            let g = grid_of(items, count);
            if items.len() <= 2 || g.extent <= 0 {
                items
            } else {
                gather(items, g, 0, count)
            }
        },
    }
}

/// How many of the arranged items go to the left child.
///
/// With buckets, two items are divided one and one. Where all centroids
/// coincide only one bucket is occupied and the boundaries say nothing: the
/// items are then divided in the middle.
pub open spec fn split_at<I>(how: Strategy, items: Seq<IndexedAABB<I>>) -> int {
    match how {
        Strategy::Sweep => best_split(arrange(how, items), items.len() - 1),
        Strategy::Buckets(count) => {
            let g = grid_of(items, count);
            if items.len() <= 2 {
                1
            } else if g.extent <= 0 {
                items.len() as int / 2
            } else {
                gather(items, g, 0, best_boundary(items, g, count - 2) + 1).len() as int
            }
        },
    }
}

/// The tree over `items` as it lies in the array from position `base` on,
/// with pivots in the `miss` fields, the root's being `pivot`.
///
/// One item makes a leaf. More items make an internal node with the box of
/// them all, followed by the tree over the left part of the arranged items,
/// whose pivot is this node, and then by the tree over the right part, whose
/// pivot is this node's own.
pub open spec fn tree_of<I>(how: Strategy, items: Seq<IndexedAABB<I>>, base: int, pivot: int) -> Seq<
    NodeView<I>,
>
    decreases items.len(),
{
    if items.len() <= 1 {
        seq![NodeView::Leaf { aabb: items[0].aabb, index: items[0].index, miss: pivot }]
    } else {
        let arranged = arrange(how, items);
        let k = split_at(how, items);
        if arranged.len() == items.len() && 0 < k < items.len() {
            let left = tree_of(how, arranged.take(k), base + 1, base);
            let right = tree_of(how, arranged.skip(k), base + 1 + left.len(), pivot);
            seq![
                NodeView::Internal {
                    aabb: union_of(items),
                    right: base + 1 + left.len(),
                    miss: pivot,
                },
            ] + left + right
        } else {
            Seq::empty()
        }
    }
}

/// Whether `v` holds the nodes of `t` from position `base` on.
pub open spec fn embeds<I>(v: Seq<NodeView<I>>, t: Seq<NodeView<I>>, base: int) -> bool {
    &&& 0 <= base
    &&& base + t.len() <= v.len()
    &&& forall|j: int| 0 <= j < t.len() ==> v[base + j] == #[trigger] t[j]
}

/// Putting an item into a run adds just that item.
pub proof fn lemma_insert_on<I>(s: Seq<IndexedAABB<I>>, x: IndexedAABB<I>, axis: Axis)
    ensures
        insert_on(s, x, axis).len() == s.len() + 1,
        insert_on(s, x, axis).to_multiset() == s.to_multiset().insert(x),
        is_ordered_on(s, axis) ==> is_ordered_on(insert_on(s, x, axis), axis),
        forall|i: int|
            0 <= i < insert_on(s, x, axis).len() ==> #[trigger] insert_on(s, x, axis)[i] == x
                || s.contains(insert_on(s, x, axis)[i]),
    decreases s.len(),
{
    broadcast use group_multiset_axioms;

    let r = insert_on(s, x, axis);
    if s.len() == 0 || key_on(s.last(), axis) <= key_on(x, axis) {
        to_multiset_build(s, x);
        assert forall|i: int| 0 <= i < r.len() implies #[trigger] r[i] == x || s.contains(r[i]) by {
            if i < s.len() {
                assert(s[i] == r[i]);
            }
        }
    } else {
        let t = s.drop_last();
        let u = insert_on(t, x, axis);
        lemma_insert_on(t, x, axis);
        to_multiset_build(u, s.last());
        to_multiset_build(t, s.last());
        assert(t.push(s.last()) =~= s);
        assert(r.to_multiset() =~= s.to_multiset().insert(x));
        assert forall|i: int| 0 <= i < r.len() implies #[trigger] r[i] == x || s.contains(r[i]) by {
            if i < u.len() {
                assert(r[i] == u[i]);
                if u[i] != x {
                    assert(t.contains(u[i]));
                    let w = choose|w: int| 0 <= w < t.len() && t[w] == u[i];
                    assert(s[w] == u[i]);
                }
            } else {
                assert(r[i] == s[s.len() - 1]);
            }
        }
        if is_ordered_on(s, axis) {
            assert(is_ordered_on(t, axis)) by {
                assert forall|i: int, j: int| 0 <= i <= j < t.len() implies key_on(t[i], axis)
                    <= key_on(t[j], axis) by {
                    assert(t[i] == s[i] && t[j] == s[j]);
                }
            }
            assert forall|i: int, j: int| 0 <= i <= j < r.len() implies key_on(r[i], axis)
                <= key_on(r[j], axis) by {
                if j < u.len() {
                    assert(r[i] == u[i] && r[j] == u[j]);
                } else if i < u.len() {
                    assert(r[i] == u[i]);
                    if u[i] != x {
                        assert(t.contains(u[i]));
                        let w = choose|w: int| 0 <= w < t.len() && t[w] == u[i];
                        assert(s[w] == u[i]);
                    }
                }
            }
        }
    }
}

/// An item that is put into a run comes behind the items with its own key,
/// and the items with any other key stay as they are.
pub proof fn lemma_insert_on_keys<I>(s: Seq<IndexedAABB<I>>, x: IndexedAABB<I>, axis: Axis, c: int)
    ensures
        with_key(insert_on(s, x, axis), axis, c) == if key_on(x, axis) == c {
            with_key(s, axis, c).push(x)
        } else {
            with_key(s, axis, c)
        },
    decreases s.len(),
{
    if s.len() == 0 || key_on(s.last(), axis) <= key_on(x, axis) {
        assert(s.push(x).drop_last() =~= s);
    } else {
        let rest = insert_on(s.drop_last(), x, axis);
        lemma_insert_on_keys(s.drop_last(), x, axis, c);
        assert(rest.push(s.last()).drop_last() =~= rest);
    }
}

/// Ordering a run is stable: the items with one key stand in the ordered run
/// as they stood in the run.
pub proof fn lemma_sorted_on_stable<I>(s: Seq<IndexedAABB<I>>, axis: Axis, c: int)
    ensures
        with_key(sorted_on(s, axis), axis, c) == with_key(s, axis, c),
    decreases s.len(),
{
    if s.len() > 0 {
        lemma_sorted_on_stable(s.drop_last(), axis, c);
        lemma_insert_on_keys(sorted_on(s.drop_last(), axis), s.last(), axis, c);
    }
}

/// Ordering a run keeps its items and puts them in order.
pub proof fn lemma_sorted_on<I>(s: Seq<IndexedAABB<I>>, axis: Axis)
    ensures
        sorted_on(s, axis).len() == s.len(),
        sorted_on(s, axis).to_multiset() == s.to_multiset(),
        is_ordered_on(sorted_on(s, axis), axis),
    decreases s.len(),
{
    broadcast use group_multiset_axioms;

    if s.len() > 0 {
        lemma_sorted_on(s.drop_last(), axis);
        lemma_insert_on(sorted_on(s.drop_last(), axis), s.last(), axis);
        to_multiset_build(s.drop_last(), s.last());
        assert(s.drop_last().push(s.last()) =~= s);
    }
}

/// The chosen division is one of those tried, none is cheaper, and none
/// before it is as cheap.
pub proof fn lemma_best_split<I>(s: Seq<IndexedAABB<I>>, m: int)
    requires
        1 <= m,
    ensures
        1 <= best_split(s, m) <= m,
        forall|k: int| 1 <= k <= m ==> split_cost(s, best_split(s, m)) <= #[trigger] split_cost(s, k),
        forall|k: int|
            1 <= k < best_split(s, m) ==> split_cost(s, best_split(s, m)) < #[trigger] split_cost(
                s,
                k,
            ),
    decreases m,
{
    if m > 1 {
        lemma_best_split(s, m - 1);
    }
}

/// The chosen boundary is one of those tried, none is cheaper, and none before
/// it is as cheap.
pub proof fn lemma_best_boundary<I>(items: Seq<IndexedAABB<I>>, g: Grid, m: int)
    requires
        0 <= m,
    ensures
        0 <= best_boundary(items, g, m) <= m,
        forall|b: int|
            0 <= b <= m ==> boundary_cost(items, g, best_boundary(items, g, m))
                <= #[trigger] boundary_cost(items, g, b),
        forall|b: int|
            0 <= b < best_boundary(items, g, m) ==> boundary_cost(
                items,
                g,
                best_boundary(items, g, m),
            ) < #[trigger] boundary_cost(items, g, b),
    decreases m,
{
    if m > 0 {
        lemma_best_boundary(items, g, m - 1);
    }
}

/// The union of a run is the union of the run without one item, grown by that
/// item.
pub proof fn lemma_union_remove<I>(s: Seq<IndexedAABB<I>>, i: int)
    requires
        0 <= i < s.len(),
    ensures
        union_of(s) == union_of(s.remove(i)).spec_grow(s[i].aabb),
{
    let a = s.subrange(0, i);
    let x = seq![s[i]];
    let b = s.subrange(i + 1, s.len() as int);
    assert(s =~= a + (x + b));
    assert(s.remove(i) =~= a + b);
    lemma_union_concat(a, x + b);
    lemma_union_concat(x, b);
    lemma_union_concat(a, b);
    lemma_union_single(x);
    let ua = union_of(a);
    let ub = union_of(b);
    let bx = s[i].aabb;
    lemma_grow_commutative(bx, ub);
    lemma_grow_associative(ua, ub, bx);
}

/// The union of a run does not depend on the order of its items.
pub proof fn lemma_union_permutation<I>(a: Seq<IndexedAABB<I>>, b: Seq<IndexedAABB<I>>)
    requires
        a.to_multiset() == b.to_multiset(),
    ensures
        union_of(a) == union_of(b),
    decreases a.len(),
{
    broadcast use group_multiset_axioms;

    to_multiset_len(a);
    to_multiset_len(b);
    if a.len() > 0 {
        let x = a.last();
        let a1 = a.drop_last();
        assert(a1.push(x) =~= a);
        to_multiset_build(a1, x);
        to_multiset_contains(b, x);
        assert(b.to_multiset().count(x) > 0);
        assert(b.contains(x));
        let i = choose|i: int| 0 <= i < b.len() && b[i] == x;
        let b1 = b.remove(i);
        to_multiset_remove(b, i);
        assert(a1.to_multiset() =~= b1.to_multiset());
        lemma_union_permutation(a1, b1);
        lemma_union_remove(b, i);
    }
}


/// The box of the centroids reaches on every axis from the smallest centroid
/// to the largest, and both are centroids of items.
pub proof fn lemma_centroid_bounds<I>(items: Seq<IndexedAABB<I>>, k: int)
    requires
        items.len() >= 1,
        0 <= k < 3,
    ensures
        forall|i: int|
            0 <= i < items.len() ==> centroid_bounds(items).min[k] <= (#[trigger] items[i]).aabb.spec_centroid()[k]
                <= centroid_bounds(items).max[k],
        exists|i: int|
            0 <= i < items.len() && (#[trigger] items[i]).aabb.spec_centroid()[k] == centroid_bounds(
                items,
            ).min[k],
        exists|i: int|
            0 <= i < items.len() && (#[trigger] items[i]).aabb.spec_centroid()[k] == centroid_bounds(
                items,
            ).max[k],
    decreases items.len(),
{
    let rest = items.drop_last();
    let c = items.last().aabb.spec_centroid();
    let last = items.len() - 1;
    let cb = centroid_bounds(items);
    if rest.len() == 0 {
        assert(centroid_bounds(rest) == AABB::spec_empty());
        lemma_grow_empty(AABB::point(c));
        assert(items[last].aabb.spec_centroid()[k] == cb.min[k]);
        assert(items[last].aabb.spec_centroid()[k] == cb.max[k]);
    } else {
        lemma_centroid_bounds(rest, k);
        let rb = centroid_bounds(rest);
        assert forall|i: int| 0 <= i < items.len() implies cb.min[k] <= (#[trigger] items[i]).aabb.spec_centroid()[k]
            <= cb.max[k] by {
            if i < last {
                assert(rest[i] == items[i]);
            }
        }
        if c[k] <= rb.min[k] {
            assert(items[last].aabb.spec_centroid()[k] == cb.min[k]);
        } else {
            let i = choose|i: int| 0 <= i < rest.len() && (#[trigger] rest[i]).aabb.spec_centroid()[k] == rb.min[k];
            assert(rest[i] == items[i]);
            assert(items[i].aabb.spec_centroid()[k] == cb.min[k]);
        }
        if c[k] >= rb.max[k] {
            assert(items[last].aabb.spec_centroid()[k] == cb.max[k]);
        } else {
            let i = choose|i: int| 0 <= i < rest.len() && (#[trigger] rest[i]).aabb.spec_centroid()[k] == rb.max[k];
            assert(rest[i] == items[i]);
            assert(items[i].aabb.spec_centroid()[k] == cb.max[k]);
        }
    }
}

/// Every bucket index lies within the row.
pub proof fn lemma_bucket_in_row<I>(g: Grid, item: IndexedAABB<I>)
    requires
        g.count >= 1,
    ensures
        0 <= g.bucket(item) < g.count,
{
}

/// In a row with an extent, the item at the far end falls into the last
/// bucket.
pub proof fn lemma_bucket_of_far_end<I>(g: Grid, item: IndexedAABB<I>)
    requires
        g.count >= 1,
        g.extent > 0,
        key_on(item, g.axis) - g.low == g.extent,
    ensures
        g.bucket(item) == g.count - 1,
{
    vstd::arithmetic::div_mod::lemma_div_multiples_vanish_fancy(g.count, g.extent - 1, g.extent);
    assert(g.extent * g.count + (g.extent - 1) == g.extent * g.count + g.extent - 1);
}

/// The spanning row holds every item, has the item with the smallest centroid
/// in its first bucket and, where it has an extent, the item with the largest
/// centroid in its last.
pub proof fn lemma_grid_of<I>(items: Seq<IndexedAABB<I>>, count: int)
    requires
        items.len() >= 1,
        count >= 2,
    ensures
        grid_of(items, count).extent >= 0,
        exists|i: int| 0 <= i < items.len() && grid_of(items, count).bucket(#[trigger] items[i]) == 0,
        grid_of(items, count).extent > 0 ==> exists|i: int|
            0 <= i < items.len() && grid_of(items, count).bucket(#[trigger] items[i]) == count - 1,
{
    let g = grid_of(items, count);
    let cb = centroid_bounds(items);
    let k = g.axis.index();
    lemma_centroid_bounds(items, k);
    let i = choose|i: int| 0 <= i < items.len() && (#[trigger] items[i]).aabb.spec_centroid()[k] == cb.min[k];
    assert(g.bucket(items[i]) == 0);
    let j = choose|j: int| 0 <= j < items.len() && (#[trigger] items[j]).aabb.spec_centroid()[k] == cb.max[k];
    if g.extent > 0 {
        lemma_bucket_of_far_end(g, items[j]);
    }
}

/// Only one bucket of the spanning row is occupied exactly where the row has
/// no extent, which is where all centroids coincide on every axis.
pub proof fn lemma_one_bucket<I>(items: Seq<IndexedAABB<I>>, count: int)
    requires
        items.len() >= 1,
        count >= 2,
    ensures
        grid_of(items, count).extent <= 0 <==> (forall|i: int, j: int|
            0 <= i < items.len() && 0 <= j < items.len() ==> grid_of(items, count).bucket(
                #[trigger] items[i],
            ) == grid_of(items, count).bucket(#[trigger] items[j])),
        grid_of(items, count).extent <= 0 ==> (forall|k: int|
            0 <= k < 3 ==> centroid_bounds(items).extent(k) == 0),
{
    let g = grid_of(items, count);
    let cb = centroid_bounds(items);
    lemma_grid_of(items, count);
    lemma_centroid_bounds(items, 0);
    lemma_centroid_bounds(items, 1);
    lemma_centroid_bounds(items, 2);
    if g.extent > 0 {
        let i = choose|i: int| 0 <= i < items.len() && g.bucket(#[trigger] items[i]) == 0;
        let j = choose|j: int| 0 <= j < items.len() && g.bucket(#[trigger] items[j]) == count - 1;
        assert(g.bucket(items[i]) != g.bucket(items[j]));
    } else {
        assert(items[0].aabb.spec_centroid()[0] <= cb.max[0]);
        assert(items[0].aabb.spec_centroid()[1] <= cb.max[1]);
        assert(items[0].aabb.spec_centroid()[2] <= cb.max[2]);
    }
}

/// Picking from all buckets of the row picks every item.
pub proof fn lemma_pick_all<I>(items: Seq<IndexedAABB<I>>, g: Grid)
    requires
        g.count >= 1,
    ensures
        pick(items, g, 0, g.count) == items,
    decreases items.len(),
{
    if items.len() > 0 {
        lemma_pick_all(items.drop_last(), g);
        lemma_bucket_in_row(g, items.last());
        assert(items.drop_last().push(items.last()) =~= items);
    }
}

/// What is picked from a range of buckets is what is picked from its two
/// parts, but for the order.
pub proof fn lemma_pick_split<I>(items: Seq<IndexedAABB<I>>, g: Grid, a: int, b: int, m: int)
    requires
        a <= b <= m,
    ensures
        pick(items, g, a, m).to_multiset() == pick(items, g, a, b).to_multiset().add(
            pick(items, g, b, m).to_multiset(),
        ),
        pick(items, g, a, m).len() == pick(items, g, a, b).len() + pick(items, g, b, m).len(),
    decreases items.len(),
{
    broadcast use group_multiset_axioms;

    if items.len() == 0 {
        let none = Seq::<IndexedAABB<I>>::empty();
        lemma_multiset_commutative(none, none);
        assert(none + none =~= none);
    } else {
        let rest = items.drop_last();
        let x = items.last();
        lemma_pick_split(rest, g, a, b, m);
        let whole = pick(rest, g, a, m);
        let low = pick(rest, g, a, b);
        let high = pick(rest, g, b, m);
        to_multiset_build(whole, x);
        to_multiset_build(low, x);
        to_multiset_build(high, x);
        let k = g.bucket(x);
        if a <= k < b {
            assert(pick(items, g, a, m) == whole.push(x));
            assert(pick(items, g, a, b) == low.push(x));
            assert(pick(items, g, b, m) == high);
            assert(whole.to_multiset().insert(x) =~= low.to_multiset().insert(x).add(
                high.to_multiset(),
            ));
        } else if b <= k < m {
            assert(pick(items, g, a, m) == whole.push(x));
            assert(pick(items, g, a, b) == low);
            assert(pick(items, g, b, m) == high.push(x));
            assert(whole.to_multiset().insert(x) =~= low.to_multiset().add(
                high.to_multiset().insert(x),
            ));
        } else {
            assert(pick(items, g, a, m) == whole);
            assert(pick(items, g, a, b) == low);
            assert(pick(items, g, b, m) == high);
        }
    }
}

/// An item whose bucket is in the range is among those picked.
pub proof fn lemma_pick_nonempty<I>(items: Seq<IndexedAABB<I>>, g: Grid, a: int, m: int, i: int)
    requires
        0 <= i < items.len(),
        a <= g.bucket(items[i]) < m,
    ensures
        pick(items, g, a, m).len() >= 1,
    decreases items.len(),
{
    if i < items.len() - 1 {
        lemma_pick_nonempty(items.drop_last(), g, a, m, i);
    }
}

/// The contents of a range of buckets are the contents of its two parts, one
/// after the other.
pub proof fn lemma_gather_split<I>(items: Seq<IndexedAABB<I>>, g: Grid, a: int, b: int, m: int)
    requires
        a <= b <= m,
    ensures
        gather(items, g, a, m) == gather(items, g, a, b) + gather(items, g, b, m),
    decreases m - b,
{
    if m == b {
        assert(gather(items, g, a, b) + Seq::<IndexedAABB<I>>::empty() =~= gather(items, g, a, b));
    } else {
        lemma_gather_split(items, g, a, b, m - 1);
        let x = gather(items, g, a, b);
        let y = gather(items, g, b, m - 1);
        let z = pick(items, g, m - 1, m);
        assert((x + y) + z =~= x + (y + z));
    }
}

/// The contents of a range of buckets are the items picked from that range,
/// but for the order.
pub proof fn lemma_gather_multiset<I>(items: Seq<IndexedAABB<I>>, g: Grid, a: int, m: int)
    requires
        a <= m,
    ensures
        gather(items, g, a, m).to_multiset() == pick(items, g, a, m).to_multiset(),
        gather(items, g, a, m).len() == pick(items, g, a, m).len(),
    decreases m - a,
{
    broadcast use group_multiset_axioms;

    if m == a {
        lemma_pick_none(items, g, a);
    } else {
        lemma_gather_multiset(items, g, a, m - 1);
        lemma_pick_split(items, g, a, m - 1, m);
        lemma_multiset_commutative(gather(items, g, a, m - 1), pick(items, g, m - 1, m));
    }
    to_multiset_len(gather(items, g, a, m));
    to_multiset_len(pick(items, g, a, m));
}

/// Nothing is picked from no buckets.
pub proof fn lemma_pick_none<I>(items: Seq<IndexedAABB<I>>, g: Grid, a: int)
    ensures
        pick(items, g, a, a) == Seq::<IndexedAABB<I>>::empty(),
    decreases items.len(),
{
    if items.len() > 0 {
        lemma_pick_none(items.drop_last(), g, a);
    }
}

/// Either way of dividing hands on all the items and leaves at least one on
/// either side.
pub proof fn lemma_partition_valid<I>(how: Strategy, items: Seq<IndexedAABB<I>>)
    requires
        how.is_valid(),
        items.len() >= 2,
    ensures
        arrange(how, items).len() == items.len(),
        arrange(how, items).to_multiset() == items.to_multiset(),
        0 < split_at(how, items) < items.len(),
{
    match how {
        Strategy::Sweep => {
            lemma_sorted_on(items, union_of(items).spec_largest_axis());
            lemma_best_split(arrange(how, items), items.len() - 1);
        },
        Strategy::Buckets(count) => {
            let g = grid_of(items, count);
            if items.len() > 2 && g.extent > 0 {
                let b = best_boundary(items, g, count - 2);
                lemma_best_boundary(items, g, count - 2);
                lemma_gather_multiset(items, g, 0, count);
                lemma_pick_all(items, g);
                lemma_gather_multiset(items, g, 0, b + 1);
                lemma_pick_split(items, g, 0, b + 1, count);
                lemma_grid_of(items, count);
                let i = choose|i: int| 0 <= i < items.len() && g.bucket(#[trigger] items[i]) == 0;
                let j = choose|j: int| 0 <= j < items.len() && g.bucket(#[trigger] items[j]) == count - 1;
                lemma_pick_nonempty(items, g, 0, b + 1, i);
                lemma_pick_nonempty(items, g, b + 1, count, j);
            }
        },
    }
}

/// A tree over `n` items is `2n - 1` nodes long.
pub proof fn lemma_tree_of_len<I>(how: Strategy, items: Seq<IndexedAABB<I>>, base: int, pivot: int)
    requires
        how.is_valid(),
        items.len() >= 1,
    ensures
        tree_of(how, items, base, pivot).len() == 2 * items.len() - 1,
    decreases items.len(),
{
    if items.len() > 1 {
        lemma_partition_valid(how, items);
        let arranged = arrange(how, items);
        let k = split_at(how, items);
        lemma_tree_of_len(how, arranged.take(k), base + 1, base);
        let left = tree_of(how, arranged.take(k), base + 1, base);
        lemma_tree_of_len(how, arranged.skip(k), base + 1 + left.len(), pivot);
    }
}

/// The box of a run is the box of its left part grown by the box of its
/// right part.
pub proof fn lemma_parts_union<I>(how: Strategy, items: Seq<IndexedAABB<I>>)
    requires
        how.is_valid(),
        items.len() >= 2,
    ensures
        union_of(items) == union_of(arrange(how, items).take(split_at(how, items))).spec_grow(
            union_of(arrange(how, items).skip(split_at(how, items))),
        ),
{
    lemma_partition_valid(how, items);
    let arranged = arrange(how, items);
    let k = split_at(how, items);
    assert(arranged =~= arranged.take(k) + arranged.skip(k));
    lemma_union_concat(arranged.take(k), arranged.skip(k));
    lemma_union_permutation(arranged, items);
}

/// Where a tree over several items lies in an array, its root is followed by
/// the tree over the left part and then by the tree over the right part.
pub proof fn lemma_tree_of_parts<I>(
    how: Strategy,
    items: Seq<IndexedAABB<I>>,
    base: int,
    pivot: int,
    v: Seq<NodeView<I>>,
)
    requires
        how.is_valid(),
        items.len() >= 2,
        embeds(v, tree_of(how, items, base, pivot), base),
    ensures
        ({
            let k = split_at(how, items);
            let l_items = arrange(how, items).take(k);
            let r_items = arrange(how, items).skip(k);
            &&& 0 < k < items.len()
            &&& l_items.len() == k
            &&& r_items.len() == items.len() - k
            &&& v[base] == (NodeView::<I>::Internal {
                aabb: union_of(items),
                right: base + 2 * k,
                miss: pivot,
            })
            &&& embeds(v, tree_of(how, l_items, base + 1, base), base + 1)
            &&& embeds(v, tree_of(how, r_items, base + 2 * k, pivot), base + 2 * k)
        }),
{
    let t = tree_of(how, items, base, pivot);
    lemma_partition_valid(how, items);
    let arranged = arrange(how, items);
    let k = split_at(how, items);
    let l_items = arranged.take(k);
    let r_items = arranged.skip(k);
    let left = tree_of(how, l_items, base + 1, base);
    lemma_tree_of_len(how, l_items, base + 1, base);
    let right_at = base + 1 + left.len();
    let right = tree_of(how, r_items, right_at, pivot);
    lemma_tree_of_len(how, r_items, right_at, pivot);
    let head = seq![NodeView::Internal { aabb: union_of(items), right: right_at, miss: pivot }];
    assert(t == head + left + right);
    assert(t.len() == 1 + left.len() + right.len());
    assert(t[0] == head[0]);
    assert(v[base + 0] == t[0]);
    assert forall|j: int| 0 <= j < left.len() implies v[base + 1 + j] == #[trigger] left[j] by {
        assert(t[1 + j] == left[j]);
        assert(v[base + (1 + j)] == t[1 + j]);
    }
    assert forall|j: int| 0 <= j < right.len() implies v[right_at + j] == #[trigger] right[j] by {
        assert(t[1 + left.len() + j] == right[j]);
        assert(v[base + (1 + left.len() + j)] == t[1 + left.len() + j]);
    }
}

/// Wherever the tree over `items` lies in an array, it lies there as a
/// subtree with its pivots, and its root carries the box of all the items.
pub proof fn lemma_tree_of_shape<I>(
    how: Strategy,
    items: Seq<IndexedAABB<I>>,
    base: int,
    pivot: int,
    v: Seq<NodeView<I>>,
)
    requires
        how.is_valid(),
        items.len() >= 1,
        embeds(v, tree_of(how, items, base, pivot), base),
    ensures
        is_subtree(v, base, base + 2 * items.len() - 1),
        has_pivots(v, base, base + 2 * items.len() - 1, pivot),
        v[base].aabb() == union_of(items),
    decreases items.len(),
{
    lemma_tree_of_len(how, items, base, pivot);
    if items.len() == 1 {
        let t = tree_of(how, items, base, pivot);
        assert(v[base + 0] == t[0]);
        lemma_union_single(items);
    } else {
        lemma_tree_of_parts(how, items, base, pivot, v);
        let k = split_at(how, items);
        let l_items = arrange(how, items).take(k);
        let r_items = arrange(how, items).skip(k);
        lemma_tree_of_shape(how, l_items, base + 1, base, v);
        lemma_tree_of_shape(how, r_items, base + 2 * k, pivot, v);
        lemma_parts_union(how, items);
        let e = base + 2 * items.len() - 1;
        let r = base + 2 * k;
        assert(is_subtree(v, base + 1, r));
        assert(is_subtree(v, r, e));
        assert(has_pivots(v, base + 1, r, base));
        assert(has_pivots(v, r, e, pivot));
    }
}

/// The leaves of the tree over `items` hold exactly the items, each once.
pub proof fn lemma_tree_of_leaves<I>(how: Strategy, items: Seq<IndexedAABB<I>>, base: int, pivot: int)
    requires
        how.is_valid(),
        items.len() >= 1,
    ensures
        leaf_items(tree_of(how, items, base, pivot)).to_multiset() == items.to_multiset(),
    decreases items.len(),
{
    broadcast use group_multiset_axioms;

    let t = tree_of(how, items, base, pivot);
    if items.len() == 1 {
        assert(t.drop_last() =~= Seq::<NodeView<I>>::empty());
        assert(leaf_items(t.drop_last()) =~= Seq::<IndexedAABB<I>>::empty());
        let it = IndexedAABB { index: items[0].index, aabb: items[0].aabb };
        assert(leaf_items(t) =~= seq![it]);
        assert(items =~= seq![it]);
    } else {
        lemma_partition_valid(how, items);
        let arranged = arrange(how, items);
        let k = split_at(how, items);
        let l_items = arranged.take(k);
        let r_items = arranged.skip(k);
        let left = tree_of(how, l_items, base + 1, base);
        let right = tree_of(how, r_items, base + 1 + left.len(), pivot);
        let head = seq![
            NodeView::Internal { aabb: union_of(items), right: base + 1 + left.len(), miss: pivot },
        ];
        lemma_tree_of_leaves(how, l_items, base + 1, base);
        lemma_tree_of_leaves(how, r_items, base + 1 + left.len(), pivot);
        lemma_leaf_items_concat(head + left, right);
        lemma_leaf_items_concat(head, left);
        assert(head.drop_last() =~= Seq::<NodeView<I>>::empty());
        assert(leaf_items(head.drop_last()) =~= Seq::<IndexedAABB<I>>::empty());
        assert(leaf_items(head) =~= Seq::<IndexedAABB<I>>::empty());
        assert(leaf_items(head) + leaf_items(left) =~= leaf_items(left));
        lemma_multiset_commutative(leaf_items(left), leaf_items(right));
        lemma_multiset_commutative(l_items, r_items);
        assert(arranged =~= l_items + r_items);
    }
}

} // verus!
