//! The builder that orders the primitives and tries every division.

use vstd::prelude::*;
use crate::aabb::{AABB, Axis, IndexedAABB, union_of, union_range, lemma_union_single};
use crate::node::{BVHNode, MAX_POSITION, views, all_wf};
use crate::bvh::BVH;
use crate::grow::{grow, Method};
use crate::split::{key_on, insert_on, sorted_on, split_cost, best_split, Strategy, tree_of};

verus! {

/// The centroid coordinate of `item` along `axis`.
pub(crate) fn centroid_on<I>(item: &IndexedAABB<I>, axis: Axis) -> (r: i32)
    ensures
        r == key_on(*item, axis),
{
    let c = item.aabb.centroid();
    match axis {
        Axis::X => c[0],
        Axis::Y => c[1],
        Axis::Z => c[2],
    }
}

/// Orders `items[lo..hi]` by centroid along `axis`, keeping the order of items
/// with equal centroids, and leaves the rest of `items` alone.
pub(crate) fn sort_range<I: Copy>(items: &mut Vec<IndexedAABB<I>>, lo: usize, hi: usize, axis: Axis)
    requires
        lo <= hi <= old(items).len(),
    ensures
        final(items).len() == old(items).len(),
        final(items)@.subrange(lo as int, hi as int) == sorted_on(
            old(items)@.subrange(lo as int, hi as int),
            axis,
        ),
        forall|j: int|
            0 <= j < lo || hi <= j < old(items).len() ==> final(items)@[j] == old(items)@[j],
{
    let ghost before = items@;
    let mut i: usize = lo;
    assert(items@.subrange(lo as int, lo as int) =~= Seq::empty());
    assert(before.subrange(lo as int, lo as int) =~= Seq::empty());
    while i < hi
        invariant
            lo <= i <= hi <= items.len(),
            items.len() == before.len(),
            items@.subrange(lo as int, i as int) == sorted_on(before.subrange(lo as int, i as int), axis),
            forall|j: int| 0 <= j < lo || i <= j < before.len() ==> items@[j] == before[j],
        decreases hi - i,
    {
        let x = items[i];
        let key = centroid_on(&x, axis);
        let ghost run = items@.subrange(lo as int, i as int);
        let mut j: usize = i;
        proof {
            assert(run.take(run.len() as int) =~= run);
            assert(insert_on(run, x, axis) + run.skip(run.len() as int) =~= insert_on(run, x, axis));
        }
        while j > lo && centroid_on(&items[j - 1], axis) > key
            invariant
                lo <= j <= i < hi <= items.len(),
                items.len() == before.len(),
                run.len() == i - lo,
                key == key_on(x, axis),
                forall|t: int| lo <= t < j ==> items@[t] == run[t - lo],
                forall|t: int| j < t <= i ==> items@[t] == run[t - lo - 1],
                insert_on(run, x, axis) == insert_on(run.take(j - lo), x, axis) + run.skip(j - lo),
                forall|t: int| 0 <= t < lo || i < t < before.len() ==> items@[t] == before[t],
            decreases j,
        {
            proof {
                let m = j - lo;
                let head = run.take(m);
                assert(head.last() == run[m - 1]);
                assert(head.drop_last() =~= run.take(m - 1));
                assert(insert_on(head, x, axis) == insert_on(run.take(m - 1), x, axis).push(run[m - 1]));
                assert(insert_on(run.take(m - 1), x, axis).push(run[m - 1]) + run.skip(m)
                    =~= insert_on(run.take(m - 1), x, axis) + run.skip(m - 1));
            }
            let y = items[j - 1];
            items[j] = y;
            j -= 1;
        }
        items[j] = x;
        proof {
            let m = j - lo;
            let head = run.take(m);
            if m > 0 {
                assert(head.last() == run[m - 1]);
            }
            assert(insert_on(head, x, axis) == head.push(x));
            let grown = before.subrange(lo as int, i + 1);
            assert(grown.drop_last() =~= before.subrange(lo as int, i as int));
            assert(grown.last() == x);
            assert(items@.subrange(lo as int, i + 1) =~= head.push(x) + run.skip(m));
        }
        i += 1;
    }
}

/// Tries every division of the ordered run `children[lo..hi]` and returns the
/// cheapest: how many items go left, and the boxes of the two parts.
pub(crate) fn sweep_split<I>(children: &Vec<IndexedAABB<I>>, lo: usize, hi: usize) -> (r: (
    usize,
    AABB,
    AABB,
))
    requires
        lo + 2 <= hi <= children.len(),
    ensures
        r.0 == best_split(children@.subrange(lo as int, hi as int), hi - lo - 1),
        1 <= r.0 < hi - lo,
        r.1 == union_of(children@.subrange(lo as int, lo + r.0)),
        r.2 == union_of(children@.subrange(lo + r.0, hi as int)),
{
    let ghost sorted = children@.subrange(lo as int, hi as int);
    let n = hi - lo;
    let mut l_acc = children[lo].aabb;
    let mut best_k: usize = 1;
    let mut best_l = l_acc;
    let mut best_r = union_range(children, lo + 1, hi);
    let mut best_cost: i128 = best_l.surface_area() + best_r.surface_area();
    proof {
        lemma_union_single(sorted.take(1));
        assert(children@.subrange(lo + 1, hi as int) =~= sorted.skip(1));
    }
    let mut k: usize = 2;
    while k < n
        invariant
            2 <= k <= n,
            n == hi - lo,
            lo < hi <= children.len(),
            sorted == children@.subrange(lo as int, hi as int),
            l_acc == union_of(sorted.take(k - 1)),
            1 <= best_k < n,
            best_k == best_split(sorted, k - 1),
            best_l == union_of(sorted.take(best_k as int)),
            best_r == union_of(sorted.skip(best_k as int)),
            best_cost == split_cost(sorted, best_k as int),
        decreases n - k,
    {
        proof {
            assert(sorted.take(k as int).drop_last() =~= sorted.take(k - 1));
            assert(sorted.take(k as int).last() == children@[lo + k - 1]);
            assert(children@.subrange(lo + k, hi as int) =~= sorted.skip(k as int));
        }
        l_acc = l_acc.grow(children[lo + k - 1].aabb);
        let r_aabb = union_range(children, lo + k, hi);
        let cost: i128 = l_acc.surface_area() + r_aabb.surface_area();
        if cost < best_cost {
            best_cost = cost;
            best_k = k;
            best_l = l_acc;
            best_r = r_aabb;
        }
        k += 1;
    }
    proof {
        assert(children@.subrange(lo as int, lo + best_k) =~= sorted.take(best_k as int));
        assert(children@.subrange(lo + best_k, hi as int) =~= sorted.skip(best_k as int));
    }
    (best_k, best_l, best_r)
}

impl<Node: BVHNode> BVH<Node> {
    /// Appends to `dst` the tree over `children[lo..hi]`, with pivots in the
    /// `miss` fields, and returns the position of its root. Every run of
    /// several items is ordered along the longest axis of its box and divided
    /// where the two parts' surface areas add up to the least.
    ///
    /// * `p_aabb` is the box of `children[lo..hi]`.
    /// * `pivot` is the pivot of the tree's root.
    pub(crate) fn sweep_pivot(
        dst: &mut Vec<Node>,
        p_aabb: AABB,
        children: &mut Vec<IndexedAABB<Node::ExternIndex>>,
        lo: usize,
        hi: usize,
        pivot: usize,
    ) -> (pos: usize)
        requires
            lo < hi <= old(children).len(),
            p_aabb == union_of(old(children)@.subrange(lo as int, hi as int)),
            old(dst).len() + 2 * (hi - lo) - 1 <= MAX_POSITION + 1,
            pivot <= MAX_POSITION,
            all_wf(old(dst)@),
        ensures
            pos == old(dst).len(),
            final(dst).len() == old(dst).len() + 2 * (hi - lo) - 1,
            final(dst)@.subrange(0, old(dst).len() as int) == old(dst)@,
            views(final(dst)@.subrange(old(dst).len() as int, final(dst).len() as int)) == tree_of(
                Strategy::Sweep,
                old(children)@.subrange(lo as int, hi as int),
                old(dst).len() as int,
                pivot as int,
            ),
            all_wf(final(dst)@),
            final(children).len() == old(children).len(),
            forall|j: int|
                0 <= j < lo || hi <= j < old(children).len() ==> final(children)@[j] == old(
                    children,
                )@[j],
    {
        let mut no_buckets: Vec<Vec<IndexedAABB<Node::ExternIndex>>> = Vec::new();
        grow(dst, p_aabb, children, lo, hi, Method::Sweep, &mut no_buckets, pivot)
    }
}

} // verus!
