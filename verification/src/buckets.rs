//! The builder that drops the primitives into a row of buckets and tries
//! every boundary between buckets.

use vstd::prelude::*;
use crate::aabb::{
    AABB, Axis, IndexedAABB, union_of, union_range, lemma_union_single, lemma_union_concat,
    lemma_grow_commutative,
};
use crate::node::{BVHNode, MAX_POSITION, views, all_wf};
use crate::bvh::BVH;
use crate::grow::{grow, Method};
use crate::sweep::centroid_on;
use crate::split::{
    slot, centroid_bounds, Grid, grid_of, pick, gather, boundary_cost, best_boundary, Strategy,
    arrange, split_at, tree_of, lemma_partition_valid, lemma_gather_split, lemma_gather_multiset,
    lemma_pick_all,
};

verus! {

/// The box of the centroids of `children[lo..hi]`.
pub(crate) fn centroid_box<I>(children: &Vec<IndexedAABB<I>>, lo: usize, hi: usize) -> (r: AABB)
    requires
        lo <= hi <= children.len(),
    ensures
        r == centroid_bounds(children@.subrange(lo as int, hi as int)),
{
    let mut acc = AABB::empty();
    let mut i: usize = lo;
    while i < hi
        invariant
            lo <= i <= hi <= children.len(),
            acc == centroid_bounds(children@.subrange(lo as int, i as int)),
        decreases hi - i,
    {
        proof {
            let next = children@.subrange(lo as int, i + 1);
            assert(next.drop_last() =~= children@.subrange(lo as int, i as int));
            assert(next.last() == children@[i as int]);
        }
        let c: AABB = AABB::from(children[i].aabb.centroid());
        acc = acc.grow(c);
        i += 1;
    }
    acc
}

/// The bucket of a centroid at distance `d` from the low end of a row of
/// `count` buckets over `extent`.
pub(crate) fn slot_of(d: i64, extent: i64, count: usize) -> (r: usize)
    requires
        -0x1_0000_0000 < d < 0x1_0000_0000,
        extent < 0x1_0000_0000,
        count >= 1,
    ensures
        r == slot(d as int, extent as int, count as int),
        r < count,
{
    if extent <= 0 || d <= 0 {
        0
    } else {
        let wide_d: i128 = d as i128;
        let wide_n: i128 = count as i128;
        let wide_e: i128 = extent as i128;
        assert(0 <= wide_d * wide_n <= 0x1_0000_0000 * 0x1_0000_0000_0000_0000) by (nonlinear_arith)
            requires
                0 < wide_d < 0x1_0000_0000,
                0 < wide_n <= 0x1_0000_0000_0000_0000,
        ;
        let b: i128 = (wide_d * wide_n + wide_e - 1) / wide_e - 1;
        if b < 0 {
            0
        } else if b > wide_n - 1 {
            count - 1
        } else {
            b as usize
        }
    }
}

/// Empties the buckets, drops each of `children[lo..hi]` into its bucket of
/// the row `g`, and returns the box of each bucket's contents.
pub(crate) fn fill_buckets<I: Copy>(
    children: &Vec<IndexedAABB<I>>,
    lo: usize,
    hi: usize,
    buckets: &mut Vec<Vec<IndexedAABB<I>>>,
    axis: Axis,
    low: i32,
    extent: i64,
) -> (boxes: Vec<AABB>)
    requires
        lo <= hi <= children.len(),
        old(buckets).len() >= 1,
        extent < 0x1_0000_0000,
    ensures
        final(buckets).len() == old(buckets).len(),
        boxes.len() == old(buckets).len(),
        forall|b: int|
            0 <= b < old(buckets).len() ==> {
                let g = Grid {
                    axis,
                    low: low as int,
                    extent: extent as int,
                    count: old(buckets).len() as int,
                };
                let held = pick(children@.subrange(lo as int, hi as int), g, b, b + 1);
                &&& (#[trigger] final(buckets)@[b])@ == held
                &&& boxes@[b] == union_of(held)
            },
{
    let count = buckets.len();
    let ghost g = Grid { axis, low: low as int, extent: extent as int, count: count as int };
    let ghost items = children@.subrange(lo as int, hi as int);
    let mut boxes: Vec<AABB> = Vec::new();
    let mut j: usize = 0;
    while j < count
        invariant
            j <= count,
            count == buckets.len(),
            boxes.len() == j,
            forall|b: int| 0 <= b < j ==> (#[trigger] buckets@[b])@.len() == 0,
            forall|b: int| 0 <= b < j ==> #[trigger] boxes@[b] == AABB::spec_empty(),
        decreases count - j,
    {
        buckets[j].clear();
        boxes.push(AABB::empty());
        j += 1;
    }
    let mut i: usize = lo;
    proof {
        assert(items.take(0) =~= Seq::empty());
        assert forall|b: int| 0 <= b < count implies (#[trigger] buckets@[b])@ == pick(
            items.take(0),
            g,
            b,
            b + 1,
        ) && boxes@[b] == union_of(pick(items.take(0), g, b, b + 1)) by {
            assert(buckets@[b]@ =~= Seq::empty());
        }
    }
    while i < hi
        invariant
            lo <= i <= hi <= children.len(),
            count == buckets.len(),
            count == boxes.len(),
            count >= 1,
            extent < 0x1_0000_0000,
            items == children@.subrange(lo as int, hi as int),
            g == (Grid { axis, low: low as int, extent: extent as int, count: count as int }),
            forall|b: int|
                0 <= b < count ==> (#[trigger] buckets@[b])@ == pick(items.take(i - lo), g, b, b + 1)
                    && boxes@[b] == union_of(pick(items.take(i - lo), g, b, b + 1)),
        decreases hi - i,
    {
        let child = children[i];
        let d: i64 = centroid_on(&child, axis) as i64 - low as i64;
        let s = slot_of(d, extent, count);
        let ghost had = buckets@;
        let ghost had_boxes = boxes@;
        buckets[s].push(child);
        let grown = boxes[s].grow(child.aabb);
        boxes[s] = grown;
        proof {
            let now = items.take(i - lo + 1);
            assert(now.drop_last() =~= items.take(i - lo));
            assert(now.last() == child);
            assert(g.bucket(child) == s);
            assert forall|b: int| 0 <= b < count implies (#[trigger] buckets@[b])@ == pick(
                now,
                g,
                b,
                b + 1,
            ) && boxes@[b] == union_of(pick(now, g, b, b + 1)) by {
                assert(had[b]@ == pick(items.take(i - lo), g, b, b + 1));
                assert(had_boxes[b] == union_of(pick(items.take(i - lo), g, b, b + 1)));
                let p = pick(items.take(i - lo), g, b, b + 1);
                if b == s {
                    assert(pick(now, g, b, b + 1) == p.push(child));
                    assert(p.push(child).drop_last() =~= p);
                    assert(p.push(child).last() == child);
                    assert(union_of(p.push(child)) == union_of(p).spec_grow(child.aabb));
                    assert(boxes@[b] == had_boxes[b].spec_grow(child.aabb));
                } else {
                    assert(pick(now, g, b, b + 1) == p);
                    assert(boxes@[b] == had_boxes[b]);
                }
            }
        }
        i += 1;
        proof {
            assert(items.take(i - lo) == items.take(i - 1 - lo + 1));
        }
    }
    proof {
        assert(items.take(hi - lo) =~= items);
    }
    boxes
}


/// The contents of one bucket are what is picked for it.
proof fn lemma_gather_one<I>(items: Seq<IndexedAABB<I>>, g: Grid, b: int)
    ensures
        gather(items, g, b, b + 1) == pick(items, g, b, b + 1),
{
    assert(gather(items, g, b, b) =~= Seq::empty());
    assert(Seq::empty() + pick(items, g, b, b + 1) =~= pick(items, g, b, b + 1));
}

/// Takes the unions of the buckets' boxes from the left and from the right,
/// and returns the cheapest boundary with the boxes of its two sides.
pub(crate) fn choose_boundary<I>(
    boxes: &Vec<AABB>,
    Ghost(items): Ghost<Seq<IndexedAABB<I>>>,
    Ghost(g): Ghost<Grid>,
) -> (r: (usize, AABB, AABB))
    requires
        boxes.len() == g.count,
        g.count >= 2,
        forall|b: int| 0 <= b < g.count ==> #[trigger] boxes@[b] == union_of(pick(items, g, b, b + 1)),
    ensures
        r.0 == best_boundary(items, g, g.count - 2),
        r.0 <= g.count - 2,
        r.1 == union_of(gather(items, g, 0, r.0 + 1)),
        r.2 == union_of(gather(items, g, r.0 + 1, g.count)),
{
    let count = boxes.len();
    let mut l_acc: Vec<AABB> = Vec::new();
    let mut r_acc: Vec<AABB> = Vec::new();
    let mut l_aabb = AABB::empty();
    let mut r_aabb = AABB::empty();
    let mut i: usize = 0;
    proof {
        assert(gather(items, g, 0, 0) =~= Seq::empty());
        assert(gather(items, g, count as int, count as int) =~= Seq::empty());
    }
    while i < count - 1
        invariant
            i <= count - 1,
            count == boxes.len(),
            count == g.count,
            l_acc.len() == i,
            r_acc.len() == i,
            l_aabb == union_of(gather(items, g, 0, i as int)),
            r_aabb == union_of(gather(items, g, count - i, count as int)),
            forall|b: int| 0 <= b < count ==> #[trigger] boxes@[b] == union_of(pick(items, g, b, b + 1)),
            forall|t: int| 0 <= t < i ==> #[trigger] l_acc@[t] == union_of(gather(items, g, 0, t + 1)),
            forall|t: int|
                0 <= t < i ==> #[trigger] r_acc@[t] == union_of(gather(items, g, count - 1 - t, count as int)),
        decreases count - i,
    {
        proof {
            let a = count - 1 - i;
            lemma_union_concat(gather(items, g, 0, i as int), pick(items, g, i as int, i + 1));
            lemma_gather_split(items, g, a, a + 1, count as int);
            lemma_gather_one(items, g, a);
            lemma_union_concat(pick(items, g, a, a + 1), gather(items, g, a + 1, count as int));
            lemma_grow_commutative(
                union_of(pick(items, g, a, a + 1)),
                union_of(gather(items, g, a + 1, count as int)),
            );
        }
        l_aabb = l_aabb.grow(boxes[i]);
        r_aabb = r_aabb.grow(boxes[count - i - 1]);
        l_acc.push(l_aabb);
        r_acc.push(r_aabb);
        i += 1;
    }
    let mut best: usize = 0;
    let mut best_cost: i128 = l_acc[0].surface_area() + r_acc[count - 2].surface_area();
    let mut b: usize = 1;
    while b < count - 1
        invariant
            1 <= b <= count - 1,
            count == g.count,
            l_acc.len() == count - 1,
            r_acc.len() == count - 1,
            forall|t: int| 0 <= t < count - 1 ==> #[trigger] l_acc@[t] == union_of(gather(items, g, 0, t + 1)),
            forall|t: int|
                0 <= t < count - 1 ==> #[trigger] r_acc@[t] == union_of(
                    gather(items, g, count - 1 - t, count as int),
                ),
            best < b,
            best == best_boundary(items, g, b - 1),
            best_cost == boundary_cost(items, g, best as int),
        decreases count - b,
    {
        let cost: i128 = l_acc[b].surface_area() + r_acc[count - 2 - b].surface_area();
        if cost < best_cost {
            best_cost = cost;
            best = b;
        }
        b += 1;
    }
    (best, l_acc[best], r_acc[count - 2 - best])
}

/// Writes the buckets' contents back into `children[lo..hi]`, one bucket
/// after the other, and returns how many items lie in the buckets up to
/// `boundary`.
pub(crate) fn repack<I: Copy>(
    children: &mut Vec<IndexedAABB<I>>,
    lo: usize,
    hi: usize,
    buckets: &Vec<Vec<IndexedAABB<I>>>,
    boundary: usize,
    Ghost(items): Ghost<Seq<IndexedAABB<I>>>,
    Ghost(g): Ghost<Grid>,
) -> (split: usize)
    requires
        lo <= hi <= old(children).len(),
        buckets.len() == g.count,
        boundary < buckets.len(),
        items.len() == hi - lo,
        forall|b: int| 0 <= b < g.count ==> (#[trigger] buckets@[b])@ == pick(items, g, b, b + 1),
    ensures
        final(children).len() == old(children).len(),
        final(children)@.subrange(lo as int, hi as int) == gather(items, g, 0, g.count),
        split == gather(items, g, 0, boundary + 1).len(),
        forall|j: int|
            0 <= j < lo || hi <= j < old(children).len() ==> final(children)@[j] == old(children)@[j],
{
    let count = buckets.len();
    let ghost before = children@;
    proof {
        lemma_gather_multiset(items, g, 0, count as int);
        lemma_pick_all(items, g);
        assert(gather(items, g, 0, 0) =~= Seq::empty());
        assert(children@.subrange(lo as int, lo as int) =~= Seq::empty());
    }
    let mut idx: usize = lo;
    let mut split: usize = 0;
    let mut b: usize = 0;
    while b < count
        invariant
            b <= count,
            count == buckets.len(),
            count == g.count,
            boundary < count,
            lo <= idx <= hi <= children.len(),
            children.len() == before.len(),
            gather(items, g, 0, count as int).len() == hi - lo,
            children@.subrange(lo as int, idx as int) == gather(items, g, 0, b as int),
            b > boundary ==> split == gather(items, g, 0, boundary + 1).len(),
            forall|t: int| 0 <= t < count ==> (#[trigger] buckets@[t])@ == pick(items, g, t, t + 1),
            forall|j: int| 0 <= j < lo || hi <= j < before.len() ==> children@[j] == before[j],
        decreases count - b,
    {
        let m = buckets[b].len();
        let ghost done = gather(items, g, 0, b as int);
        proof {
            lemma_gather_split(items, g, 0, b + 1, count as int);
            assert(buckets@[b as int]@ == pick(items, g, b as int, b + 1));
            assert(done + buckets@[b as int]@.take(0) =~= done);
        }
        let mut t: usize = 0;
        while t < m
            invariant
                t <= m,
                b < count,
                count == buckets.len(),
                m == buckets@[b as int]@.len(),
                lo <= idx,
                idx + (m - t) <= hi <= children.len(),
                children.len() == before.len(),
                done.len() + t == idx - lo,
                children@.subrange(lo as int, idx as int) == done + buckets@[b as int]@.take(t as int),
                forall|j: int| 0 <= j < lo || hi <= j < before.len() ==> children@[j] == before[j],
            decreases m - t,
        {
            let ghost had = children@;
            let child = buckets[b][t];
            children[idx] = child;
            proof {
                let held = buckets@[b as int]@;
                assert(children@.subrange(lo as int, idx + 1) =~= had.subrange(lo as int, idx as int).push(
                    child,
                ));
                assert(done + held.take(t + 1) =~= (done + held.take(t as int)).push(child));
            }
            idx += 1;
            t += 1;
        }
        proof {
            assert(buckets@[b as int]@.take(m as int) =~= buckets@[b as int]@);
        }
        if b == boundary {
            split = idx - lo;
        }
        b += 1;
    }
    proof {
        assert(children@.subrange(lo as int, idx as int).len() == hi - lo);
    }
    split
}

/// Arranges `children[lo..hi]` for the two children of a node and returns how
/// many items go left, with the boxes of the two parts.
pub(crate) fn bucket_divide<I: Copy>(
    children: &mut Vec<IndexedAABB<I>>,
    lo: usize,
    hi: usize,
    buckets: &mut Vec<Vec<IndexedAABB<I>>>,
) -> (r: (usize, AABB, AABB))
    requires
        lo + 2 <= hi <= old(children).len(),
        old(buckets).len() >= 2,
    ensures
        final(buckets).len() == old(buckets).len(),
        final(children).len() == old(children).len(),
        final(children)@.subrange(lo as int, hi as int) == arrange(
            Strategy::Buckets(old(buckets).len() as int),
            old(children)@.subrange(lo as int, hi as int),
        ),
        r.0 == split_at(
            Strategy::Buckets(old(buckets).len() as int),
            old(children)@.subrange(lo as int, hi as int),
        ),
        0 < r.0 < hi - lo,
        r.1 == union_of(final(children)@.subrange(lo as int, lo + r.0)),
        r.2 == union_of(final(children)@.subrange(lo + r.0, hi as int)),
        forall|j: int|
            0 <= j < lo || hi <= j < old(children).len() ==> final(children)@[j] == old(children)@[j],
{
    let ghost items = children@.subrange(lo as int, hi as int);
    let count = buckets.len();
    let ghost how = Strategy::Buckets(count as int);
    proof {
        lemma_partition_valid(how, items);
    }
    let n = hi - lo;
    if n == 2 {
        // Two items are divided one and one.
        let l_aabb = children[lo].aabb;
        let r_aabb = children[lo + 1].aabb;
        proof {
            lemma_union_single(children@.subrange(lo as int, lo + 1));
            lemma_union_single(children@.subrange(lo + 1, hi as int));
        }
        return (1, l_aabb, r_aabb);
    }
    let centroid_aabb = centroid_box(children, lo, hi);
    let (axis, split_axis_size) = centroid_aabb.largest_axis_with_size();
    let axis_i: usize = usize::from(axis);
    let low = centroid_aabb.min[axis_i];
    let ghost g = grid_of(items, count as int);
    if split_axis_size <= 0 {
        // All centroids coincide and fill one bucket: divide in the middle.
        let k = n / 2;
        let l_aabb = union_range(children, lo, lo + k);
        let r_aabb = union_range(children, lo + k, hi);
        return (k, l_aabb, r_aabb);
    }
    let boxes = fill_buckets(children, lo, hi, buckets, axis, low, split_axis_size);
    proof {
        assert(g == (Grid {
            axis,
            low: low as int,
            extent: split_axis_size as int,
            count: count as int,
        }));
        assert forall|b: int| 0 <= b < count implies #[trigger] boxes@[b] == union_of(
            pick(items, g, b, b + 1),
        ) by {
            assert(buckets@[b]@ == pick(items, g, b, b + 1));
        }
    }
    let (boundary, l_aabb, r_aabb) = choose_boundary::<I>(&boxes, Ghost(items), Ghost(g));
    let split = repack(children, lo, hi, buckets, boundary, Ghost(items), Ghost(g));
    proof {
        let arranged = children@.subrange(lo as int, hi as int);
        let left = gather(items, g, 0, boundary + 1);
        let right = gather(items, g, boundary + 1, count as int);
        lemma_gather_split(items, g, 0, boundary + 1, count as int);
        assert(arranged == left + right);
        assert(children@.subrange(lo as int, lo + split) =~= arranged.take(split as int));
        assert(children@.subrange(lo + split, hi as int) =~= arranged.skip(split as int));
        assert(arranged.take(split as int) =~= left);
        assert(arranged.skip(split as int) =~= right);
    }
    (split, l_aabb, r_aabb)
}

impl<Node: BVHNode> BVH<Node> {
    /// Appends to `dst` the tree over `children[lo..hi]`, as
    /// [`BVH::sweep_pivot`] does, but divides by buckets: as many as
    /// `buckets` has entries. The buckets are scratch space, emptied and
    /// filled anew for every run that is divided.
    pub(crate) fn buckets_pivot(
        dst: &mut Vec<Node>,
        p_aabb: AABB,
        children: &mut Vec<IndexedAABB<Node::ExternIndex>>,
        lo: usize,
        hi: usize,
        buckets: &mut Vec<Vec<IndexedAABB<Node::ExternIndex>>>,
        pivot: usize,
    ) -> (pos: usize)
        requires
            lo < hi <= old(children).len(),
            old(buckets).len() >= 2,
            p_aabb == union_of(old(children)@.subrange(lo as int, hi as int)),
            old(dst).len() + 2 * (hi - lo) - 1 <= MAX_POSITION + 1,
            pivot <= MAX_POSITION,
            all_wf(old(dst)@),
        ensures
            pos == old(dst).len(),
            final(dst).len() == old(dst).len() + 2 * (hi - lo) - 1,
            final(dst)@.subrange(0, old(dst).len() as int) == old(dst)@,
            views(final(dst)@.subrange(old(dst).len() as int, final(dst).len() as int)) == tree_of(
                Strategy::Buckets(old(buckets).len() as int),
                old(children)@.subrange(lo as int, hi as int),
                old(dst).len() as int,
                pivot as int,
            ),
            all_wf(final(dst)@),
            final(buckets).len() == old(buckets).len(),
            final(children).len() == old(children).len(),
            forall|j: int|
                0 <= j < lo || hi <= j < old(children).len() ==> final(children)@[j] == old(
                    children,
                )@[j],
    {
        grow(dst, p_aabb, children, lo, hi, Method::Buckets, buckets, pivot)
    }
}

} // verus!
