//! Growing a tree from a list of runs that still wait for their subtrees.
//!
//! The builders do not call themselves: the runs that are still to be divided
//! wait on a list, the left part of a divided run on top of its right part, so
//! that the nodes come out in preorder however deep the tree gets.

use vstd::prelude::*;
use crate::aabb::{AABB, IndexedAABB, union_of, lemma_union_single};
use crate::node::{BVHNode, NodeView, MAX_POSITION, views, all_wf};
use crate::layout::right_of;
use crate::split::{
    Strategy, arrange, split_at, tree_of, lemma_partition_valid, lemma_tree_of_len,
};
use crate::sweep::{sort_range, sweep_split};
use crate::buckets::bucket_divide;

verus! {

/// The way of dividing, as the builders carry it.
#[derive(Clone, Copy)]
pub(crate) enum Method {
    Sweep,
    Buckets,
}

impl Method {
    /// The way of dividing, with `count` buckets where buckets are used.
    pub(crate) open spec fn how(self, count: int) -> Strategy {
        match self {
            Method::Sweep => Strategy::Sweep,
            Method::Buckets => Strategy::Buckets(count),
        }
    }
}

/// A run of primitives that waits for its subtree.
pub(crate) struct Pending {
    /// The run is `children[lo..hi]`.
    pub lo: usize,
    pub hi: usize,
    /// The box of the run.
    pub aabb: AABB,
    /// The pivot of the subtree's root.
    pub pivot: usize,
    /// The internal node whose right child the subtree's root will be; none
    /// for a left child and for the root of the whole tree.
    pub parent: Option<usize>,
}

/// An internal node as it stands in the array while its right child is not
/// known yet.
pub(crate) open spec fn placeholder<I>(n: NodeView<I>) -> NodeView<I> {
    NodeView::Internal { aabb: n.aabb(), right: 0, miss: n.miss() }
}

/// Whether position `i` holds an internal node that waits for its right child.
pub(crate) open spec fn is_hole(work: Seq<Pending>, i: int) -> bool {
    exists|j: int| 0 <= j < work.len() && waits_for(#[trigger] work[j], i)
}

/// Whether the run `e` waits to become the right child of the node at `i`.
pub(crate) open spec fn waits_for(e: Pending, i: int) -> bool {
    e.parent is Some && e.parent.unwrap() == i
}

/// Whether the waiting run `e` will put its subtree at `start`, where the
/// finished tree `t`, which begins at `base`, has it.
pub(crate) open spec fn entry_ok<I>(
    how: Strategy,
    t: Seq<NodeView<I>>,
    base: int,
    v: Seq<NodeView<I>>,
    children: Seq<IndexedAABB<I>>,
    e: Pending,
    start: int,
) -> bool {
    let items = children.subrange(e.lo as int, e.hi as int);
    let n = e.hi - e.lo;
    &&& e.lo < e.hi <= children.len()
    &&& e.aabb == union_of(items)
    &&& e.pivot <= MAX_POSITION
    &&& base <= start
    &&& start + 2 * n - 1 <= base + t.len()
    &&& t.subrange(start - base, start - base + 2 * n - 1) == tree_of(how, items, start, e.pivot as int)
    &&& match e.parent {
        None => true,
        Some(p) => {
            &&& base <= p < v.len()
            &&& t[p - base] is Internal
            &&& right_of(t[p - base]) == start
            &&& v[p as int] == placeholder(t[p - base])
        },
    }
}

/// Whether every waiting run will put its subtree where the finished tree
/// has it.
pub(crate) open spec fn entries_ok<I>(
    how: Strategy,
    t: Seq<NodeView<I>>,
    base: int,
    v: Seq<NodeView<I>>,
    children: Seq<IndexedAABB<I>>,
    work: Seq<Pending>,
    starts: Seq<int>,
) -> bool {
    forall|j: int|
        0 <= j < work.len() ==> entry_ok(how, t, base, v, children, #[trigger] work[j], starts[j])
}

/// Whether a run that waits above another lies before it in `children`.
pub(crate) open spec fn ranges_apart(work: Seq<Pending>) -> bool {
    forall|j: int, j2: int|
        0 <= j < j2 < work.len() ==> (#[trigger] work[j2]).hi <= (#[trigger] work[j]).lo
}

/// Whether the parents of the waiting runs rise up the list.
pub(crate) open spec fn parents_rise(work: Seq<Pending>) -> bool {
    forall|j: int, j2: int|
        0 <= j < j2 < work.len() && (#[trigger] work[j]).parent is Some && (
        #[trigger] work[j2]).parent is Some ==> work[j].parent.unwrap() < work[j2].parent.unwrap()
}

/// Whether the subtree of each waiting run will end where the subtree of the
/// run below it begins.
pub(crate) open spec fn starts_chain(work: Seq<Pending>, starts: Seq<int>) -> bool {
    forall|j: int|
        1 <= j < work.len() ==> starts[j - 1] == starts[j] + 2 * ((#[trigger] work[j]).hi - work[j].lo) - 1
}

/// Whether `v` holds the finished tree as far as it goes, but for the right
/// children that are still open.
pub(crate) open spec fn holes_ok<I>(
    t: Seq<NodeView<I>>,
    base: int,
    v: Seq<NodeView<I>>,
    work: Seq<Pending>,
) -> bool {
    forall|i: int| base <= i < v.len() ==> #[trigger] v[i] == t[i - base] || is_hole(work, i)
}

/// What holds between two steps: the array `v` holds the finished tree `t` as
/// far as it goes, but for the right children that are still open, and the
/// waiting runs will fill in the rest, the last of them next.
pub(crate) open spec fn grow_inv<I>(
    how: Strategy,
    t: Seq<NodeView<I>>,
    base: int,
    v: Seq<NodeView<I>>,
    children: Seq<IndexedAABB<I>>,
    work: Seq<Pending>,
    starts: Seq<int>,
) -> bool {
    &&& how.is_valid()
    &&& 0 <= base <= v.len() <= base + t.len()
    &&& base + t.len() <= MAX_POSITION + 1
    &&& work.len() == starts.len()
    &&& entries_ok(how, t, base, v, children, work, starts)
    &&& ranges_apart(work)
    &&& parents_rise(work)
    &&& starts_chain(work, starts)
    &&& (work.len() == 0 ==> v.len() == base + t.len())
    &&& (work.len() > 0 ==> starts[work.len() - 1] == v.len() && starts[0] + 2 * (work[0].hi
        - work[0].lo) - 1 == base + t.len())
    &&& holes_ok(t, base, v, work)
}

/// At the start one run waits: all the items.
pub(crate) proof fn lemma_grow_start<I>(
    how: Strategy,
    base: int,
    v: Seq<NodeView<I>>,
    children: Seq<IndexedAABB<I>>,
    e: Pending,
)
    requires
        how.is_valid(),
        base == v.len(),
        e.lo < e.hi <= children.len(),
        e.aabb == union_of(children.subrange(e.lo as int, e.hi as int)),
        e.pivot <= MAX_POSITION,
        e.parent is None,
        base + 2 * (e.hi - e.lo) - 1 <= MAX_POSITION + 1,
    ensures
        grow_inv(
            how,
            tree_of(how, children.subrange(e.lo as int, e.hi as int), base, e.pivot as int),
            base,
            v,
            children,
            seq![e],
            seq![base],
        ),
{
    let items = children.subrange(e.lo as int, e.hi as int);
    let t = tree_of(how, items, base, e.pivot as int);
    lemma_tree_of_len(how, items, base, e.pivot as int);
    assert(t.subrange(0, t.len() as int) =~= t);
}

/// Closing the right child of the top run's parent leaves the other runs as
/// they wait.
proof fn lemma_fix_entries<I>(
    how: Strategy,
    t: Seq<NodeView<I>>,
    base: int,
    v: Seq<NodeView<I>>,
    children: Seq<IndexedAABB<I>>,
    work: Seq<Pending>,
    starts: Seq<int>,
    v2: Seq<NodeView<I>>,
)
    requires
        entries_ok(how, t, base, v, children, work, starts),
        parents_rise(work),
        work.len() > 0,
        work.len() == starts.len(),
        work.last().parent is Some,
        v2.len() == v.len(),
        forall|i: int| 0 <= i < v.len() && i != work.last().parent.unwrap() ==> v2[i] == v[i],
    ensures
        entries_ok(
            how,
            t,
            base,
            v2,
            children,
            work.drop_last().push(Pending { parent: None, ..work.last() }),
            starts,
        ),
{
    let m = work.len() - 1;
    let closed = Pending { parent: None, ..work.last() };
    let work2 = work.drop_last().push(closed);
    assert forall|j: int| 0 <= j < work2.len() implies entry_ok(
        how,
        t,
        base,
        v2,
        children,
        #[trigger] work2[j],
        starts[j],
    ) by {
        assert(entry_ok(how, t, base, v, children, work[j], starts[j]));
        if j < m {
            assert(work2[j] == work[j]);
            if work[j].parent is Some {
                assert(work[j].parent.unwrap() < work[m].parent.unwrap());
            }
        }
    }
}

/// A run whose parent is closed waits where it waited.
proof fn lemma_fix_order(work: Seq<Pending>, starts: Seq<int>)
    requires
        ranges_apart(work),
        parents_rise(work),
        starts_chain(work, starts),
        work.len() > 0,
    ensures
        ranges_apart(work.drop_last().push(Pending { parent: None, ..work.last() })),
        parents_rise(work.drop_last().push(Pending { parent: None, ..work.last() })),
        starts_chain(work.drop_last().push(Pending { parent: None, ..work.last() }), starts),
{
    let m = work.len() - 1;
    let work2 = work.drop_last().push(Pending { parent: None, ..work.last() });
    assert forall|j: int, j2: int| 0 <= j < j2 < work2.len() implies (#[trigger] work2[j2]).hi <= (
    #[trigger] work2[j]).lo by {
        assert(work[j2].hi <= work[j].lo);
        assert(work2[j] == work[j]);
    }
    assert forall|j: int, j2: int|
        0 <= j < j2 < work2.len() && (#[trigger] work2[j]).parent is Some && (
        #[trigger] work2[j2]).parent is Some implies work2[j].parent.unwrap()
        < work2[j2].parent.unwrap() by {
        assert(work2[j] == work[j] && work2[j2] == work[j2]);
    }
    assert forall|j: int| 1 <= j < work2.len() implies starts[j - 1] == starts[j] + 2 * ((
    #[trigger] work2[j]).hi - work2[j].lo) - 1 by {
        assert(work2[j].hi == work[j].hi && work2[j].lo == work[j].lo);
    }
}

/// Closing the right child of the top run's parent leaves one open right
/// child less.
proof fn lemma_fix_holes<I>(
    t: Seq<NodeView<I>>,
    base: int,
    v: Seq<NodeView<I>>,
    work: Seq<Pending>,
    v2: Seq<NodeView<I>>,
)
    requires
        0 <= base,
        holes_ok(t, base, v, work),
        work.len() > 0,
        work.last().parent is Some,
        v2.len() == v.len(),
        forall|i: int| 0 <= i < v.len() && i != work.last().parent.unwrap() ==> v2[i] == v[i],
        base <= work.last().parent.unwrap() < v.len(),
        v2[work.last().parent.unwrap() as int] == t[work.last().parent.unwrap() - base],
    ensures
        holes_ok(t, base, v2, work.drop_last().push(Pending { parent: None, ..work.last() })),
{
    let m = work.len() - 1;
    let p = work.last().parent.unwrap() as int;
    let work2 = work.drop_last().push(Pending { parent: None, ..work.last() });
    assert forall|i: int| base <= i < v2.len() implies #[trigger] v2[i] == t[i - base] || is_hole(
        work2,
        i,
    ) by {
        if i != p && v[i] != t[i - base] {
            assert(is_hole(work, i));
            let j = choose|j: int| 0 <= j < work.len() && waits_for(#[trigger] work[j], i);
            assert(j != m);
            assert(work2[j] == work[j]);
            assert(waits_for(work2[j], i));
        }
    }
}

/// Writing the position of a subtree that is about to begin into its parent
/// closes the parent's right child.
pub(crate) proof fn lemma_grow_fix<I>(
    how: Strategy,
    t: Seq<NodeView<I>>,
    base: int,
    v: Seq<NodeView<I>>,
    children: Seq<IndexedAABB<I>>,
    work: Seq<Pending>,
    starts: Seq<int>,
    v2: Seq<NodeView<I>>,
)
    requires
        grow_inv(how, t, base, v, children, work, starts),
        work.len() > 0,
        work.last().parent is Some,
        v2.len() == v.len(),
        forall|i: int| 0 <= i < v.len() && i != work.last().parent.unwrap() ==> v2[i] == v[i],
        v2[work.last().parent.unwrap() as int] == (NodeView::<I>::Internal {
            aabb: v[work.last().parent.unwrap() as int].aabb(),
            right: v.len() as int,
            miss: v[work.last().parent.unwrap() as int].miss(),
        }),
    ensures
        grow_inv(
            how,
            t,
            base,
            v2,
            children,
            work.drop_last().push(Pending { parent: None, ..work.last() }),
            starts,
        ),
{
    let m = work.len() - 1;
    let p = work.last().parent.unwrap() as int;
    assert(entry_ok(how, t, base, v, children, work[m], starts[m]));
    assert(v2[p] == t[p - base]);
    lemma_fix_entries(how, t, base, v, children, work, starts, v2);
    lemma_fix_order(work, starts);
    lemma_fix_holes(t, base, v, work, v2);
    let work2 = work.drop_last().push(Pending { parent: None, ..work.last() });
    assert(work2[0].hi == work[0].hi && work2[0].lo == work[0].lo);
}

/// A run of one item that is at its turn becomes a leaf.
pub(crate) proof fn lemma_grow_leaf<I>(
    how: Strategy,
    t: Seq<NodeView<I>>,
    base: int,
    v: Seq<NodeView<I>>,
    children: Seq<IndexedAABB<I>>,
    work: Seq<Pending>,
    starts: Seq<int>,
)
    requires
        grow_inv(how, t, base, v, children, work, starts),
        work.len() > 0,
        work.last().parent is None,
        work.last().hi - work.last().lo == 1,
    ensures
        grow_inv(
            how,
            t,
            base,
            v.push(
                NodeView::Leaf {
                    aabb: work.last().aabb,
                    index: children[work.last().lo as int].index,
                    miss: work.last().pivot as int,
                },
            ),
            children,
            work.drop_last(),
            starts.drop_last(),
        ),
{
    let m = work.len() - 1;
    let top = work.last();
    let pos = v.len() as int;
    let items = children.subrange(top.lo as int, top.hi as int);
    let leaf = NodeView::Leaf {
        aabb: top.aabb,
        index: children[top.lo as int].index,
        miss: top.pivot as int,
    };
    let v2 = v.push(leaf);
    let work2 = work.drop_last();
    let starts2 = starts.drop_last();
    assert(entry_ok(how, t, base, v, children, work[m], starts[m]));
    lemma_union_single(items);
    let sub = t.subrange(pos - base, pos - base + 1);
    assert(sub[0] == t[pos - base]);
    assert(t[pos - base] == leaf);
    assert forall|j: int| 0 <= j < work2.len() implies entry_ok(
        how,
        t,
        base,
        v2,
        children,
        #[trigger] work2[j],
        starts2[j],
    ) by {
        assert(entry_ok(how, t, base, v, children, work[j], starts[j]));
    }
    assert forall|j: int, j2: int| 0 <= j < j2 < work2.len() implies (#[trigger] work2[j2]).hi <= (
    #[trigger] work2[j]).lo by {
        assert(work[j2].hi <= work[j].lo);
    }
    assert forall|j: int, j2: int|
        0 <= j < j2 < work2.len() && (#[trigger] work2[j]).parent is Some && (
        #[trigger] work2[j2]).parent is Some implies work2[j].parent.unwrap()
        < work2[j2].parent.unwrap() by {
        assert(work2[j] == work[j] && work2[j2] == work[j2]);
    }
    assert forall|j: int| 1 <= j < work2.len() implies starts2[j - 1] == starts2[j] + 2 * ((
    #[trigger] work2[j]).hi - work2[j].lo) - 1 by {
        assert(work2[j] == work[j]);
    }
    if m > 0 {
        assert(work[m].hi - work[m].lo == 1);
        assert(starts[m - 1] == starts[m] + 2 * (work[m].hi - work[m].lo) - 1);
        assert(work2[0] == work[0]);
    }
    assert forall|i: int| base <= i < v2.len() implies #[trigger] v2[i] == t[i - base] || is_hole(
        work2,
        i,
    ) by {
        if i < pos && v[i] != t[i - base] {
            assert(is_hole(work, i));
            let j = choose|j: int| 0 <= j < work.len() && waits_for(#[trigger] work[j], i);
            assert(j != m);
            assert(work2[j] == work[j]);
            assert(waits_for(work2[j], i));
        }
    }
}

/// Where the finished tree holds the tree over several items, it holds its
/// head, then the tree over the left part, then the tree over the right part.
pub(crate) proof fn lemma_tree_in_place<I>(
    how: Strategy,
    t: Seq<NodeView<I>>,
    base: int,
    items: Seq<IndexedAABB<I>>,
    pos: int,
    pivot: int,
)
    requires
        how.is_valid(),
        items.len() >= 2,
        base <= pos,
        pos + 2 * items.len() - 1 <= base + t.len(),
        t.subrange(pos - base, pos - base + 2 * items.len() - 1) == tree_of(how, items, pos, pivot),
    ensures
        ({
            let k = split_at(how, items);
            let n = items.len() as int;
            let arranged = arrange(how, items);
            &&& 0 < k < n
            &&& t[pos - base] == (NodeView::<I>::Internal {
                aabb: union_of(items),
                right: pos + 2 * k,
                miss: pivot,
            })
            &&& t.subrange(pos + 1 - base, pos + 1 - base + 2 * k - 1) == tree_of(
                how,
                arranged.take(k),
                pos + 1,
                pos,
            )
            &&& t.subrange(pos + 2 * k - base, pos + 2 * k - base + 2 * (n - k) - 1) == tree_of(
                how,
                arranged.skip(k),
                pos + 2 * k,
                pivot,
            )
        }),
{
    let n = items.len() as int;
    let k = split_at(how, items);
    let arranged = arrange(how, items);
    lemma_partition_valid(how, items);
    let sub = t.subrange(pos - base, pos - base + 2 * n - 1);
    let l_tree = tree_of(how, arranged.take(k), pos + 1, pos);
    lemma_tree_of_len(how, arranged.take(k), pos + 1, pos);
    let r_tree = tree_of(how, arranged.skip(k), pos + 2 * k, pivot);
    lemma_tree_of_len(how, arranged.skip(k), pos + 2 * k, pivot);
    let head = seq![NodeView::Internal { aabb: union_of(items), right: pos + 2 * k, miss: pivot }];
    assert(sub == head + l_tree + r_tree);
    assert(sub[0] == t[pos - base]);
    assert(t[pos - base] == head[0]);
    assert(t.subrange(pos + 1 - base, pos + 1 - base + 2 * k - 1) =~= l_tree) by {
        assert forall|i: int| 0 <= i < 2 * k - 1 implies t[pos + 1 - base + i] == l_tree[i] by {
            assert(sub[1 + i] == t[pos - base + 1 + i]);
            assert(sub[1 + i] == l_tree[i]);
        }
    }
    assert(t.subrange(pos + 2 * k - base, pos + 2 * k - base + 2 * (n - k) - 1) =~= r_tree) by {
        assert forall|i: int| 0 <= i < 2 * (n - k) - 1 implies t[pos + 2 * k - base + i]
            == r_tree[i] by {
            assert(sub[2 * k + i] == t[pos - base + 2 * k + i]);
            assert(sub[2 * k + i] == r_tree[i]);
        }
    }
}

/// The two parts of a divided run are apart from the runs that wait below.
proof fn lemma_split_ranges(work: Seq<Pending>, left: Pending, right: Pending)
    requires
        ranges_apart(work),
        work.len() > 0,
        left.lo == work.last().lo,
        left.hi == right.lo,
        right.lo <= right.hi,
        right.hi == work.last().hi,
    ensures
        ranges_apart(work.drop_last().push(right).push(left)),
{
    let m = work.len() - 1;
    let work2 = work.drop_last().push(right).push(left);
    assert forall|j: int, j2: int| 0 <= j < j2 < work2.len() implies (#[trigger] work2[j2]).hi <= (
    #[trigger] work2[j]).lo by {
        if j < m {
            assert(work2[j] == work[j]);
            assert(work[m].hi <= work[j].lo);
            if j2 < m {
                assert(work2[j2] == work[j2]);
            }
        }
    }
}

/// The parent of the right part of a divided run is the newest node.
proof fn lemma_split_parents(work: Seq<Pending>, left: Pending, right: Pending, pos: int)
    requires
        parents_rise(work),
        work.len() > 0,
        forall|j: int|
            0 <= j < work.len() && (#[trigger] work[j]).parent is Some ==> work[j].parent.unwrap() < pos,
        left.parent is None,
        waits_for(right, pos),
    ensures
        parents_rise(work.drop_last().push(right).push(left)),
{
    let m = work.len() - 1;
    let work2 = work.drop_last().push(right).push(left);
    assert forall|j: int, j2: int|
        0 <= j < j2 < work2.len() && (#[trigger] work2[j]).parent is Some && (
        #[trigger] work2[j2]).parent is Some implies work2[j].parent.unwrap()
        < work2[j2].parent.unwrap() by {
        assert(work2[j] == work[j]);
        if j2 < m {
            assert(work2[j2] == work[j2]);
        }
    }
}

/// The subtrees of the two parts of a divided run fill the place of the run's
/// subtree behind its head.
proof fn lemma_split_chain(
    work: Seq<Pending>,
    starts: Seq<int>,
    left: Pending,
    right: Pending,
    pos: int,
)
    requires
        starts_chain(work, starts),
        work.len() > 0,
        work.len() == starts.len(),
        starts.last() == pos,
        left.lo == work.last().lo,
        left.hi == right.lo,
        right.hi == work.last().hi,
        left.lo < left.hi,
        right.lo < right.hi,
    ensures
        starts_chain(
            work.drop_last().push(right).push(left),
            starts.drop_last().push(pos + 2 * (left.hi - left.lo)).push(pos + 1),
        ),
{
    let m = work.len() - 1;
    let work2 = work.drop_last().push(right).push(left);
    let starts2 = starts.drop_last().push(pos + 2 * (left.hi - left.lo)).push(pos + 1);
    assert forall|j: int| 1 <= j < work2.len() implies starts2[j - 1] == starts2[j] + 2 * ((
    #[trigger] work2[j]).hi - work2[j].lo) - 1 by {
        if j < m {
            assert(work2[j] == work[j]);
            assert(starts2[j] == starts[j] && starts2[j - 1] == starts[j - 1]);
        } else if j == m {
            if m > 0 {
                assert(starts[m - 1] == starts[m] + 2 * (work[m].hi - work[m].lo) - 1);
                assert(starts2[m - 1] == starts[m - 1]);
            }
        }
    }
}

/// After the head of a divided run the array still holds the finished tree
/// but for the open right children, the head's among them.
proof fn lemma_split_holes<I>(
    t: Seq<NodeView<I>>,
    base: int,
    v: Seq<NodeView<I>>,
    work: Seq<Pending>,
    node: NodeView<I>,
    left: Pending,
    right: Pending,
)
    requires
        0 <= base,
        holes_ok(t, base, v, work),
        work.len() > 0,
        waits_for(right, v.len() as int),
        work.last().parent is None,
    ensures
        holes_ok(t, base, v.push(node), work.drop_last().push(right).push(left)),
{
    let m = work.len() - 1;
    let pos = v.len() as int;
    let v2 = v.push(node);
    let work2 = work.drop_last().push(right).push(left);
    assert forall|i: int| base <= i < v2.len() implies #[trigger] v2[i] == t[i - base] || is_hole(
        work2,
        i,
    ) by {
        if i == pos {
            assert(work2[m] == right);
            assert(waits_for(work2[m], i));
        } else if v[i] != t[i - base] {
            assert(is_hole(work, i));
            let j = choose|j: int| 0 <= j < work.len() && waits_for(#[trigger] work[j], i);
            assert(j != m);
            assert(work2[j] == work[j]);
            assert(waits_for(work2[j], i));
        }
    }
}

/// The runs that wait below a divided run are not touched by the division.
proof fn lemma_split_entries<I>(
    how: Strategy,
    t: Seq<NodeView<I>>,
    base: int,
    v: Seq<NodeView<I>>,
    children: Seq<IndexedAABB<I>>,
    work: Seq<Pending>,
    starts: Seq<int>,
    children2: Seq<IndexedAABB<I>>,
    node: NodeView<I>,
    left: Pending,
    right: Pending,
    l_start: int,
    r_start: int,
)
    requires
        entries_ok(how, t, base, v, children, work, starts),
        ranges_apart(work),
        work.len() > 0,
        work.len() == starts.len(),
        children2.len() == children.len(),
        forall|i: int|
            0 <= i < work.last().lo || work.last().hi <= i < children.len() ==> children2[i]
                == children[i],
        entry_ok(how, t, base, v.push(node), children2, left, l_start),
        entry_ok(how, t, base, v.push(node), children2, right, r_start),
    ensures
        entries_ok(
            how,
            t,
            base,
            v.push(node),
            children2,
            work.drop_last().push(right).push(left),
            starts.drop_last().push(r_start).push(l_start),
        ),
{
    let m = work.len() - 1;
    let v2 = v.push(node);
    let work2 = work.drop_last().push(right).push(left);
    let starts2 = starts.drop_last().push(r_start).push(l_start);
    assert forall|j: int| 0 <= j < work2.len() implies entry_ok(
        how,
        t,
        base,
        v2,
        children2,
        #[trigger] work2[j],
        starts2[j],
    ) by {
        if j < m {
            assert(work2[j] == work[j]);
            assert(starts2[j] == starts[j]);
            assert(entry_ok(how, t, base, v, children, work[j], starts[j]));
            assert(work[m].hi <= work[j].lo);
            assert(children2.subrange(work[j].lo as int, work[j].hi as int) =~= children.subrange(
                work[j].lo as int,
                work[j].hi as int,
            ));
        }
    }
}

/// A run of several items that is at its turn becomes an internal node with
/// its right child open, and its two parts wait in its place, the left part
/// next.
pub(crate) proof fn lemma_grow_split<I>(
    how: Strategy,
    t: Seq<NodeView<I>>,
    base: int,
    v: Seq<NodeView<I>>,
    children: Seq<IndexedAABB<I>>,
    work: Seq<Pending>,
    starts: Seq<int>,
    children2: Seq<IndexedAABB<I>>,
    left: Pending,
    right: Pending,
)
    requires
        grow_inv(how, t, base, v, children, work, starts),
        work.len() > 0,
        work.last().parent is None,
        work.last().hi - work.last().lo >= 2,
        children2.len() == children.len(),
        forall|i: int|
            0 <= i < work.last().lo || work.last().hi <= i < children.len() ==> children2[i]
                == children[i],
        children2.subrange(work.last().lo as int, work.last().hi as int) == arrange(
            how,
            children.subrange(work.last().lo as int, work.last().hi as int),
        ),
        left.lo == work.last().lo,
        left.hi == left.lo + split_at(
            how,
            children.subrange(work.last().lo as int, work.last().hi as int),
        ),
        left.aabb == union_of(children2.subrange(left.lo as int, left.hi as int)),
        left.pivot == v.len(),
        left.parent is None,
        right.lo == left.hi,
        right.hi == work.last().hi,
        right.aabb == union_of(children2.subrange(right.lo as int, right.hi as int)),
        right.pivot == work.last().pivot,
        waits_for(right, v.len() as int),
    ensures
        left.lo < left.hi,
        right.lo < right.hi,
        v.len() <= MAX_POSITION,
        grow_inv(
            how,
            t,
            base,
            v.push(
                NodeView::Internal {
                    aabb: work.last().aabb,
                    right: 0,
                    miss: work.last().pivot as int,
                },
            ),
            children2,
            work.drop_last().push(right).push(left),
            starts.drop_last().push(v.len() + 2 * (left.hi - left.lo)).push((v.len() + 1) as int),
        ),
{
    let m = work.len() - 1;
    let top = work.last();
    let pos = v.len() as int;
    let items = children.subrange(top.lo as int, top.hi as int);
    let k = split_at(how, items);
    let arranged = arrange(how, items);
    lemma_partition_valid(how, items);
    assert(entry_ok(how, t, base, v, children, work[m], starts[m]));
    let node = NodeView::Internal { aabb: top.aabb, right: 0, miss: top.pivot as int };
    let v2 = v.push(node);
    lemma_tree_in_place(how, t, base, items, pos, top.pivot as int);
    assert(children2.subrange(left.lo as int, left.hi as int) =~= arranged.take(k));
    assert(children2.subrange(right.lo as int, right.hi as int) =~= arranged.skip(k));
    assert(entry_ok(how, t, base, v2, children2, right, pos + 2 * k));
    assert(entry_ok(how, t, base, v2, children2, left, pos + 1));
    lemma_split_entries(
        how,
        t,
        base,
        v,
        children,
        work,
        starts,
        children2,
        node,
        left,
        right,
        pos + 1,
        pos + 2 * k,
    );
    lemma_split_ranges(work, left, right);
    assert forall|j: int|
        0 <= j < work.len() && (#[trigger] work[j]).parent is Some implies work[j].parent.unwrap()
        < pos by {
        assert(entry_ok(how, t, base, v, children, work[j], starts[j]));
    }
    lemma_split_parents(work, left, right, pos);
    lemma_split_chain(work, starts, left, right, pos);
    lemma_split_holes(t, base, v, work, node, left, right);
    if m > 0 {
        let work2 = work.drop_last().push(right).push(left);
        assert(work2[0] == work[0]);
    }
}

/// Divides `children[lo..hi]`, whose box is `p_aabb`: arranges it for the two
/// children of a node and returns how many items go left, with the boxes of
/// the two parts.
pub(crate) fn divide<I: Copy>(
    method: Method,
    children: &mut Vec<IndexedAABB<I>>,
    lo: usize,
    hi: usize,
    p_aabb: AABB,
    buckets: &mut Vec<Vec<IndexedAABB<I>>>,
) -> (r: (usize, AABB, AABB))
    requires
        lo + 2 <= hi <= old(children).len(),
        method.how(old(buckets).len() as int).is_valid(),
        p_aabb == union_of(old(children)@.subrange(lo as int, hi as int)),
    ensures
        final(buckets).len() == old(buckets).len(),
        final(children).len() == old(children).len(),
        final(children)@.subrange(lo as int, hi as int) == arrange(
            method.how(old(buckets).len() as int),
            old(children)@.subrange(lo as int, hi as int),
        ),
        r.0 == split_at(
            method.how(old(buckets).len() as int),
            old(children)@.subrange(lo as int, hi as int),
        ),
        0 < r.0 < hi - lo,
        r.1 == union_of(final(children)@.subrange(lo as int, lo + r.0)),
        r.2 == union_of(final(children)@.subrange(lo + r.0, hi as int)),
        forall|j: int|
            0 <= j < lo || hi <= j < old(children).len() ==> final(children)@[j] == old(children)@[j],
{
    match method {
        Method::Sweep => {
            let ghost items = children@.subrange(lo as int, hi as int);
            proof {
                lemma_partition_valid(Strategy::Sweep, items);
            }
            let axis = p_aabb.largest_axis();
            sort_range(children, lo, hi, axis);
            sweep_split(children, lo, hi)
        },
        Method::Buckets => bucket_divide(children, lo, hi, buckets),
    }
}

/// Appends to `dst` the tree over `children[lo..hi]`, with pivots in the
/// `miss` fields, and returns the position of its root.
///
/// * `p_aabb` is the box of `children[lo..hi]`.
/// * `pivot` is the pivot of the tree's root.
///
/// ```text
///             0
///         /       \
///     1               4
///   /   \           /   \
/// 2       3       5       6
/// ```
///
/// Here 0 is the pivot of 1 and 3, 1 is the pivot of 2, and 4 is the pivot of
/// 5. With `p(N)` the pivot of a node `N` whose children are `L` and `R`:
/// `p(L) = N` and `p(R) = p(N)`. The miss pointer of a node is then the right
/// child of its pivot.
///
/// An internal node is written with its right child open. The right child's
/// position is filled in when the right part's turn comes, which is when the
/// left subtree is complete.
pub(crate) fn grow<Node: BVHNode>(
    dst: &mut Vec<Node>,
    p_aabb: AABB,
    children: &mut Vec<IndexedAABB<Node::ExternIndex>>,
    lo: usize,
    hi: usize,
    method: Method,
    buckets: &mut Vec<Vec<IndexedAABB<Node::ExternIndex>>>,
    pivot: usize,
) -> (pos: usize)
    requires
        lo < hi <= old(children).len(),
        method.how(old(buckets).len() as int).is_valid(),
        p_aabb == union_of(old(children)@.subrange(lo as int, hi as int)),
        old(dst).len() + 2 * (hi - lo) - 1 <= MAX_POSITION + 1,
        pivot <= MAX_POSITION,
        all_wf(old(dst)@),
    ensures
        pos == old(dst).len(),
        final(dst).len() == old(dst).len() + 2 * (hi - lo) - 1,
        final(dst)@.subrange(0, old(dst).len() as int) == old(dst)@,
        views(final(dst)@.subrange(old(dst).len() as int, final(dst).len() as int)) == tree_of(
            method.how(old(buckets).len() as int),
            old(children)@.subrange(lo as int, hi as int),
            old(dst).len() as int,
            pivot as int,
        ),
        all_wf(final(dst)@),
        final(buckets).len() == old(buckets).len(),
        final(children).len() == old(children).len(),
        forall|j: int|
            0 <= j < lo || hi <= j < old(children).len() ==> final(children)@[j] == old(children)@[j],
{
    let ghost how = method.how(buckets.len() as int);
    let ghost count = buckets.len();
    let ghost before = dst@;
    let ghost given = children@;
    let ghost base = dst.len() as int;
    let ghost t = tree_of(how, children@.subrange(lo as int, hi as int), base, pivot as int);
    let root = dst.len();
    let first = Pending { lo, hi, aabb: p_aabb, pivot, parent: None };
    let mut work: Vec<Pending> = Vec::new();
    let ghost mut starts: Seq<int> = seq![base];
    proof {
        lemma_tree_of_len(how, children@.subrange(lo as int, hi as int), base, pivot as int);
        lemma_grow_start(how, base, views(dst@), children@, first);
    }
    work.push(first);
    proof {
        assert(work@ =~= seq![first]);
    }
    while work.len() > 0
        invariant
            buckets.len() == count,
            how == method.how(count as int),
            t.len() == 2 * (hi - lo) - 1,
            base == before.len(),
            dst.len() >= base,
            dst@.subrange(0, base) == before,
            all_wf(dst@),
            children.len() == given.len(),
            lo < hi <= children.len(),
            forall|j: int| 0 <= j < lo || hi <= j < given.len() ==> children@[j] == given[j],
            forall|j: int| 0 <= j < work.len() ==> lo <= (#[trigger] work@[j]).lo && work@[j].hi <= hi,
            grow_inv(how, t, base, views(dst@), children@, work@, starts),
        decreases base + t.len() - dst.len(), work.len(),
    {
        let ghost work0 = work@;
        let ghost m = work.len() - 1;
        let e = work.pop().unwrap();
        let pos = dst.len();
        proof {
            assert(e == work0[m]);
            assert(entry_ok(how, t, base, views(dst@), children@, work0[m], starts[m]));
            assert(work@ =~= work0.drop_last());
        }
        let ghost mut open = work0;
        match e.parent {
            Some(p) => {
                let ghost had = dst@;
                dst[p].set_right(pos);
                proof {
                    lemma_grow_fix(how, t, base, views(had), children@, work0, starts, views(dst@));
                    open = work0.drop_last().push(Pending { parent: None, ..e });
                    assert(dst@.subrange(0, base) =~= before);
                    assert forall|j: int| 0 <= j < dst.len() implies (#[trigger] dst@[j]).wf() by {
                        if j != p {
                            assert(dst@[j] == had[j]);
                        }
                    }
                }
            },
            None => {},
        }
        proof {
            assert(open.last().parent is None);
            assert(open.drop_last() =~= work@);
            assert(grow_inv(how, t, base, views(dst@), children@, open, starts));
        }
        let ghost had = dst@;
        if e.hi - e.lo == 1 {
            dst.push(Node::new_leaf(e.aabb, children[e.lo].index, e.pivot));
            proof {
                lemma_grow_leaf(how, t, base, views(had), children@, open, starts);
                starts = starts.drop_last();
                assert(views(dst@) =~= views(had).push(
                    NodeView::Leaf {
                        aabb: e.aabb,
                        index: children@[e.lo as int].index,
                        miss: e.pivot as int,
                    },
                ));
                assert(dst@.subrange(0, base) =~= before);
            }
        } else {
            let ghost children0 = children@;
            let (k, l_aabb, r_aabb) = divide(method, children, e.lo, e.hi, e.aabb, buckets);
            let right = Pending { lo: e.lo + k, hi: e.hi, aabb: r_aabb, pivot: e.pivot, parent: Some(pos) };
            let left = Pending { lo: e.lo, hi: e.lo + k, aabb: l_aabb, pivot: pos, parent: None };
            proof {
                lemma_grow_split(
                    how,
                    t,
                    base,
                    views(had),
                    children0,
                    open,
                    starts,
                    children@,
                    left,
                    right,
                );
            }
            dst.push(Node::new_node(e.aabb, 0, e.pivot));
            work.push(right);
            work.push(left);
            proof {
                starts = starts.drop_last().push(pos + 2 * k).push(pos + 1);
                assert(views(dst@) =~= views(had).push(
                    NodeView::Internal { aabb: e.aabb, right: 0, miss: e.pivot as int },
                ));
                assert(work@ =~= open.drop_last().push(right).push(left));
                assert(dst@.subrange(0, base) =~= before);
                assert forall|j: int| 0 <= j < work.len() implies lo <= (#[trigger] work@[j]).lo
                    && work@[j].hi <= hi by {
                    if j < m {
                        assert(work@[j] == work0[j]);
                    }
                }
            }
        }
    }
    proof {
        let got = views(dst@.subrange(base, dst.len() as int));
        assert forall|i: int| 0 <= i < got.len() implies got[i] == t[i] by {
            assert(views(dst@)[base + i] == t[base + i - base] || is_hole(work@, base + i));
        }
        assert(got =~= t);
    }
    root
}

} // verus!
