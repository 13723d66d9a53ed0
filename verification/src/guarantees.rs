//! What holds of every tree that the builders return.
//!
//! Each statement is about a tree that [`BVH::is_built`] describes: the result
//! of a builder on `items`, divided in the way `how`.

use vstd::prelude::*;
use vstd::seq_lib::*;
use crate::aabb::IndexedAABB;
use crate::node::{BVHNode, NodeView, views};
use crate::bvh::BVH;
use crate::glsl_bvh::{GlslBVHNode, lemma_glsl_node_determined};
use crate::layout::{
    is_subtree, is_threaded, on_path_to, thread, miss_for, leaf_items, leaf_positions, walk,
    preorder, right_of,
    lemma_thread_keeps_subtree, lemma_thread_is_threaded, lemma_subtree_counts,
    lemma_miss_leads_forward, lemma_walk_subtree, lemma_preorder_all,
};
use crate::split::{
    Strategy, tree_of, lemma_tree_of_len, lemma_tree_of_shape, lemma_tree_of_leaves,
};

verus! {

/// The finished tree over `items` is one subtree that fills its array, with a
/// miss pointer in every node.
pub proof fn lemma_finished_shape<I>(how: Strategy, items: Seq<IndexedAABB<I>>)
    requires
        how.is_valid(),
        items.len() >= 1,
    ensures
        thread(tree_of(how, items, 0, 0)).len() == 2 * items.len() - 1,
        is_subtree(thread(tree_of(how, items, 0, 0)), 0, 2 * items.len() - 1),
        is_threaded(thread(tree_of(how, items, 0, 0)), 0, 2 * items.len() - 1),
{
    let t = tree_of(how, items, 0, 0);
    lemma_tree_of_len(how, items, 0, 0);
    lemma_tree_of_shape(how, items, 0, 0, t);
    lemma_thread_keeps_subtree(t, 0, t.len() as int);
    lemma_thread_is_threaded(t);
}

/// Replacing pivots by miss pointers leaves the primitives in the leaves as
/// they are.
pub proof fn lemma_thread_keeps_leaves<I>(v: Seq<NodeView<I>>)
    ensures
        leaf_items(thread(v)) == leaf_items(v),
{
    lemma_thread_keeps_leaves_upto(v, v.len() as int);
    assert(thread(v).take(v.len() as int) =~= thread(v));
    assert(v.take(v.len() as int) =~= v);
}

proof fn lemma_thread_keeps_leaves_upto<I>(v: Seq<NodeView<I>>, m: int)
    requires
        0 <= m <= v.len(),
    ensures
        leaf_items(thread(v).take(m)) == leaf_items(v.take(m)),
    decreases m,
{
    if m > 0 {
        let a = thread(v).take(m);
        let b = v.take(m);
        lemma_thread_keeps_leaves_upto(v, m - 1);
        assert(a.drop_last() =~= thread(v).take(m - 1));
        assert(b.drop_last() =~= v.take(m - 1));
        assert(a.last() == v[m - 1].with_miss(miss_for(v, m - 1)));
        assert(b.last() == v[m - 1]);
    }
}

/// A tree over `n` primitives has `2n - 1` nodes, `n` of them leaves and
/// `n - 1` internal. Over one primitive it is a single leaf.
pub proof fn lemma_node_counts<Node: BVHNode>(
    tree: BVH<Node>,
    how: Strategy,
    items: Seq<IndexedAABB<Node::ExternIndex>>,
)
    requires
        how.is_valid(),
        items.len() >= 1,
        tree.is_built(how, items),
    ensures
        tree.node_seq().len() == 2 * items.len() - 1,
        leaf_positions(views(tree.node_seq()), 0, tree.node_seq().len() as int).len() == items.len(),
        tree.node_seq().len() - leaf_positions(
            views(tree.node_seq()),
            0,
            tree.node_seq().len() as int,
        ).len() == items.len() - 1,
        items.len() == 1 ==> views(tree.node_seq())[0] is Leaf,
{
    let v = views(tree.node_seq());
    lemma_finished_shape(how, items);
    lemma_subtree_counts(v, 0, v.len() as int);
}

/// The leaves hold exactly the primitives that were handed in, each in one
/// leaf, with its index and its box.
pub proof fn lemma_leaves_hold_items<Node: BVHNode>(
    tree: BVH<Node>,
    how: Strategy,
    items: Seq<IndexedAABB<Node::ExternIndex>>,
)
    requires
        how.is_valid(),
        items.len() >= 1,
        tree.is_built(how, items),
    ensures
        leaf_items(views(tree.node_seq())).to_multiset() == items.to_multiset(),
        leaf_items(views(tree.node_seq())).len() == items.len(),
{
    lemma_tree_of_leaves(how, items, 0, 0);
    lemma_thread_keeps_leaves(tree_of(how, items, 0, 0));
    to_multiset_len(leaf_items(views(tree.node_seq())));
    to_multiset_len(items);
}

/// Within a subtree, an internal node is followed at once by its left
/// subtree, which ends where its right subtree begins, and its box is the
/// union of the boxes of its two children.
pub proof fn lemma_children_in_subtree<I>(v: Seq<NodeView<I>>, s: int, e: int, i: int)
    requires
        is_subtree(v, s, e),
        s <= i < e,
        v[i] is Internal,
    ensures
        i + 1 < right_of(v[i]) < e,
        is_subtree(v, i + 1, right_of(v[i])),
        exists|end: int| right_of(v[i]) < end <= e && is_subtree(v, right_of(v[i]), end),
        v[i].aabb() == v[i + 1].aabb().spec_grow(v[right_of(v[i])].aabb()),
    decreases e - s,
{
    match v[s] {
        NodeView::Leaf { .. } => {},
        NodeView::Internal { right, .. } => {
            if i == s {
                assert(is_subtree(v, right, e));
            } else if i < right {
                lemma_children_in_subtree(v, s + 1, right, i);
            } else {
                lemma_children_in_subtree(v, right, e, i);
            }
        },
    }
}

/// The left child of the internal node at position `i` is at `i + 1`, the
/// right child behind the left subtree, and the node's box is exactly the
/// union of its two children's boxes.
pub proof fn lemma_children<Node: BVHNode>(
    tree: BVH<Node>,
    how: Strategy,
    items: Seq<IndexedAABB<Node::ExternIndex>>,
    i: int,
)
    requires
        how.is_valid(),
        items.len() >= 1,
        tree.is_built(how, items),
        0 <= i < tree.node_seq().len(),
        views(tree.node_seq())[i] is Internal,
    ensures
        ({
            let v = views(tree.node_seq());
            let right = right_of(v[i]);
            &&& i + 1 < right < v.len()
            &&& is_subtree(v, i + 1, right)
            &&& exists|end: int| right < end <= v.len() && is_subtree(v, right, end)
            &&& v[i].aabb() == v[i + 1].aabb().spec_grow(v[right].aabb())
        }),
{
    let v = views(tree.node_seq());
    lemma_finished_shape(how, items);
    lemma_children_in_subtree(v, 0, v.len() as int, i);
}

/// The root's miss pointer is the sentinel. Every other miss pointer is the
/// sentinel or leads forward to a position in the array: never back to the
/// node itself or to one of its ancestors, which all stand before it, so that
/// no walk can go round in a circle.
pub proof fn lemma_miss_pointers<Node: BVHNode>(
    tree: BVH<Node>,
    how: Strategy,
    items: Seq<IndexedAABB<Node::ExternIndex>>,
    i: int,
)
    requires
        how.is_valid(),
        items.len() >= 1,
        tree.is_built(how, items),
        0 <= i < tree.node_seq().len(),
    ensures
        views(tree.node_seq())[0].miss() == 0,
        views(tree.node_seq())[i].miss() == 0 || i < views(tree.node_seq())[i].miss()
            < tree.node_seq().len(),
        !(0 < views(tree.node_seq())[i].miss() <= i),
{
    let v = views(tree.node_seq());
    lemma_finished_shape(how, items);
    lemma_miss_leads_forward(v, 0, v.len() as int, i);
}

/// No miss pointer leads to the node itself or to one of its ancestors. (The
/// sentinel is the root's position, but it ends a walk and leads nowhere.)
pub proof fn lemma_miss_avoids_ancestors<Node: BVHNode>(
    tree: BVH<Node>,
    how: Strategy,
    items: Seq<IndexedAABB<Node::ExternIndex>>,
    i: int,
    a: int,
)
    requires
        how.is_valid(),
        items.len() >= 1,
        tree.is_built(how, items),
        0 <= i < tree.node_seq().len(),
        on_path_to(views(tree.node_seq()), a, i),
    ensures
        views(tree.node_seq())[i].miss() == 0 || views(tree.node_seq())[i].miss() != a,
{
    lemma_miss_pointers(tree, how, items, i);
}

/// Whatever is answered at the internal nodes, the stackless walk from the
/// root visits the leaves that a recursive descent with the same answers
/// visits, in the same order.
pub proof fn lemma_walk_is_descent<Node: BVHNode>(
    tree: BVH<Node>,
    how: Strategy,
    items: Seq<IndexedAABB<Node::ExternIndex>>,
    descend: spec_fn(int) -> bool,
)
    requires
        how.is_valid(),
        items.len() >= 1,
        tree.is_built(how, items),
    ensures
        walk(views(tree.node_seq()), descend, 0) == preorder(
            views(tree.node_seq()),
            descend,
            0,
            tree.node_seq().len() as int,
        ),
{
    let v = views(tree.node_seq());
    lemma_finished_shape(how, items);
    lemma_walk_subtree(v, descend, 0, v.len() as int);
    assert(preorder(v, descend, 0, v.len() as int) + Seq::<int>::empty() =~= preorder(
        v,
        descend,
        0,
        v.len() as int,
    ));
}

/// The walk that always descends visits every leaf once, in ascending order
/// of position, which is the order of the recursive descent.
pub proof fn lemma_full_walk<Node: BVHNode>(
    tree: BVH<Node>,
    how: Strategy,
    items: Seq<IndexedAABB<Node::ExternIndex>>,
)
    requires
        how.is_valid(),
        items.len() >= 1,
        tree.is_built(how, items),
    ensures
        walk(views(tree.node_seq()), |p: int| true, 0) == leaf_positions(
            views(tree.node_seq()),
            0,
            tree.node_seq().len() as int,
        ),
        walk(views(tree.node_seq()), |p: int| true, 0) == preorder(
            views(tree.node_seq()),
            |p: int| true,
            0,
            tree.node_seq().len() as int,
        ),
        walk(views(tree.node_seq()), |p: int| true, 0).len() == items.len(),
{
    let v = views(tree.node_seq());
    lemma_finished_shape(how, items);
    lemma_walk_is_descent(tree, how, items, |p: int| true);
    lemma_preorder_all(v, 0, v.len() as int);
    lemma_subtree_counts(v, 0, v.len() as int);
}

/// The walk that skips at every internal node of a tree over two or more
/// primitives ends at the root, through the sentinel, and visits no leaf.
pub proof fn lemma_skipping_walk<Node: BVHNode>(
    tree: BVH<Node>,
    how: Strategy,
    items: Seq<IndexedAABB<Node::ExternIndex>>,
)
    requires
        how.is_valid(),
        items.len() >= 2,
        tree.is_built(how, items),
    ensures
        views(tree.node_seq())[0] is Internal,
        views(tree.node_seq())[0].miss() == 0,
        walk(views(tree.node_seq()), |p: int| false, 0) == Seq::<int>::empty(),
{
    let v = views(tree.node_seq());
    lemma_finished_shape(how, items);
}

/// Two trees built in the same way from the same items say the same, node
/// for node.
pub proof fn lemma_build_deterministic<Node: BVHNode>(
    a: BVH<Node>,
    b: BVH<Node>,
    how: Strategy,
    items: Seq<IndexedAABB<Node::ExternIndex>>,
)
    requires
        a.is_built(how, items),
        b.is_built(how, items),
    ensures
        views(a.node_seq()) == views(b.node_seq()),
        a.bounds() == b.bounds(),
{
}

/// Two trees of fixed-layout nodes built in the same way from the same items
/// are the same arrays, field for field.
pub proof fn lemma_glsl_build_deterministic(
    a: BVH<GlslBVHNode>,
    b: BVH<GlslBVHNode>,
    how: Strategy,
    items: Seq<IndexedAABB<u32>>,
)
    requires
        a.is_built(how, items),
        b.is_built(how, items),
    ensures
        a.node_seq() == b.node_seq(),
        a.bounds() == b.bounds(),
{
    let x = a.node_seq();
    let y = b.node_seq();
    assert(views(x).len() == views(y).len());
    assert forall|i: int| 0 <= i < x.len() implies x[i] == y[i] by {
        assert(views(x)[i] == views(y)[i]);
        lemma_glsl_node_determined(x[i], y[i]);
    }
    assert(x =~= y);
}

} // verus!
