//! The shape of a flat tree, and what a stackless walk makes of it.
//!
//! A tree lies in its array in preorder: a node at position `i` is followed at
//! once by its left subtree, and its right subtree follows the left one. So the
//! left child of an internal node is always at `i + 1`, and only the right
//! child's position is stored.

use vstd::prelude::*;
use crate::aabb::IndexedAABB;
use crate::node::NodeView;

verus! {

/// The right child that a node names; 0 for a leaf, which names none.
pub open spec fn right_of<I>(n: NodeView<I>) -> int {
    match n {
        NodeView::Internal { right, .. } => right,
        NodeView::Leaf { .. } => 0,
    }
}

/// Whether `v[s..e]` is one subtree in preorder, each internal node carrying
/// exactly the union of its two children's boxes.
pub open spec fn is_subtree<I>(v: Seq<NodeView<I>>, s: int, e: int) -> bool
    decreases e - s,
{
    &&& 0 <= s < e <= v.len()
    &&& match v[s] {
        NodeView::Leaf { .. } => e == s + 1,
        NodeView::Internal { aabb, right, .. } => {
            &&& s + 1 < right < e
            &&& aabb == v[s + 1].aabb().spec_grow(v[right].aabb())
            &&& is_subtree(v, s + 1, right)
            &&& is_subtree(v, right, e)
        },
    }
}

/// Whether the `miss` fields of the subtree `v[s..e]` hold pivots, the root's
/// being `p`: a left child's pivot is its parent, a right child's pivot is its
/// parent's pivot.
pub open spec fn has_pivots<I>(v: Seq<NodeView<I>>, s: int, e: int, p: int) -> bool
    decreases e - s,
{
    &&& 0 <= s < e <= v.len()
    &&& v[s].miss() == p
    &&& match v[s] {
        NodeView::Leaf { .. } => e == s + 1,
        NodeView::Internal { right, .. } => {
            &&& s + 1 < right < e
            &&& has_pivots(v, s + 1, right, s)
            &&& has_pivots(v, right, e, p)
        },
    }
}

/// Whether the node at `a` is the node at `i` or one of its ancestors: the
/// root of a subtree that holds position `i`.
pub open spec fn on_path_to<I>(v: Seq<NodeView<I>>, a: int, i: int) -> bool {
    exists|e: int| is_subtree(v, a, e) && a <= i < e
}

/// Where a walk goes on when it leaves a subtree that ends at `e`: to `e`, or
/// to the sentinel 0 when the array ends there.
pub open spec fn exit_of(e: int, len: int) -> int {
    if e >= len {
        0
    } else {
        e
    }
}

/// Whether the `miss` fields of the subtree `v[s..e]` are miss pointers: each
/// node's `miss` is the position just behind the node's own subtree, or 0
/// where nothing follows.
pub open spec fn is_threaded<I>(v: Seq<NodeView<I>>, s: int, e: int) -> bool
    decreases e - s,
{
    &&& 0 <= s < e <= v.len()
    &&& v[s].miss() == exit_of(e, v.len() as int)
    &&& match v[s] {
        NodeView::Leaf { .. } => e == s + 1,
        NodeView::Internal { right, .. } => {
            &&& s + 1 < right < e
            &&& is_threaded(v, s + 1, right)
            &&& is_threaded(v, right, e)
        },
    }
}

/// The miss pointer that belongs to position `i` of an array whose `miss`
/// fields hold pivots. The root's is the sentinel. A node in the root's right
/// subtree whose pivot is the root lies on the tree's right spine and gets the
/// sentinel too. Every other node gets the right child of its pivot.
pub open spec fn miss_for<I>(v: Seq<NodeView<I>>, i: int) -> int {
    if i == 0 {
        0
    } else if i >= right_of(v[0]) && v[i].miss() == 0 {
        0
    } else {
        right_of(v[v[i].miss()])
    }
}

/// The array `v` with every pivot replaced by the miss pointer.
pub open spec fn thread<I>(v: Seq<NodeView<I>>) -> Seq<NodeView<I>> {
    Seq::new(v.len(), |i: int| v[i].with_miss(miss_for(v, i)))
}

/// The primitives in the leaves of `v`, in array order.
pub open spec fn leaf_items<I>(v: Seq<NodeView<I>>) -> Seq<IndexedAABB<I>>
    decreases v.len(),
{
    if v.len() == 0 {
        Seq::empty()
    } else {
        match v.last() {
            NodeView::Leaf { aabb, index, .. } => leaf_items(v.drop_last()).push(
                IndexedAABB { index, aabb },
            ),
            NodeView::Internal { .. } => leaf_items(v.drop_last()),
        }
    }
}

/// The positions of the leaves among `v[s..e]`, ascending.
pub open spec fn leaf_positions<I>(v: Seq<NodeView<I>>, s: int, e: int) -> Seq<int>
    decreases e - s,
{
    if e <= s {
        Seq::empty()
    } else if v[e - 1] is Leaf {
        leaf_positions(v, s, e - 1).push(e - 1)
    } else {
        leaf_positions(v, s, e - 1)
    }
}

/// The leaves that a stackless walk visits from position `pos` on, in the
/// order of the visits. At a leaf the walk goes on to the next position. At an
/// internal node it asks `descend`: on yes it goes on to the next position,
/// which is the left child; on no it jumps to the node's `miss`. The walk ends
/// behind the array and at the sentinel; a `miss` that does not lead forward
/// ends it like the sentinel.
pub open spec fn walk<I>(v: Seq<NodeView<I>>, descend: spec_fn(int) -> bool, pos: int) -> Seq<int>
    decreases v.len() - pos,
{
    if pos < 0 || pos >= v.len() {
        Seq::empty()
    } else {
        match v[pos] {
            NodeView::Leaf { .. } => seq![pos] + walk(v, descend, pos + 1),
            NodeView::Internal { miss, .. } => {
                if descend(pos) {
                    walk(v, descend, pos + 1)
                } else if miss <= pos || miss >= v.len() {
                    Seq::empty()
                } else {
                    walk(v, descend, miss)
                }
            },
        }
    }
}

/// The leaves that a recursive descent visits in the subtree `v[s..e]`, left
/// before right, entering only the internal nodes of which `descend` says yes.
pub open spec fn preorder<I>(v: Seq<NodeView<I>>, descend: spec_fn(int) -> bool, s: int, e: int) -> Seq<int>
    decreases e - s,
{
    if !(0 <= s < e <= v.len()) {
        Seq::empty()
    } else {
        match v[s] {
            NodeView::Leaf { .. } => seq![s],
            NodeView::Internal { right, .. } => {
                if descend(s) && s + 1 < right < e {
                    preorder(v, descend, s + 1, right) + preorder(v, descend, right, e)
                } else {
                    Seq::empty()
                }
            },
        }
    }
}

/// The leaf positions of a range are those of its two parts, one after the
/// other.
pub proof fn lemma_leaf_positions_split<I>(v: Seq<NodeView<I>>, s: int, m: int, e: int)
    requires
        s <= m <= e,
    ensures
        leaf_positions(v, s, e) == leaf_positions(v, s, m) + leaf_positions(v, m, e),
    decreases e - m,
{
    if e == m {
        assert(leaf_positions(v, s, m) + Seq::<int>::empty() =~= leaf_positions(v, s, m));
    } else {
        lemma_leaf_positions_split(v, s, m, e - 1);
        let a = leaf_positions(v, s, m);
        let b = leaf_positions(v, m, e - 1);
        if v[e - 1] is Leaf {
            assert((a + b).push(e - 1) =~= a + b.push(e - 1));
        }
    }
}

/// The leaf items of a concatenation are those of its two parts, one after the
/// other.
pub proof fn lemma_leaf_items_concat<I>(a: Seq<NodeView<I>>, b: Seq<NodeView<I>>)
    ensures
        leaf_items(a + b) == leaf_items(a) + leaf_items(b),
    decreases b.len(),
{
    if b.len() == 0 {
        assert(a + b =~= a);
        assert(leaf_items(a) + Seq::<IndexedAABB<I>>::empty() =~= leaf_items(a));
    } else {
        assert((a + b).drop_last() =~= a + b.drop_last());
        assert((a + b).last() == b.last());
        lemma_leaf_items_concat(a, b.drop_last());
        let x = leaf_items(a);
        let y = leaf_items(b.drop_last());
        match b.last() {
            NodeView::Leaf { aabb, index, .. } => {
                let it = IndexedAABB { index, aabb };
                assert((x + y).push(it) =~= x + y.push(it));
            },
            NodeView::Internal { .. } => {},
        }
    }
}

/// In a subtree every node but the leaves has two children: the subtree has
/// one leaf more than it has internal nodes. With `n` leaves it is `2n - 1`
/// nodes long.
pub proof fn lemma_subtree_counts<I>(v: Seq<NodeView<I>>, s: int, e: int)
    requires
        is_subtree(v, s, e),
    ensures
        e - s == 2 * leaf_positions(v, s, e).len() - 1,
    decreases e - s,
{
    match v[s] {
        NodeView::Leaf { .. } => {
            assert(leaf_positions(v, s, s) =~= Seq::<int>::empty());
        },
        NodeView::Internal { right, .. } => {
            lemma_subtree_counts(v, s + 1, right);
            lemma_subtree_counts(v, right, e);
            lemma_leaf_positions_split(v, s, s + 1, e);
            lemma_leaf_positions_split(v, s + 1, right, e);
            assert(leaf_positions(v, s, s) =~= Seq::<int>::empty());
            assert(leaf_positions(v, s, s + 1) =~= Seq::<int>::empty());
        },
    }
}

/// Every pivot in a subtree is the subtree's own pivot or an internal node of
/// the subtree that stands before the node.
pub proof fn lemma_pivots_in_range<I>(v: Seq<NodeView<I>>, s: int, e: int, p: int, i: int)
    requires
        has_pivots(v, s, e, p),
        s <= i < e,
    ensures
        v[i].miss() == p || (s <= v[i].miss() < i && v[v[i].miss()] is Internal),
    decreases e - s,
{
    if i != s {
        match v[s] {
            NodeView::Leaf { .. } => {},
            NodeView::Internal { right, .. } => {
                if i < right {
                    lemma_pivots_in_range(v, s + 1, right, s, i);
                } else {
                    lemma_pivots_in_range(v, right, e, p, i);
                }
            },
        }
    }
}

/// An internal node of a subtree has its right child behind its left child and
/// within the subtree.
pub proof fn lemma_right_in_range<I>(v: Seq<NodeView<I>>, s: int, e: int, p: int, i: int)
    requires
        has_pivots(v, s, e, p),
        s <= i < e,
        v[i] is Internal,
    ensures
        i + 1 < right_of(v[i]) < e,
    decreases e - s,
{
    if i != s {
        match v[s] {
            NodeView::Leaf { .. } => {},
            NodeView::Internal { right, .. } => {
                if i < right {
                    lemma_right_in_range(v, s + 1, right, s, i);
                } else {
                    lemma_right_in_range(v, right, e, p, i);
                }
            },
        }
    }
}

/// Replacing pivots by miss pointers keeps the shape of a subtree.
pub proof fn lemma_thread_keeps_subtree<I>(v: Seq<NodeView<I>>, s: int, e: int)
    requires
        is_subtree(v, s, e),
    ensures
        is_subtree(thread(v), s, e),
    decreases e - s,
{
    match v[s] {
        NodeView::Leaf { .. } => {},
        NodeView::Internal { right, .. } => {
            lemma_thread_keeps_subtree(v, s + 1, right);
            lemma_thread_keeps_subtree(v, right, e);
        },
    }
}

proof fn lemma_thread_subtree<I>(v: Seq<NodeView<I>>, s: int, e: int, p: int)
    requires
        has_pivots(v, s, e, p),
        forall|i: int| s <= i < e && v[i].miss() == p ==> miss_for(v, i) == exit_of(e, v.len() as int),
        0 < s,
    ensures
        is_threaded(thread(v), s, e),
    decreases e - s,
{
    match v[s] {
        NodeView::Leaf { .. } => {},
        NodeView::Internal { right, .. } => {
            lemma_thread_subtree(v, s + 1, right, s);
            lemma_thread_subtree(v, right, e, p);
        },
    }
}

/// An array that holds a tree with its pivots, the root's pivot being the root
/// itself, holds after the rewrite the same tree with its miss pointers.
pub proof fn lemma_thread_is_threaded<I>(v: Seq<NodeView<I>>)
    requires
        has_pivots(v, 0, v.len() as int, 0),
    ensures
        is_threaded(thread(v), 0, v.len() as int),
{
    let len = v.len() as int;
    match v[0] {
        NodeView::Leaf { .. } => {},
        NodeView::Internal { right, .. } => {
            lemma_thread_subtree(v, 1, right, 0);
            lemma_thread_subtree(v, right, len, 0);
        },
    }
}

/// In a threaded subtree every miss pointer is the sentinel or leads forward,
/// past the node's own subtree and into the array.
pub proof fn lemma_miss_leads_forward<I>(v: Seq<NodeView<I>>, s: int, e: int, i: int)
    requires
        is_threaded(v, s, e),
        s <= i < e,
    ensures
        v[i].miss() == 0 || i < v[i].miss() < v.len(),
        v[i].miss() == 0 || v[i].miss() >= e || s < v[i].miss(),
    decreases e - s,
{
    if i != s {
        match v[s] {
            NodeView::Leaf { .. } => {},
            NodeView::Internal { right, .. } => {
                if i < right {
                    lemma_miss_leads_forward(v, s + 1, right, i);
                } else {
                    lemma_miss_leads_forward(v, right, e, i);
                }
            },
        }
    }
}

/// A stackless walk through a threaded subtree visits what the recursive
/// descent with the same answers visits, and then goes on behind the subtree.
pub proof fn lemma_walk_subtree<I>(v: Seq<NodeView<I>>, descend: spec_fn(int) -> bool, s: int, e: int)
    requires
        is_threaded(v, s, e),
    ensures
        walk(v, descend, s) == preorder(v, descend, s, e) + walk(v, descend, e),
    decreases e - s,
{
    match v[s] {
        NodeView::Leaf { .. } => {},
        NodeView::Internal { right, miss, .. } => {
            if descend(s) {
                lemma_walk_subtree(v, descend, s + 1, right);
                lemma_walk_subtree(v, descend, right, e);
                let a = preorder(v, descend, s + 1, right);
                let b = preorder(v, descend, right, e);
                let c = walk(v, descend, e);
                assert(a + (b + c) =~= (a + b) + c);
            } else {
                assert(Seq::<int>::empty() + walk(v, descend, e) =~= walk(v, descend, e));
            }
        },
    }
}

/// With every answer yes, the recursive descent visits every leaf of the
/// subtree once, in ascending order of position.
pub proof fn lemma_preorder_all<I>(v: Seq<NodeView<I>>, s: int, e: int)
    requires
        is_threaded(v, s, e),
    ensures
        preorder(v, |p: int| true, s, e) == leaf_positions(v, s, e),
    decreases e - s,
{
    let yes = |p: int| true;
    assert(leaf_positions(v, s, s) =~= Seq::<int>::empty());
    match v[s] {
        NodeView::Leaf { .. } => {
            assert(leaf_positions(v, s, e) =~= seq![s]);
        },
        NodeView::Internal { right, .. } => {
            lemma_preorder_all(v, s + 1, right);
            lemma_preorder_all(v, right, e);
            lemma_leaf_positions_split(v, s, s + 1, e);
            lemma_leaf_positions_split(v, s + 1, right, e);
            assert(leaf_positions(v, s, s + 1) =~= Seq::<int>::empty());
            assert(Seq::<int>::empty() + leaf_positions(v, s + 1, e) =~= leaf_positions(v, s + 1, e));
        },
    }
}

} // verus!
