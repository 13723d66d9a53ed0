//! The hierarchy and its two builders.

use vstd::prelude::*;
use crate::aabb::{AABB, IndexedAABB, union_of, union_range};
use crate::node::{BVHNode, MAX_POSITION, views, all_wf};
use crate::layout::{has_pivots, thread, right_of, miss_for, lemma_pivots_in_range, lemma_right_in_range};
use crate::split::{Strategy, tree_of, lemma_tree_of_shape};

verus! {

/// The most primitives that a tree can hold: a tree over `n` primitives has
/// `2n - 1` nodes, and every position must fit into a node's four-byte field.
pub const MAX_ITEMS: usize = 0x8000_0000;

/// Why a builder turns its input down.
#[derive(Clone, Copy, Debug, PartialEq, Eq, Structural)]
pub enum InputKind {
    /// There is no primitive to build a tree over.
    Empty,
    /// There are more than [`MAX_ITEMS`] primitives.
    TooLarge,
}

/// A hierarchy in its flat form, together with the box of everything in it.
#[derive(Debug)]
pub struct BVH<Node: BVHNode> {
    pub nodes: Vec<Node>,
    aabb: AABB,
}

impl<Node: BVHNode> BVH<Node> {
    /// The box of everything in the tree.
    pub closed spec fn bounds(&self) -> AABB {
        self.aabb
    }

    /// The nodes of the tree, in array order.
    pub closed spec fn node_seq(&self) -> Seq<Node> {
        self.nodes@
    }

    /// Whether this is the finished tree that dividing `items` in the way
    /// `how` gives: node for node the tree that [`tree_of`] names, with every
    /// pivot replaced by the miss pointer, and with the box of all the items.
    pub open spec fn is_built(
        &self,
        how: Strategy,
        items: Seq<IndexedAABB<Node::ExternIndex>>,
    ) -> bool {
        &&& all_wf(self.node_seq())
        &&& views(self.node_seq()) == thread(tree_of(how, items, 0, 0))
        &&& self.bounds() == union_of(items)
    }

    /// Builds the tree by ordering the primitives along the longest axis of
    /// their box and taking, of all divisions of that order, the one with the
    /// smallest sum of surface areas; and so on in either part.
    pub fn build_sweep(items: Vec<IndexedAABB<Node::ExternIndex>>) -> (r: Result<Self, InputKind>)
        ensures
            match r {
                Ok(tree) => 0 < items.len() <= MAX_ITEMS && tree.is_built(Strategy::Sweep, items@),
                Err(InputKind::Empty) => items.len() == 0,
                Err(InputKind::TooLarge) => items.len() > MAX_ITEMS,
            },
    {
        let mut children = items;
        let n = children.len();
        if n == 0 {
            return Err(InputKind::Empty);
        }
        if n > MAX_ITEMS {
            return Err(InputKind::TooLarge);
        }
        let aabb = union_range(&children, 0, n);
        let mut nodes: Vec<Node> = Vec::new();
        proof {
            assert(children@.subrange(0, n as int) =~= items@);
        }
        Self::sweep_pivot(&mut nodes, aabb, &mut children, 0, n, 0);
        proof {
            assert(nodes@.subrange(0, nodes.len() as int) =~= nodes@);
            lemma_tree_of_shape(Strategy::Sweep, items@, 0, 0, views(nodes@));
        }
        let mut tree = Self { nodes, aabb };
        tree.pivot_to_miss();
        Ok(tree)
    }

    /// Builds the tree with a row of 8 buckets at every node.
    pub fn build_buckets_8(items: Vec<IndexedAABB<Node::ExternIndex>>) -> (r: Result<Self, InputKind>)
        ensures
            match r {
                Ok(tree) => 0 < items.len() <= MAX_ITEMS && tree.is_built(
                    Strategy::Buckets(8),
                    items@,
                ),
                Err(InputKind::Empty) => items.len() == 0,
                Err(InputKind::TooLarge) => items.len() > MAX_ITEMS,
            },
    {
        Self::build_buckets_num::<8>(items)
    }

    /// Builds the tree with a row of 16 buckets at every node.
    pub fn build_buckets_16(items: Vec<IndexedAABB<Node::ExternIndex>>) -> (r: Result<
        Self,
        InputKind,
    >)
        ensures
            match r {
                Ok(tree) => 0 < items.len() <= MAX_ITEMS && tree.is_built(
                    Strategy::Buckets(16),
                    items@,
                ),
                Err(InputKind::Empty) => items.len() == 0,
                Err(InputKind::TooLarge) => items.len() > MAX_ITEMS,
            },
    {
        Self::build_buckets_num::<16>(items)
    }

    /// Builds the tree by dropping the primitives of every node into a row of
    /// `N` buckets along the axis on which their centroids are spread most,
    /// and dividing at the boundary between two buckets with the smallest sum
    /// of surface areas. Two primitives are divided one and one; primitives
    /// whose centroids all coincide are divided in the middle.
    pub fn build_buckets_num<const N: usize>(items: Vec<IndexedAABB<Node::ExternIndex>>) -> (r: Result<
        Self,
        InputKind,
    >)
        requires
            N >= 2,
        ensures
            match r {
                Ok(tree) => 0 < items.len() <= MAX_ITEMS && tree.is_built(
                    Strategy::Buckets(N as int),
                    items@,
                ),
                Err(InputKind::Empty) => items.len() == 0,
                Err(InputKind::TooLarge) => items.len() > MAX_ITEMS,
            },
    {
        let mut children = items;
        let n = children.len();
        if n == 0 {
            return Err(InputKind::Empty);
        }
        if n > MAX_ITEMS {
            return Err(InputKind::TooLarge);
        }
        let aabb = union_range(&children, 0, n);
        let mut nodes: Vec<Node> = Vec::new();
        let mut buckets: Vec<Vec<IndexedAABB<Node::ExternIndex>>> = Vec::new();
        let mut b: usize = 0;
        while b < N
            invariant
                b <= N,
                buckets.len() == b,
            decreases N - b,
        {
            buckets.push(Vec::new());
            b += 1;
        }
        proof {
            assert(children@.subrange(0, n as int) =~= items@);
        }
        Self::buckets_pivot(&mut nodes, aabb, &mut children, 0, n, &mut buckets, 0);
        proof {
            assert(nodes@.subrange(0, nodes.len() as int) =~= nodes@);
            lemma_tree_of_shape(Strategy::Buckets(N as int), items@, 0, 0, views(nodes@));
        }
        let mut tree = Self { nodes, aabb };
        tree.pivot_to_miss();
        Ok(tree)
    }

    /// Replaces the pivot that each node holds in its `miss` field by the miss
    /// pointer: the right child of the pivot, or the sentinel 0 for the root
    /// and for the nodes on the tree's right spine. The tree has to be complete
    /// when this runs, since it reads the right children.
    pub(crate) fn pivot_to_miss(&mut self)
        requires
            has_pivots(views(old(self).node_seq()), 0, old(self).node_seq().len() as int, 0),
            all_wf(old(self).node_seq()),
            old(self).node_seq().len() <= MAX_POSITION + 1,
        ensures
            views(final(self).node_seq()) == thread(views(old(self).node_seq())),
            all_wf(final(self).node_seq()),
            final(self).bounds() == old(self).bounds(),
    {
        let ghost v = views(self.nodes@);
        let ghost bounds = self.aabb;
        let n = self.nodes.len();
        if n > 1 {
            let root_right = self.nodes[0].right();
            let mut i: usize = 1;
            while i < n
                invariant
                    1 <= i <= n,
                    n == self.nodes.len(),
                    n == v.len(),
                    n <= MAX_POSITION + 1,
                    has_pivots(v, 0, n as int, 0),
                    v[0] is Internal,
                    root_right == right_of(v[0]),
                    all_wf(self.nodes@),
                    self.aabb == bounds,
                    self.nodes@[0].view() == v[0],
                    forall|j: int|
                        1 <= j < i ==> (#[trigger] self.nodes@[j]).view() == v[j].with_miss(
                            miss_for(v, j),
                        ),
                    forall|j: int| i <= j < n ==> (#[trigger] self.nodes@[j]).view() == v[j],
                decreases n - i,
            {
                let m = self.nodes[i].miss();
                proof {
                    lemma_pivots_in_range(v, 0, n as int, 0, i as int);
                }
                if i >= root_right && m == 0 {
                    self.nodes[i].set_miss(0);
                } else {
                    proof {
                        lemma_right_in_range(v, 0, n as int, 0, m as int);
                    }
                    let r = self.nodes[m].right();
                    self.nodes[i].set_miss(r);
                }
                i += 1;
            }
        }
        self.nodes[0].set_miss(0);
        proof {
            assert(views(self.nodes@) =~= thread(v));
        }
    }

    /// Makes the finished tree of an array that holds a tree with its pivots.
    pub(crate) fn from_pivots(nodes: Vec<Node>, aabb: AABB) -> (tree: Self)
        requires
            has_pivots(views(nodes@), 0, nodes.len() as int, 0),
            all_wf(nodes@),
            nodes.len() <= MAX_POSITION + 1,
        ensures
            views(tree.node_seq()) == thread(views(nodes@)),
            all_wf(tree.node_seq()),
            tree.bounds() == aabb,
    {
        let mut tree = Self { nodes, aabb };
        tree.pivot_to_miss();
        tree
    }

    /// Returns the box of this tree. A tree over several trees can be built
    /// from such boxes.
    pub fn aabb(&self) -> (r: AABB)
        ensures
            r == self.bounds(),
    {
        self.aabb
    }

    pub fn nodes(&self) -> (r: &[Node])
        ensures
            r@ == self.node_seq(),
    {
        self.nodes.as_slice()
    }
}

} // verus!
