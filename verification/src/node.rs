//! What a physical node encoding has to offer to the builders.

use vstd::prelude::*;
use crate::aabb::AABB;

verus! {

/// The largest array position that a node can store in its `right` and `miss`
/// fields: both are four bytes wide in the flat layout.
pub const MAX_POSITION: usize = 0xFFFF_FFFF;

/// What a node says, whatever its encoding.
///
/// While a tree is under construction `miss` holds the node's pivot: the
/// nearest ancestor in whose left subtree the node lies on the right spine.
/// The finished tree holds the position to jump to when the node's subtree is
/// skipped, and 0 where nothing is left to visit.
pub enum NodeView<I> {
    Leaf { aabb: AABB, index: I, miss: int },
    Internal { aabb: AABB, right: int, miss: int },
}

impl<I> NodeView<I> {
    pub open spec fn aabb(self) -> AABB {
        match self {
            NodeView::Leaf { aabb, .. } => aabb,
            NodeView::Internal { aabb, .. } => aabb,
        }
    }

    pub open spec fn miss(self) -> int {
        match self {
            NodeView::Leaf { miss, .. } => miss,
            NodeView::Internal { miss, .. } => miss,
        }
    }

    /// The same node with another `miss`.
    pub open spec fn with_miss(self, miss: int) -> NodeView<I> {
        match self {
            NodeView::Leaf { aabb, index, .. } => NodeView::Leaf { aabb, index, miss },
            NodeView::Internal { aabb, right, .. } => NodeView::Internal { aabb, right, miss },
        }
    }
}

/// A physical node encoding. The builders are written against this trait, so
/// that one construction serves every layout.
pub trait BVHNode: Sized {
    /// The caller's name for a primitive.
    type ExternIndex: Copy;

    /// What the node says.
    spec fn view(&self) -> NodeView<Self::ExternIndex>;

    /// Whether the node is one that the constructors can produce.
    spec fn wf(&self) -> bool;

    fn new_node(aabb: AABB, right: usize, miss: usize) -> (n: Self)
        requires
            right <= MAX_POSITION,
            miss <= MAX_POSITION,
        ensures
            n.wf(),
            n.view() == (NodeView::<Self::ExternIndex>::Internal {
                aabb,
                right: right as int,
                miss: miss as int,
            }),
    ;

    fn new_leaf(aabb: AABB, index: Self::ExternIndex, miss: usize) -> (n: Self)
        requires
            miss <= MAX_POSITION,
        ensures
            n.wf(),
            n.view() == (NodeView::<Self::ExternIndex>::Leaf { aabb, index, miss: miss as int }),
    ;

    /// Sets the right child of an internal node. What it does to a leaf is
    /// the encoding's own business.
    fn set_right(&mut self, right: usize)
        requires
            right <= MAX_POSITION,
        ensures
            old(self).wf() ==> final(self).wf(),
            old(self).view() is Internal ==> final(self).view() == (NodeView::<
                Self::ExternIndex,
            >::Internal {
                aabb: old(self).view().aabb(),
                right: right as int,
                miss: old(self).view().miss(),
            }),
    ;

    fn set_miss(&mut self, miss: usize)
        requires
            miss <= MAX_POSITION,
        ensures
            old(self).wf() ==> final(self).wf(),
            final(self).view() == old(self).view().with_miss(miss as int),
    ;

    /// The right child of an internal node.
    fn right(&self) -> (r: usize)
        ensures
            self.view() is Internal ==> r == self.view()->Internal_right,
    ;

    fn miss(&self) -> (r: usize)
        ensures
            r == self.view().miss(),
    ;

    fn is_leaf(&self) -> (r: bool)
        ensures
            r == (self.view() is Leaf),
    ;

    fn is_node(&self) -> (r: bool)
        ensures
            self.wf() ==> r == (self.view() is Internal),
    ;
}

/// What each node of `nodes` says.
pub open spec fn views<Node: BVHNode>(nodes: Seq<Node>) -> Seq<NodeView<Node::ExternIndex>> {
    Seq::new(nodes.len(), |i: int| nodes[i].view())
}

/// Whether every node of `nodes` is well formed.
pub open spec fn all_wf<Node: BVHNode>(nodes: Seq<Node>) -> bool {
    forall|i: int| 0 <= i < nodes.len() ==> (#[trigger] nodes[i]).wf()
}

} // verus!
