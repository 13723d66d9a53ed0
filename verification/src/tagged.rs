//! A node as a plain enum: easy to read in a debugger, for any kind of index.

use vstd::prelude::*;
use crate::aabb::AABB;
use crate::node::{BVHNode, NodeView};

verus! {

/// A node that says what it is.
#[derive(Copy, Clone, Debug, PartialEq, Eq)]
pub enum TaggedNode<I> {
    Leaf { aabb: AABB, index: I, miss: usize },
    Node { aabb: AABB, right: usize, miss: usize },
}

impl<I: Copy> BVHNode for TaggedNode<I> {
    type ExternIndex = I;

    open spec fn view(&self) -> NodeView<I> {
        match *self {
            TaggedNode::Leaf { aabb, index, miss } => NodeView::Leaf { aabb, index, miss: miss as int },
            TaggedNode::Node { aabb, right, miss } => NodeView::Internal {
                aabb,
                right: right as int,
                miss: miss as int,
            },
        }
    }

    open spec fn wf(&self) -> bool {
        true
    }

    fn new_node(aabb: AABB, right: usize, miss: usize) -> (n: Self) {
        TaggedNode::Node { aabb, right, miss }
    }

    fn new_leaf(aabb: AABB, index: I, miss: usize) -> (n: Self) {
        TaggedNode::Leaf { aabb, index, miss }
    }

    /// Sets the right child of an internal node and leaves a leaf as it is.
    fn set_right(&mut self, right: usize)
        ensures
            old(self).view() is Leaf ==> *final(self) == *old(self),
    {
        match *self {
            TaggedNode::Leaf { .. } => {},
            TaggedNode::Node { aabb, miss, .. } => {
                *self = TaggedNode::Node { aabb, right, miss };
            },
        }
    }

    fn set_miss(&mut self, miss: usize) {
        match *self {
            TaggedNode::Leaf { aabb, index, .. } => {
                *self = TaggedNode::Leaf { aabb, index, miss };
            },
            TaggedNode::Node { aabb, right, .. } => {
                *self = TaggedNode::Node { aabb, right, miss };
            },
        }
    }

    /// The right child of an internal node; 0 for a leaf.
    fn right(&self) -> (r: usize)
        ensures
            self.view() is Leaf ==> r == 0,
    {
        match *self {
            TaggedNode::Leaf { .. } => 0,
            TaggedNode::Node { right, .. } => right,
        }
    }

    fn miss(&self) -> (r: usize) {
        match *self {
            TaggedNode::Leaf { miss, .. } => miss,
            TaggedNode::Node { miss, .. } => miss,
        }
    }

    fn is_leaf(&self) -> (r: bool) {
        match *self {
            TaggedNode::Leaf { .. } => true,
            TaggedNode::Node { .. } => false,
        }
    }

    fn is_node(&self) -> (r: bool) {
        match *self {
            TaggedNode::Leaf { .. } => false,
            TaggedNode::Node { .. } => true,
        }
    }
}

} // verus!
