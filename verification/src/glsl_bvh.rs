//! The node in its fixed layout of 48 bytes.
//!
//! The corners are grid coordinates. A renderer that works with lengths
//! scales them when it hands the array on.

use vstd::prelude::*;
use crate::aabb::AABB;
use crate::node::{BVHNode, NodeView};
use crate::bvh::BVH;

verus! {

/// A node with the fields of the flat layout: the smallest corner and the
/// largest corner, each padded to four components, the type tag, the right
/// child (in a leaf: the primitive's index), the miss pointer, and four bytes
/// of padding.
#[derive(Copy, Clone, Debug, PartialEq, Eq)]
pub struct GlslBVHNode {
    pub min: [i32; 4],
    pub max: [i32; 4],
    pub ty: u32,
    pub right: u32,
    pub miss: u32,
    pub _pad: u32,
}

impl GlslBVHNode {
    pub const TY_NODE: u32 = 0x00;

    pub const TY_LEAF: u32 = 0x01;

    /// The node's box, without the padding components.
    pub open spec fn aabb(self) -> AABB {
        AABB { min: [self.min[0], self.min[1], self.min[2]], max: [self.max[0], self.max[1], self.max[2]] }
    }
}

impl BVHNode for GlslBVHNode {
    type ExternIndex = u32;

    open spec fn view(&self) -> NodeView<u32> {
        if self.ty == GlslBVHNode::TY_LEAF {
            NodeView::Leaf { aabb: self.aabb(), index: self.right, miss: self.miss as int }
        } else {
            NodeView::Internal { aabb: self.aabb(), right: self.right as int, miss: self.miss as int }
        }
    }

    /// The tag is one of the two that the layout knows, and all padding is zero.
    open spec fn wf(&self) -> bool {
        &&& (self.ty == GlslBVHNode::TY_NODE || self.ty == GlslBVHNode::TY_LEAF)
        &&& self.min[3] == 0
        &&& self.max[3] == 0
        &&& self._pad == 0
    }

    #[inline]
    fn new_node(aabb: AABB, right: usize, miss: usize) -> (n: Self) {
        let n = GlslBVHNode {
            ty: Self::TY_NODE,
            min: [aabb.min[0], aabb.min[1], aabb.min[2], 0],
            max: [aabb.max[0], aabb.max[1], aabb.max[2], 0],
            right: right as u32,
            miss: miss as u32,
            _pad: 0,
        };
        assert(n.aabb().min =~= aabb.min);
        assert(n.aabb().max =~= aabb.max);
        n
    }

    #[inline]
    fn new_leaf(aabb: AABB, index: u32, miss: usize) -> (n: Self) {
        let n = GlslBVHNode {
            ty: Self::TY_LEAF,
            min: [aabb.min[0], aabb.min[1], aabb.min[2], 0],
            max: [aabb.max[0], aabb.max[1], aabb.max[2], 0],
            right: index,
            miss: miss as u32,
            _pad: 0,
        };
        assert(n.aabb().min =~= aabb.min);
        assert(n.aabb().max =~= aabb.max);
        n
    }

    /// Sets the `right` field, which in a leaf is the primitive's index.
    #[inline]
    fn set_right(&mut self, right: usize)
        ensures
            *final(self) == (GlslBVHNode { right: right as u32, ..*old(self) }),
    {
        self.right = right as u32;
    }

    #[inline]
    fn set_miss(&mut self, miss: usize)
        ensures
            *final(self) == (GlslBVHNode { miss: miss as u32, ..*old(self) }),
    {
        self.miss = miss as u32;
    }

    #[inline]
    fn miss(&self) -> (r: usize) {
        self.miss as usize
    }

    /// The `right` field, which in a leaf is the primitive's index.
    #[inline]
    fn right(&self) -> (r: usize)
        ensures
            r == self.right,
    {
        self.right as usize
    }

    #[inline]
    fn is_leaf(&self) -> (r: bool) {
        self.ty == Self::TY_LEAF
    }

    #[inline]
    fn is_node(&self) -> (r: bool)
        ensures
            r == (self.ty == GlslBVHNode::TY_NODE),
    {
        self.ty == Self::TY_NODE
    }
}

/// Two well-formed nodes that say the same are the same, field by field.
pub proof fn lemma_glsl_node_determined(a: GlslBVHNode, b: GlslBVHNode)
    requires
        a.wf(),
        b.wf(),
        a.view() == b.view(),
    ensures
        a == b,
{
    assert(a.aabb().min[0] == b.aabb().min[0]);
    assert(a.aabb().min[1] == b.aabb().min[1]);
    assert(a.aabb().min[2] == b.aabb().min[2]);
    assert(a.aabb().max[0] == b.aabb().max[0]);
    assert(a.aabb().max[1] == b.aabb().max[1]);
    assert(a.aabb().max[2] == b.aabb().max[2]);
    assert(a.min =~= b.min);
    assert(a.max =~= b.max);
}

pub type GlslBVH = BVH<GlslBVHNode>;

} // verus!
