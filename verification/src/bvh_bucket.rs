//! The bucket builder as an object: take the primitives first, build later.

use vstd::prelude::*;
use crate::aabb::{AABB, IndexedAABB, union_of, union_range};
use crate::node::{BVHNode, views};
use crate::bvh::{BVH, InputKind, MAX_ITEMS};
use crate::split::{Strategy, lemma_tree_of_shape};

verus! {

pub type BVHBucketBuidler16<Node> = BVHBucketBuidler<16, Node>;

/// The primitives of a tree that is still to be built, with the scratch space
/// for a row of `N` buckets.
pub struct BVHBucketBuidler<const N: usize, Node: BVHNode> {
    children: Vec<IndexedAABB<Node::ExternIndex>>,
    aabb: AABB,
    nodes: Vec<Node>,
    buckets: Vec<Vec<IndexedAABB<Node::ExternIndex>>>,
}

impl<const N: usize, Node: BVHNode> BVHBucketBuidler<N, Node> {
    #[verifier::type_invariant]
    spec fn inv(self) -> bool {
        &&& N >= 2
        &&& self.buckets.len() == N
        &&& self.nodes.len() == 0
        &&& self.aabb == union_of(self.children@)
    }

    /// The primitives that the tree will be built over.
    pub closed spec fn items(self) -> Seq<IndexedAABB<Node::ExternIndex>> {
        self.children@
    }

    pub fn from_iter(items: Vec<IndexedAABB<Node::ExternIndex>>) -> (r: Self)
        requires
            N >= 2,
        ensures
            r.items() == items@,
    {
        let mut buckets: Vec<Vec<IndexedAABB<Node::ExternIndex>>> = Vec::new();
        let mut b: usize = 0;
        while b < N
            invariant
                b <= N,
                buckets.len() == b,
            decreases N - b,
        {
            buckets.push(Vec::new());
            b += 1;
        }
        let aabb = union_range(&items, 0, items.len());
        proof {
            assert(items@.subrange(0, items.len() as int) =~= items@);
        }
        Self { nodes: Vec::new(), buckets, aabb, children: items }
    }

    /// Builds the tree, as [`BVH::build_buckets_num`] does.
    pub fn build(self) -> (r: Result<BVH<Node>, InputKind>)
        ensures
            match r {
                Ok(tree) => 0 < self.items().len() <= MAX_ITEMS && tree.is_built(
                    Strategy::Buckets(N as int),
                    self.items(),
                ),
                Err(InputKind::Empty) => self.items().len() == 0,
                Err(InputKind::TooLarge) => self.items().len() > MAX_ITEMS,
            },
    {
        proof {
            use_type_invariant(&self);
        }
        let ghost items = self.children@;
        let mut nodes = self.nodes;
        let mut children = self.children;
        let mut buckets = self.buckets;
        let aabb = self.aabb;
        let n = children.len();
        if n == 0 {
            return Err(InputKind::Empty);
        }
        if n > MAX_ITEMS {
            return Err(InputKind::TooLarge);
        }
        proof {
            assert(children@.subrange(0, n as int) =~= items);
        }
        BVH::<Node>::buckets_pivot(&mut nodes, aabb, &mut children, 0, n, &mut buckets, 0);
        proof {
            assert(nodes@.subrange(0, nodes.len() as int) =~= nodes@);
            lemma_tree_of_shape(Strategy::Buckets(N as int), items, 0, 0, views(nodes@));
        }
        Ok(BVH::from_pivots(nodes, aabb))
    }
}

} // verus!
