//! Models, and the tree over the models' boxes.

use vstd::prelude::*;
use crate::aabb::IndexedAABB;
use crate::bvh::{BVH, InputKind, MAX_ITEMS};
use crate::glsl_bvh::GlslBVH;
use crate::model::Model;
use crate::split::Strategy;

verus! {

/// A scene: its models, and the tree over them once it is built.
pub struct World {
    pub models: Vec<Model>,
    pub bvh: Option<GlslBVH>,
}

impl World {
    /// The models as the builders take them: model `i` is named `i` and
    /// bounded by its box.
    pub open spec fn model_items(&self) -> Seq<IndexedAABB<u32>> {
        Seq::new(
            self.models.len() as nat,
            |i: int| IndexedAABB { index: i as u32, aabb: self.models@[i].bounds() },
        )
    }

    pub fn new() -> (r: Self)
        ensures
            r.models@.len() == 0,
            r.bvh is None,
    {
        Self { models: Vec::new(), bvh: None }
    }

    /// Builds the tree over the models, with 16 buckets. Where there is no
    /// model, or there are too many, the world stays as it is.
    pub fn create_bvh(&mut self) -> (r: Result<(), InputKind>)
        ensures
            final(self).models == old(self).models,
            match r {
                Ok(_) => {
                    &&& 0 < old(self).models.len() <= MAX_ITEMS
                    &&& final(self).bvh is Some
                    &&& final(self).bvh.unwrap().is_built(
                        Strategy::Buckets(16),
                        old(self).model_items(),
                    )
                },
                Err(InputKind::Empty) => old(self).models.len() == 0 && final(self).bvh == old(
                    self,
                ).bvh,
                Err(InputKind::TooLarge) => old(self).models.len() > MAX_ITEMS && final(self).bvh
                    == old(self).bvh,
            },
    {
        let count = self.models.len();
        if count == 0 {
            return Err(InputKind::Empty);
        }
        if count > MAX_ITEMS {
            return Err(InputKind::TooLarge);
        }
        let mut items: Vec<IndexedAABB<u32>> = Vec::new();
        let mut i: usize = 0;
        while i < count
            invariant
                i <= count,
                count == self.models.len(),
                count <= MAX_ITEMS,
                items.len() == i,
                forall|j: int| 0 <= j < i ==> #[trigger] items@[j] == self.model_items()[j],
            decreases count - i,
        {
            let aabb = self.models[i].aabb();
            items.push(IndexedAABB { index: i as u32, aabb });
            i += 1;
        }
        proof {
            assert(items@ =~= self.model_items());
        }
        match BVH::build_buckets_16(items) {
            Ok(tree) => {
                self.bvh = Some(tree);
                Ok(())
            },
            Err(e) => Err(e),
        }
    }
}

} // verus!
