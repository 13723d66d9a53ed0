//! A mesh together with the tree over its triangles.

use vstd::prelude::*;
use crate::aabb::{AABB, union_of};
use crate::bvh::InputKind;
use crate::glsl_bvh::GlslBVH;
use crate::mesh::Mesh;
use crate::split::Strategy;

verus! {

/// A mesh with at least one triangle, and the tree over its triangles.
pub struct Model {
    mesh: Mesh,
    bvh: Option<GlslBVH>,
}

impl Model {
    #[verifier::type_invariant]
    spec fn inv(self) -> bool {
        &&& self.mesh.wf()
        &&& self.mesh.triangle_count() > 0
        &&& self.bvh is Some
        &&& self.bvh.unwrap().is_built(Strategy::Buckets(16), self.mesh.triangle_items())
    }

    /// The model's mesh.
    pub closed spec fn spec_mesh(&self) -> Mesh {
        self.mesh
    }

    /// The tree over the mesh's triangles.
    pub closed spec fn spec_bvh(&self) -> GlslBVH {
        self.bvh.unwrap()
    }

    /// The box of the model: the box of all its triangles.
    pub open spec fn bounds(&self) -> AABB {
        union_of(self.spec_mesh().triangle_items())
    }

    /// Makes a model of a mesh and builds its tree.
    pub fn from_obj_model(mesh: Mesh) -> (r: Result<Self, InputKind>)
        requires
            mesh.wf(),
        ensures
            match r {
                Ok(model) => {
                    &&& mesh.triangle_count() > 0
                    &&& model.spec_mesh() == mesh
                    &&& model.spec_bvh().is_built(Strategy::Buckets(16), mesh.triangle_items())
                },
                Err(InputKind::Empty) => mesh.triangle_count() == 0,
                Err(InputKind::TooLarge) => false,
            },
    {
        match mesh.create_bvh_glsl() {
            Ok(tree) => Ok(Self { mesh, bvh: Some(tree) }),
            Err(e) => Err(e),
        }
    }

    /// Builds the tree over the mesh anew.
    pub fn create_bvh(&mut self)
        ensures
            final(self).spec_mesh() == old(self).spec_mesh(),
            final(self).spec_bvh().is_built(
                Strategy::Buckets(16),
                old(self).spec_mesh().triangle_items(),
            ),
    {
        proof {
            use_type_invariant(&*self);
        }
        match self.mesh.create_bvh_glsl() {
            Ok(tree) => {
                self.bvh = Some(tree);
            },
            Err(_) => {},
        }
    }

    pub fn aabb(&self) -> (r: AABB)
        ensures
            r == self.bounds(),
    {
        proof {
            use_type_invariant(self);
        }
        match &self.bvh {
            Some(tree) => tree.aabb(),
            None => AABB::empty(),
        }
    }

    /// The model's mesh.
    pub fn mesh(&self) -> (r: &Mesh)
        ensures
            *r == self.spec_mesh(),
            r.wf(),
            r.triangle_count() > 0,
    {
        proof {
            use_type_invariant(self);
        }
        &self.mesh
    }

    /// The tree over the mesh's triangles.
    pub fn bvh(&self) -> (r: &GlslBVH)
        ensures
            *r == self.spec_bvh(),
            r.is_built(Strategy::Buckets(16), self.spec_mesh().triangle_items()),
    {
        proof {
            use_type_invariant(self);
        }
        self.bvh.as_ref().unwrap()
    }
}

} // verus!
