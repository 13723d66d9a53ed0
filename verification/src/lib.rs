//! A bounding-volume hierarchy over axis-aligned boxes, laid out as one flat
//! array that can be walked without a stack.
//!
//! * [`aabb`]: boxes on an integer grid.
//! * [`node`]: what a node encoding has to offer; [`glsl_bvh`] and [`tagged`]
//!   are two encodings.
//! * [`bvh`]: the tree and its builders; [`bvh_bucket`] is the bucket builder
//!   as an object.
//! * [`split`]: how a builder divides, and the tree that follows from it.
//! * [`layout`]: the shape of the flat array and the walks through it.
//! * [`guarantees`]: what holds of every tree that a builder returns.
//! * [`mesh`], [`model`], [`world`]: trees over triangles and over models.

pub mod aabb;
pub mod node;
pub mod layout;
pub mod split;
pub mod bvh;
mod sweep;
mod buckets;
mod grow;
pub mod bvh_bucket;
pub mod glsl_bvh;
pub mod tagged;
pub mod guarantees;
pub mod mesh;
pub mod model;
pub mod world;
