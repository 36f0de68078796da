//! Geometry, bounding-volume and noise-lattice logic of a path tracer.
//!
//! Coordinates are integers: bounding boxes only ever compare them, and the
//! vector algebra here is exact.
pub mod vec3;
pub mod aabb;
pub mod primitive;
mod rng;
pub mod hittable;
pub mod bvh;
pub mod bvh_tree;
pub mod perlin;
pub mod material;
pub mod texture;
pub mod render;
