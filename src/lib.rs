//! Bounding-volume hierarchy over boxed primitives, for a path tracer.
//!
//! The library holds what the tracer decides: the boxes that bound the
//! primitives, the tree that is built over them, and the search for the
//! nearest hit along a ray. Coordinates and ray parameters are held as order
//! keys: integers that compare as the numbers they stand for.
pub mod aabb;
pub mod bvh;
pub mod hittable;
pub mod key;
pub mod render;
