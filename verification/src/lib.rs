//! Geometry, bounding-volume and raster logic of a small ray tracer and
//! rasterizer, each function stated by a contract and proved against it.
//!
//! Real-valued bounds are held by order keys (see [`interval`]): integers
//! that order the bounds as the real line does, which is all that combining,
//! comparing and sorting boxes reads of them.
pub mod interval;
pub mod aabb;
pub mod hittable;
pub mod bvh;
pub mod color;
pub mod raster;
pub mod texture;
pub mod utility;
