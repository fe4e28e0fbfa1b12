//! Verified core of a path tracer: bounding boxes over ordered keys, the
//! construction of a bounding volume hierarchy and its nearest-hit query,
//! stratified sampling, noise permutation tables and the binary PPM encoder.

pub mod bounds;
pub mod bvh;
pub mod checker;
pub mod pdf;
pub mod perlin;
pub mod ppm;
pub mod query;
pub mod random;
pub mod sampling;

pub use bounds::{KeyBox, KeyInterval};
pub use bvh::{BVHNode, BVHTree, BvhChild};
pub use pdf::SpherePDF;
pub use ppm::PPMImage;
