//! Verified core of a Monte-Carlo path tracer: the order-preserving encoding of
//! coordinates, bounding boxes, the bounding-volume hierarchy, the recursive
//! radiance estimator, the row partition of the parallel renderer, the lattice
//! tables of procedural noise and the texel lookup of image textures.
pub mod keys;
pub mod aabb;
pub mod bvh;
pub mod radiance;
pub mod render;
pub mod texture;
