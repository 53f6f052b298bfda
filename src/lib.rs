//! The verified core of a path tracer: the axes of space, order keys of ray
//! parameters, the nearest-hit search over a scene list and over a bounding
//! volume hierarchy, the Perlin noise lattice, the checker pattern, image
//! texel lookup, and images in the plain-text PPM format.
//!
//! The floating-point geometry stays with the caller: it hands the library
//! hit tests as functions over order keys, and gets back the nearest hit.

pub mod aabb;
pub mod bvh;
pub mod hittable;
pub mod perlin;
pub mod ppm;
mod random;
pub mod texture;
pub mod vec3;
