//! A bounding-volume hierarchy (BVH) for nearest-hit ray queries.
//!
//! Geometry is modelled over exact integer coordinates: points and
//! directions are `i64` vectors, and ray parameters (hit distances) are
//! exact rationals represented as `i128` numerator/denominator pairs.
//! This keeps every intersection test exact, so the accelerated query
//! provably returns the same answer as a linear scan over all shapes.

pub mod aabb;
pub mod bvh;
pub mod frac;
pub mod intersection;
pub mod ray;
pub mod shape;
pub mod sphere;
pub mod triangle;
pub mod vec3;

use vstd::prelude::*;

verus! {

} // verus!
