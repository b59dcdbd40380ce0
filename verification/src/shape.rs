use crate::aabb::{line_hits, AABB};
use crate::intersection::Intersection;
use crate::ray::Ray;
use crate::sphere::{lemma_sphere_hit_in_box, lemma_sphere_hit_wf, Sphere};
use crate::triangle::{lemma_triangle_hit_in_box, lemma_triangle_hit_wf, Triangle};
use vstd::prelude::*;

verus! {

/// The closed set of primitives the index can hold. The shape capability
/// — a precomputed bounding box and an exact intersection test — is
/// dispatched over this tagged variant.
#[derive(Clone, Copy, Debug)]
pub enum Shape {
    Sphere(Sphere),
    Triangle(Triangle),
}

impl Shape {
    pub open spec fn wf(self) -> bool {
        match self {
            Shape::Sphere(s) => s.wf(),
            Shape::Triangle(t) => t.wf(),
        }
    }

    /// The shape's tight bounding box: it contains every point the
    /// shape's intersection test can ever report.
    pub open spec fn spec_aabb(self) -> AABB {
        match self {
            Shape::Sphere(s) => s.spec_aabb(),
            Shape::Triangle(t) => t.spec_aabb(),
        }
    }

    pub open spec fn spec_intersect(self, ray: Ray) -> Option<Intersection> {
        match self {
            Shape::Sphere(s) => s.spec_intersect(ray),
            Shape::Triangle(t) => t.spec_intersect(ray),
        }
    }

    pub fn aabb(&self) -> (r: AABB)
        requires
            self.wf(),
        ensures
            r == self.spec_aabb(),
            r.wf(),
    {
        match self {
            Shape::Sphere(s) => s.aabb(),
            Shape::Triangle(t) => t.aabb(),
        }
    }

    /// The exact nearest intersection of the ray with this one shape, or
    /// nothing when the ray misses it.
    pub fn intersect(&self, ray: &Ray) -> (r: Option<Intersection>)
        requires
            self.wf(),
            ray.wf(),
        ensures
            r == self.spec_intersect(*ray),
            r matches Some(h) ==> h.wf(),
    {
        match self {
            Shape::Sphere(s) => s.intersect(ray),
            Shape::Triangle(t) => t.intersect(ray),
        }
    }
}

/// Every shape in the list is well formed.
pub open spec fn scene_wf(shapes: Seq<Shape>) -> bool {
    forall|i: int| 0 <= i < shapes.len() ==> (#[trigger] shapes[i]).wf()
}

/// A well-formed shape has a well-formed bounding box.
pub proof fn lemma_shape_aabb_wf(s: Shape)
    requires
        s.wf(),
    ensures
        s.spec_aabb().wf(),
{
}

/// A hit reported by a well-formed shape carries a comparison-sized,
/// positive distance.
pub proof fn lemma_shape_hit_wf(s: Shape, ray: Ray)
    requires
        s.wf(),
        ray.wf(),
    ensures
        s.spec_intersect(ray) matches Some(h) ==> h.wf(),
{
    match s {
        Shape::Sphere(sp) => lemma_sphere_hit_wf(sp, ray),
        Shape::Triangle(t) => lemma_triangle_hit_wf(t, ray),
    }
}

/// Pruning soundness at the shape level: when the ray's line misses a
/// shape's bounding box, the shape reports no hit, so a traversal that
/// skips the shape after a failed box test loses nothing.
pub proof fn lemma_missed_box_no_hit(s: Shape, ray: Ray)
    requires
        s.wf(),
        ray.wf(),
        !line_hits(s.spec_aabb(), ray),
    ensures
        s.spec_intersect(ray) is None,
{
    match s {
        Shape::Sphere(sp) => {
            if sp.spec_intersect(ray) is Some {
                lemma_sphere_hit_in_box(sp, ray);
            }
        },
        Shape::Triangle(t) => {
            if t.spec_intersect(ray) is Some {
                lemma_triangle_hit_in_box(t, ray);
            }
        },
    }
}

} // verus!
