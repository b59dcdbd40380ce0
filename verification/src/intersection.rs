use crate::frac::{Frac, RVec3};
use vstd::prelude::*;

verus! {

/// The result of an exact shape intersection: the surface point struck,
/// the ray parameter at which it is struck (in units of the direction
/// vector), and a surface normal (a direction, not normalized to unit
/// length, which exact integer geometry cannot express).
#[derive(Clone, Copy, PartialEq, Eq, Structural, Debug)]
pub struct Intersection {
    pub position: RVec3,
    pub distance: Frac,
    pub normal: RVec3,
}

impl Intersection {
    /// The distance is a positive-denominator rational small enough for
    /// exact comparison, and a hit always lies strictly ahead of the
    /// origin.
    pub open spec fn wf(self) -> bool {
        &&& self.distance.wf()
        &&& self.distance.bounded()
        &&& self.distance.num > 0
    }
}

} // verus!
