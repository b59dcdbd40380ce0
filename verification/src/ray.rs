use crate::vec3::{vec_ok, Vec3};
use vstd::prelude::*;

verus! {

/// A ray `origin + t * direction`. The direction need not be normalized;
/// hit distances are expressed in units of its length.
#[derive(Clone, Copy, PartialEq, Eq, Structural, Debug)]
pub struct Ray {
    pub origin: Vec3,
    pub direction: Vec3,
}

impl Ray {
    /// Coordinates in range, and the direction not degenerate. A ray with
    /// a zero direction never leaves its origin; queries require callers
    /// to rule it out rather than defend against it in the hot path.
    pub open spec fn wf(self) -> bool {
        &&& vec_ok(self.origin)
        &&& vec_ok(self.direction)
        &&& !self.direction@.is_zero()
    }
}

} // verus!
