use vstd::prelude::*;

verus! {

/// Largest magnitude allowed for a shape coordinate, a ray coordinate or a
/// sphere radius. Keeping inputs inside this range keeps every intermediate
/// product of the intersection formulas comfortably inside `i128`.
pub const COORD_MAX: i64 = 500_000;

/// Largest magnitude a bounding-box corner can take: a box around a shape
/// may extend one radius beyond the shape's position.
pub const BOX_MAX: i64 = 1_000_000;

/// A point or direction vector with exact integer coordinates.
#[derive(Clone, Copy, PartialEq, Eq, Structural, Debug)]
pub struct Vec3 {
    pub x: i64,
    pub y: i64,
    pub z: i64,
}

/// The mathematical model of a vector: unbounded integer coordinates.
/// Intermediate values of the intersection formulas (differences, cross
/// products) live here even when they exceed the `Vec3` coordinate range.
pub ghost struct V3 {
    pub x: int,
    pub y: int,
    pub z: int,
}

impl View for Vec3 {
    type V = V3;

    open spec fn view(&self) -> V3 {
        V3 { x: self.x as int, y: self.y as int, z: self.z as int }
    }
}

impl Vec3 {
    pub fn new(x: i64, y: i64, z: i64) -> (r: Vec3)
        ensures
            r.x == x && r.y == y && r.z == z,
    {
        Vec3 { x, y, z }
    }
}

impl V3 {
    pub open spec fn sub(self, o: V3) -> V3 {
        V3 { x: self.x - o.x, y: self.y - o.y, z: self.z - o.z }
    }

    pub open spec fn dot(self, o: V3) -> int {
        self.x * o.x + self.y * o.y + self.z * o.z
    }

    pub open spec fn cross(self, o: V3) -> V3 {
        V3 {
            x: self.y * o.z - self.z * o.y,
            y: self.z * o.x - self.x * o.z,
            z: self.x * o.y - self.y * o.x,
        }
    }

    pub open spec fn norm2(self) -> int {
        self.dot(self)
    }

    pub open spec fn is_zero(self) -> bool {
        self.x == 0 && self.y == 0 && self.z == 0
    }

    /// Component along axis `k` (0 = x, 1 = y, 2 = z).
    pub open spec fn axis(self, k: int) -> int {
        if k == 0 {
            self.x
        } else if k == 1 {
            self.y
        } else {
            self.z
        }
    }
}

/// All three coordinates within `[-m, m]`.
pub open spec fn v3_bounded(v: V3, m: int) -> bool {
    &&& -m <= v.x <= m
    &&& -m <= v.y <= m
    &&& -m <= v.z <= m
}

/// A shape or ray coordinate vector: bounded by `COORD_MAX`.
pub open spec fn vec_ok(v: Vec3) -> bool {
    v3_bounded(v@, COORD_MAX as int)
}

/// A bounding-box corner vector: bounded by `BOX_MAX`.
pub open spec fn box_vec_ok(v: Vec3) -> bool {
    v3_bounded(v@, BOX_MAX as int)
}

} // verus!
