use crate::aabb::{hits_at, line_hits, mid, AABB};
use crate::frac::{
    lemma_abs_from_sq, lemma_mul_bound, lemma_mul_distrib3, lemma_mul_pair, lemma_mul_sq,
    lemma_mul_zero, lemma_sq_diff, lemma_square_pos, lemma_sub_mul, Frac, RVec3,
};
use crate::intersection::Intersection;
use crate::ray::Ray;
use crate::vec3::{vec_ok, Vec3, COORD_MAX};
use vstd::prelude::*;

verus! {

/// `r` is the floor of the square root of `n`.
pub open spec fn is_sqrt_floor(n: int, r: int) -> bool {
    0 <= r && r * r <= n && n < (r + 1) * (r + 1)
}

/// The floor of the square root of a non-negative integer.
pub open spec fn sqrt_floor(n: int) -> int {
    choose|r: int| is_sqrt_floor(n, r)
}

/// Two square-root floors of the same number agree.
pub proof fn lemma_sqrt_floor_unique(n: int, r1: int, r2: int)
    by (nonlinear_arith)
    requires
        is_sqrt_floor(n, r1),
        is_sqrt_floor(n, r2),
    ensures
        r1 == r2,
{
}

/// Integer square root by bisection: the exact floor of the square root.
fn isqrt(n: i128) -> (r: i128)
    requires
        0 <= n <= 100_000_000_000_000_000_000_000_000,
    ensures
        is_sqrt_floor(n as int, r as int),
        r as int == sqrt_floor(n as int),
        0 <= r <= 10_000_000_000_000,
{
    let mut lo: i128 = 0;
    let mut hi: i128 = 10_000_000_000_001;
    proof {
        lemma_mul_bound(hi as int, hi as int, 10_000_000_000_001, 10_000_000_000_001);
        assert((hi as int) * (hi as int) > n as int) by (nonlinear_arith)
            requires
                hi as int == 10_000_000_000_001,
                n <= 100_000_000_000_000_000_000_000_000,
        ;
    }
    while lo + 1 < hi
        invariant
            0 <= lo < hi <= 10_000_000_000_001,
            (lo as int) * (lo as int) <= n as int,
            (n as int) < ((hi as int) * (hi as int)),
            0 <= n <= 100_000_000_000_000_000_000_000_000,
        decreases hi - lo,
    {
        let m = lo + (((hi - lo) as u128 / 2) as i128);
        proof {
            lemma_mul_bound(m as int, m as int, 10_000_000_000_001, 10_000_000_000_001);
        }
        if m * m <= n {
            lo = m;
        } else {
            hi = m;
        }
    }
    proof {
        assert(is_sqrt_floor(n as int, lo as int));
        let c = sqrt_floor(n as int);
        assert(is_sqrt_floor(n as int, c));
        lemma_sqrt_floor_unique(n as int, lo as int, c);
    }
    lo
}

/// Every non-negative integer has a square-root floor.
pub proof fn lemma_sqrt_floor_exists(n: int)
    requires
        n >= 0,
    ensures
        is_sqrt_floor(n, sqrt_floor(n)),
    decreases n,
{
    if n == 0 {
        assert(is_sqrt_floor(0, 0));
    } else {
        lemma_sqrt_floor_exists(n - 1);
        let r = sqrt_floor(n - 1);
        if (r + 1) * (r + 1) <= n {
            assert(0 <= r + 1 && (r + 1) * (r + 1) <= n && n < (r + 2) * (r + 2))
                by (nonlinear_arith)
                requires
                    0 <= r,
                    r * r <= n - 1,
                    n - 1 < (r + 1) * (r + 1),
                    (r + 1) * (r + 1) <= n,
            ;
            assert(is_sqrt_floor(n, r + 1));
        } else {
            assert(is_sqrt_floor(n, r));
        }
    }
}

/// A sphere, given by its center position and radius.
#[derive(Clone, Copy, PartialEq, Eq, Structural, Debug)]
pub struct Sphere {
    pub radius: i64,
    pub position: Vec3,
}

impl Sphere {
    pub open spec fn wf(self) -> bool {
        &&& vec_ok(self.position)
        &&& 0 <= self.radius <= COORD_MAX
    }

    /// The tight bounding box: the position offset by the radius on every
    /// axis, centered on the position.
    pub open spec fn spec_aabb(self) -> AABB {
        AABB {
            min: Vec3 {
                x: (self.position@.x - self.radius) as i64,
                y: (self.position@.y - self.radius) as i64,
                z: (self.position@.z - self.radius) as i64,
            },
            max: Vec3 {
                x: (self.position@.x + self.radius) as i64,
                y: (self.position@.y + self.radius) as i64,
                z: (self.position@.z + self.radius) as i64,
            },
            center: self.position,
        }
    }

    pub fn aabb(&self) -> (r: AABB)
        requires
            self.wf(),
        ensures
            r == self.spec_aabb(),
            r.wf(),
    {
        let r = AABB {
            min: Vec3 {
                x: self.position.x - self.radius,
                y: self.position.y - self.radius,
                z: self.position.z - self.radius,
            },
            max: Vec3 {
                x: self.position.x + self.radius,
                y: self.position.y + self.radius,
                z: self.position.z + self.radius,
            },
            center: self.position,
        };
        proof {
            assert(r.center@.x == mid(r.min@.x, r.max@.x));
            assert(r.center@.y == mid(r.min@.y, r.max@.y));
            assert(r.center@.z == mid(r.min@.z, r.max@.z));
        }
        r
    }

    /// The exact intersection of the ray's line with the sphere, solved
    /// from the quadratic `|o + t*d - c|^2 == radius^2`. The nearest
    /// positive root is reported; its irrational part is rounded down by
    /// the integer square root, deterministically.
    pub open spec fn spec_intersect(self, ray: Ray) -> Option<Intersection> {
        let o = ray.origin@;
        let dir = ray.direction@;
        let c = self.position@;
        let co = o.sub(c);
        let a = dir.norm2();
        let b = co.dot(dir);
        let cc = co.norm2() - self.radius * self.radius;
        let det = b * b - a * cc;
        if det < 0 {
            None
        } else {
            let sq = sqrt_floor(det);
            let t1 = -b - sq;
            let t2 = -b + sq;
            if t1 <= 0 && t2 <= 0 {
                None
            } else {
                let tn = if t1 > 0 { t1 } else { t2 };
                Some(Intersection {
                    position: RVec3 {
                        x: Frac { num: (o.x * a + dir.x * tn) as i128, den: a as i128 },
                        y: Frac { num: (o.y * a + dir.y * tn) as i128, den: a as i128 },
                        z: Frac { num: (o.z * a + dir.z * tn) as i128, den: a as i128 },
                    },
                    distance: Frac { num: tn as i128, den: a as i128 },
                    normal: RVec3 {
                        x: Frac { num: (o.x * a + dir.x * tn - c.x * a) as i128, den: a as i128 },
                        y: Frac { num: (o.y * a + dir.y * tn - c.y * a) as i128, den: a as i128 },
                        z: Frac { num: (o.z * a + dir.z * tn - c.z * a) as i128, den: a as i128 },
                    },
                })
            }
        }
    }

    pub fn intersect(&self, ray: &Ray) -> (r: Option<Intersection>)
        requires
            self.wf(),
            ray.wf(),
        ensures
            r == self.spec_intersect(*ray),
            r matches Some(h) ==> h.wf(),
    {
        let ox = ray.origin.x as i128;
        let oy = ray.origin.y as i128;
        let oz = ray.origin.z as i128;
        let dx = ray.direction.x as i128;
        let dy = ray.direction.y as i128;
        let dz = ray.direction.z as i128;
        let cx = self.position.x as i128;
        let cy = self.position.y as i128;
        let cz = self.position.z as i128;
        let rad = self.radius as i128;
        let cox = ox - cx;
        let coy = oy - cy;
        let coz = oz - cz;
        proof {
            lemma_mul_bound(dx as int, dx as int, 500_000, 500_000);
            lemma_mul_bound(dy as int, dy as int, 500_000, 500_000);
            lemma_mul_bound(dz as int, dz as int, 500_000, 500_000);
            lemma_mul_bound(cox as int, dx as int, 1_000_000, 500_000);
            lemma_mul_bound(coy as int, dy as int, 1_000_000, 500_000);
            lemma_mul_bound(coz as int, dz as int, 1_000_000, 500_000);
            lemma_mul_bound(cox as int, cox as int, 1_000_000, 1_000_000);
            lemma_mul_bound(coy as int, coy as int, 1_000_000, 1_000_000);
            lemma_mul_bound(coz as int, coz as int, 1_000_000, 1_000_000);
            lemma_mul_bound(rad as int, rad as int, 500_000, 500_000);
        }
        let a = dx * dx + dy * dy + dz * dz;
        let b = cox * dx + coy * dy + coz * dz;
        let cc = cox * cox + coy * coy + coz * coz - rad * rad;
        proof {
            lemma_mul_bound(b as int, b as int, 1_500_000_000_000, 1_500_000_000_000);
            lemma_mul_bound(a as int, cc as int, 750_000_000_000, 3_250_000_000_000);
            assert(a >= 1) by {
                lemma_square_pos(dx as int);
                lemma_square_pos(dy as int);
                lemma_square_pos(dz as int);
            }
        }
        let det = b * b - a * cc;
        if det < 0 {
            return None;
        }
        let sq = isqrt(det);
        proof {
            assert((sq as int) * (sq as int) <= det as int);
            assert(sq <= 2_300_000_000_000) by (nonlinear_arith)
                requires
                    (sq as int) * (sq as int) <= det as int,
                    det <= 5_000_000_000_000_000_000_000_000,
                    sq >= 0,
            ;
        }
        let t1 = -b - sq;
        let t2 = -b + sq;
        if t1 <= 0 && t2 <= 0 {
            return None;
        }
        let tn = if t1 > 0 { t1 } else { t2 };
        proof {
            lemma_mul_bound(ox as int, a as int, 500_000, 750_000_000_000);
            lemma_mul_bound(oy as int, a as int, 500_000, 750_000_000_000);
            lemma_mul_bound(oz as int, a as int, 500_000, 750_000_000_000);
            lemma_mul_bound(cx as int, a as int, 500_000, 750_000_000_000);
            lemma_mul_bound(cy as int, a as int, 500_000, 750_000_000_000);
            lemma_mul_bound(cz as int, a as int, 500_000, 750_000_000_000);
            lemma_mul_bound(dx as int, tn as int, 500_000, 3_800_000_000_000);
            lemma_mul_bound(dy as int, tn as int, 500_000, 3_800_000_000_000);
            lemma_mul_bound(dz as int, tn as int, 500_000, 3_800_000_000_000);
        }
        Some(
            Intersection {
                position: RVec3 {
                    x: Frac { num: ox * a + dx * tn, den: a },
                    y: Frac { num: oy * a + dy * tn, den: a },
                    z: Frac { num: oz * a + dz * tn, den: a },
                },
                distance: Frac { num: tn, den: a },
                normal: RVec3 {
                    x: Frac { num: ox * a + dx * tn - cx * a, den: a },
                    y: Frac { num: oy * a + dy * tn - cy * a, den: a },
                    z: Frac { num: oz * a + dz * tn - cz * a, den: a },
                },
            },
        )
    }
}

/// A reported sphere hit carries a comparison-sized, positive distance.
pub proof fn lemma_sphere_hit_wf(s: Sphere, ray: Ray)
    requires
        s.wf(),
        ray.wf(),
    ensures
        s.spec_intersect(ray) matches Some(h) ==> h.wf(),
{
    if s.spec_intersect(ray) is Some {
        let o = ray.origin@;
        let dir = ray.direction@;
        let c = s.position@;
        let co = o.sub(c);
        let a = dir.norm2();
        let b = co.dot(dir);
        let cc = co.norm2() - s.radius * s.radius;
        let det = b * b - a * cc;
        lemma_mul_bound(dir.x, dir.x, 500_000, 500_000);
        lemma_mul_bound(dir.y, dir.y, 500_000, 500_000);
        lemma_mul_bound(dir.z, dir.z, 500_000, 500_000);
        lemma_mul_bound(co.x, dir.x, 1_000_000, 500_000);
        lemma_mul_bound(co.y, dir.y, 1_000_000, 500_000);
        lemma_mul_bound(co.z, dir.z, 1_000_000, 500_000);
        lemma_mul_bound(co.x, co.x, 1_000_000, 1_000_000);
        lemma_mul_bound(co.y, co.y, 1_000_000, 1_000_000);
        lemma_mul_bound(co.z, co.z, 1_000_000, 1_000_000);
        lemma_mul_bound(s.radius as int, s.radius as int, 500_000, 500_000);
        lemma_mul_bound(b, b, 1_500_000_000_000, 1_500_000_000_000);
        lemma_mul_bound(a, cc, 750_000_000_000, 3_250_000_000_000);
        assert(a >= 1) by {
            lemma_square_pos(dir.x);
            lemma_square_pos(dir.y);
            lemma_square_pos(dir.z);
        }
        lemma_sqrt_floor_exists(det);
        let sq = sqrt_floor(det);
        assert(sq <= 2_300_000_000_000) by (nonlinear_arith)
            requires
                sq * sq <= det,
                det <= 5_000_000_000_000_000_000_000_000,
                sq >= 0,
        ;
    }
}

/// One component of the scaled center offset, squared and expanded.
proof fn lemma_w_component(a: int, b: int, co: int, d: int, w: int)
    requires
        w == a * co - b * d,
    ensures
        w * w == (a * a) * (co * co) - 2 * ((a * b) * (co * d)) + (b * b) * (d * d),
{
    lemma_sq_diff(a * co, b * d, w);
    lemma_mul_sq(a, co);
    lemma_mul_sq(b, d);
    lemma_mul_pair(a, co, b, d);
}

/// The closest-approach parameter `-b / a` of the ray's line to the
/// sphere's center lands inside the sphere whenever the quadratic has a
/// real root; scaled by `a`, its offset from the center is at most the
/// radius on every axis.
proof fn lemma_sphere_closest_point(
    a: int,
    b: int,
    rad: int,
    cox: int,
    coy: int,
    coz: int,
    dx: int,
    dy: int,
    dz: int,
)
    requires
        a == dx * dx + dy * dy + dz * dz,
        b == cox * dx + coy * dy + coz * dz,
        a >= 1,
        rad >= 0,
        b * b - a * (cox * cox + coy * coy + coz * coz - rad * rad) >= 0,
    ensures
        -(a * rad) <= a * cox - b * dx <= a * rad,
        -(a * rad) <= a * coy - b * dy <= a * rad,
        -(a * rad) <= a * coz - b * dz <= a * rad,
{
    let wx = a * cox - b * dx;
    let wy = a * coy - b * dy;
    let wz = a * coz - b * dz;
    let cc = cox * cox + coy * coy + coz * coz;
    lemma_w_component(a, b, cox, dx, wx);
    lemma_w_component(a, b, coy, dy, wy);
    lemma_w_component(a, b, coz, dz, wz);
    lemma_mul_distrib3(a * a, cox * cox, coy * coy, coz * coz);
    lemma_mul_distrib3(a * b, cox * dx, coy * dy, coz * dz);
    lemma_mul_distrib3(b * b, dx * dx, dy * dy, dz * dz);
    assert(wx * wx + wy * wy + wz * wz == (a * a) * cc - 2 * ((a * b) * b) + (b * b) * a);
    assert((a * a) * cc - 2 * ((a * b) * b) + (b * b) * a == a * (a * cc - b * b))
        by (nonlinear_arith);
    assert(a * cc - b * b <= a * (rad * rad)) by (nonlinear_arith)
        requires
            b * b - a * (cc - rad * rad) >= 0,
    ;
    assert(a * (a * cc - b * b) <= (a * rad) * (a * rad)) by (nonlinear_arith)
        requires
            a * cc - b * b <= a * (rad * rad),
            a >= 1,
    ;
    let m = a * rad;
    assert(m >= 0) by (nonlinear_arith)
        requires
            m == a * rad,
            a >= 1,
            rad >= 0,
    ;
    lemma_square_pos(wx);
    lemma_square_pos(wy);
    lemma_square_pos(wz);
    lemma_abs_from_sq(wx, m);
    lemma_abs_from_sq(wy, m);
    lemma_abs_from_sq(wz, m);
}

/// A sphere hit implies that the ray's line passes through the sphere's
/// bounding box: pruning on the box can never hide a sphere hit.
pub proof fn lemma_sphere_hit_in_box(s: Sphere, ray: Ray)
    requires
        s.wf(),
        ray.wf(),
        s.spec_intersect(ray) is Some,
    ensures
        line_hits(s.spec_aabb(), ray),
{
    let o = ray.origin@;
    let dir = ray.direction@;
    let c = s.position@;
    let co = o.sub(c);
    let a = dir.norm2();
    let b = co.dot(dir);
    let rad = s.radius as int;
    assert(a >= 1) by {
        lemma_square_pos(dir.x);
        lemma_square_pos(dir.y);
        lemma_square_pos(dir.z);
    }
    lemma_sphere_closest_point(a, b, rad, co.x, co.y, co.z, dir.x, dir.y, dir.z);
    let bx = s.spec_aabb();
    assert(hits_at(bx, ray, -b, a)) by {
        lemma_sub_mul(o.x, c.x, a);
        lemma_sub_mul(o.y, c.y, a);
        lemma_sub_mul(o.z, c.z, a);
        lemma_sub_mul(c.x, rad, a);
        lemma_sub_mul(c.y, rad, a);
        lemma_sub_mul(c.z, rad, a);
        lemma_sub_mul(0, b, dir.x);
        lemma_sub_mul(0, b, dir.y);
        lemma_sub_mul(0, b, dir.z);
        lemma_mul_zero(0, dir.x);
        lemma_mul_zero(0, dir.y);
        lemma_mul_zero(0, dir.z);
        assert((c.x + rad) * a == c.x * a + rad * a) by (nonlinear_arith);
        assert((c.y + rad) * a == c.y * a + rad * a) by (nonlinear_arith);
        assert((c.z + rad) * a == c.z * a + rad * a) by (nonlinear_arith);
    }
}

} // verus!
