use crate::aabb::{hits_at, line_hits, mid, AABB};
use crate::frac::{lemma_mul_bound, Frac, RVec3};
use crate::intersection::Intersection;
use crate::ray::Ray;
use crate::vec3::{vec_ok, Vec3};
use vstd::prelude::*;

verus! {

/// Smallest of three integers.
pub open spec fn min3(a: int, b: int, c: int) -> int {
    let m = if b < a { b } else { a };
    if c < m { c } else { m }
}

/// Largest of three integers.
pub open spec fn max3(a: int, b: int, c: int) -> int {
    let m = if b > a { b } else { a };
    if c > m { c } else { m }
}

/// A triangle, with its bounding box and (unnormalized) normal vector
/// precomputed at construction and frozen.
#[derive(Clone, Copy, Debug)]
pub struct Triangle {
    pub p0: Vec3,
    pub p1: Vec3,
    pub p2: Vec3,
    pub aabb: AABB,
    pub normal: Vec3,
}

impl Triangle {
    /// The tight bounding box of the three corners.
    pub open spec fn spec_aabb(self) -> AABB {
        let mnx = min3(self.p0@.x, self.p1@.x, self.p2@.x);
        let mny = min3(self.p0@.y, self.p1@.y, self.p2@.y);
        let mnz = min3(self.p0@.z, self.p1@.z, self.p2@.z);
        let mxx = max3(self.p0@.x, self.p1@.x, self.p2@.x);
        let mxy = max3(self.p0@.y, self.p1@.y, self.p2@.y);
        let mxz = max3(self.p0@.z, self.p1@.z, self.p2@.z);
        AABB {
            min: Vec3 { x: mnx as i64, y: mny as i64, z: mnz as i64 },
            max: Vec3 { x: mxx as i64, y: mxy as i64, z: mxz as i64 },
            center: Vec3 {
                x: mid(mnx, mxx) as i64,
                y: mid(mny, mxy) as i64,
                z: mid(mnz, mxz) as i64,
            },
        }
    }

    /// The cross product of the two edges leaving `p0`: a normal of the
    /// triangle's plane. It is not normalized to unit length, which exact
    /// integer geometry cannot express; callers needing a unit normal
    /// scale it themselves.
    pub open spec fn spec_normal(self) -> Vec3 {
        let n = self.p1@.sub(self.p0@).cross(self.p2@.sub(self.p0@));
        Vec3 { x: n.x as i64, y: n.y as i64, z: n.z as i64 }
    }

    pub open spec fn wf(self) -> bool {
        &&& vec_ok(self.p0)
        &&& vec_ok(self.p1)
        &&& vec_ok(self.p2)
        &&& self.aabb == self.spec_aabb()
        &&& self.normal == self.spec_normal()
    }

    #[verifier::rlimit(30)]
    pub fn new(p0: Vec3, p1: Vec3, p2: Vec3) -> (r: Triangle)
        requires
            vec_ok(p0),
            vec_ok(p1),
            vec_ok(p2),
        ensures
            r.wf(),
            r.p0 == p0,
            r.p1 == p1,
            r.p2 == p2,
    {
        let mut mn = p0;
        let mut mx = p0;
        if p1.x < mn.x {
            mn.x = p1.x;
        }
        if p1.y < mn.y {
            mn.y = p1.y;
        }
        if p1.z < mn.z {
            mn.z = p1.z;
        }
        if p2.x < mn.x {
            mn.x = p2.x;
        }
        if p2.y < mn.y {
            mn.y = p2.y;
        }
        if p2.z < mn.z {
            mn.z = p2.z;
        }
        if p1.x > mx.x {
            mx.x = p1.x;
        }
        if p1.y > mx.y {
            mx.y = p1.y;
        }
        if p1.z > mx.z {
            mx.z = p1.z;
        }
        if p2.x > mx.x {
            mx.x = p2.x;
        }
        if p2.y > mx.y {
            mx.y = p2.y;
        }
        if p2.z > mx.z {
            mx.z = p2.z;
        }
        let aabb = AABB::new(mn, mx);
        let e1x = p1.x - p0.x;
        let e1y = p1.y - p0.y;
        let e1z = p1.z - p0.z;
        let e2x = p2.x - p0.x;
        let e2y = p2.y - p0.y;
        let e2z = p2.z - p0.z;
        proof {
            lemma_mul_bound(e1y as int, e2z as int, 1_000_000, 1_000_000);
            lemma_mul_bound(e1z as int, e2y as int, 1_000_000, 1_000_000);
            lemma_mul_bound(e1z as int, e2x as int, 1_000_000, 1_000_000);
            lemma_mul_bound(e1x as int, e2z as int, 1_000_000, 1_000_000);
            lemma_mul_bound(e1x as int, e2y as int, 1_000_000, 1_000_000);
            lemma_mul_bound(e1y as int, e2x as int, 1_000_000, 1_000_000);
        }
        let normal = Vec3 {
            x: e1y * e2z - e1z * e2y,
            y: e1z * e2x - e1x * e2z,
            z: e1x * e2y - e1y * e2x,
        };
        Triangle { p0, p1, p2, aabb, normal }
    }

    pub fn aabb(&self) -> (r: AABB)
        requires
            self.wf(),
        ensures
            r == self.spec_aabb(),
            r.wf(),
    {
        self.aabb
    }

    pub fn normal(&self) -> (r: Vec3)
        requires
            self.wf(),
        ensures
            r == self.spec_normal(),
    {
        self.normal
    }

    /// The exact intersection of the ray's line with the triangle, by the
    /// Cramer's-rule solution of `o + t*d == p0 + u*e1 + v*e2` scaled by
    /// the (nonzero) determinant `dd`; a hit needs barycentric
    /// coordinates `u, v >= 0`, `u + v <= dd` and a parameter `t > 0`.
    /// The reported point is finally checked against the triangle's
    /// bounding box; for a true hit the check is redundant (a point of
    /// the triangle lies in its bounding box), and keeping it makes the
    /// soundness of box pruning structural.
    pub open spec fn spec_intersect(self, ray: Ray) -> Option<Intersection> {
        let o = ray.origin@;
        let dir = ray.direction@;
        let e1 = self.p1@.sub(self.p0@);
        let e2 = self.p2@.sub(self.p0@);
        let pv = dir.cross(e2);
        let det = e1.dot(pv);
        if det == 0 {
            None
        } else {
            let sg: int = if det > 0 { 1 } else { -1 };
            let dd = sg * det;
            let tv = o.sub(self.p0@);
            let u = sg * tv.dot(pv);
            if u < 0 || u > dd {
                None
            } else {
                let qv = tv.cross(e1);
                let v = sg * dir.dot(qv);
                if v < 0 || u + v > dd {
                    None
                } else {
                    let tn = sg * e2.dot(qv);
                    if tn <= 0 {
                        None
                    } else {
                        let px = o.x * dd + dir.x * tn;
                        let py = o.y * dd + dir.y * tn;
                        let pz = o.z * dd + dir.z * tn;
                        let bx = self.spec_aabb();
                        if bx.min@.x * dd <= px && px <= bx.max@.x * dd && bx.min@.y * dd <= py
                            && py <= bx.max@.y * dd && bx.min@.z * dd <= pz && pz <= bx.max@.z
                            * dd {
                            Some(Intersection {
                                position: RVec3 {
                                    x: Frac { num: px as i128, den: dd as i128 },
                                    y: Frac { num: py as i128, den: dd as i128 },
                                    z: Frac { num: pz as i128, den: dd as i128 },
                                },
                                distance: Frac { num: tn as i128, den: dd as i128 },
                                normal: RVec3 {
                                    x: Frac { num: self.normal@.x as i128, den: 1 },
                                    y: Frac { num: self.normal@.y as i128, den: 1 },
                                    z: Frac { num: self.normal@.z as i128, den: 1 },
                                },
                            })
                        } else {
                            None
                        }
                    }
                }
            }
        }
    }

    pub fn intersect(&self, ray: &Ray) -> (r: Option<Intersection>)
        requires
            self.wf(),
            ray.wf(),
        ensures
            r == self.spec_intersect(*ray),
            r matches Some(h) ==> h.wf(),
    {
        let ox = ray.origin.x as i128;
        let oy = ray.origin.y as i128;
        let oz = ray.origin.z as i128;
        let dx = ray.direction.x as i128;
        let dy = ray.direction.y as i128;
        let dz = ray.direction.z as i128;
        let p0x = self.p0.x as i128;
        let p0y = self.p0.y as i128;
        let p0z = self.p0.z as i128;
        let e1x = (self.p1.x as i128) - p0x;
        let e1y = (self.p1.y as i128) - p0y;
        let e1z = (self.p1.z as i128) - p0z;
        let e2x = (self.p2.x as i128) - p0x;
        let e2y = (self.p2.y as i128) - p0y;
        let e2z = (self.p2.z as i128) - p0z;
        proof {
            lemma_mul_bound(dy as int, e2z as int, 500_000, 1_000_000);
            lemma_mul_bound(dz as int, e2y as int, 500_000, 1_000_000);
            lemma_mul_bound(dz as int, e2x as int, 500_000, 1_000_000);
            lemma_mul_bound(dx as int, e2z as int, 500_000, 1_000_000);
            lemma_mul_bound(dx as int, e2y as int, 500_000, 1_000_000);
            lemma_mul_bound(dy as int, e2x as int, 500_000, 1_000_000);
        }
        let pvx = dy * e2z - dz * e2y;
        let pvy = dz * e2x - dx * e2z;
        let pvz = dx * e2y - dy * e2x;
        proof {
            lemma_mul_bound(e1x as int, pvx as int, 1_000_000, 1_000_000_000_000);
            lemma_mul_bound(e1y as int, pvy as int, 1_000_000, 1_000_000_000_000);
            lemma_mul_bound(e1z as int, pvz as int, 1_000_000, 1_000_000_000_000);
        }
        let det = e1x * pvx + e1y * pvy + e1z * pvz;
        let ghost ov = ray.origin@;
        let ghost dirv = ray.direction@;
        let ghost e1v = self.p1@.sub(self.p0@);
        let ghost e2v = self.p2@.sub(self.p0@);
        let ghost pvv = dirv.cross(e2v);
        let ghost detv = e1v.dot(pvv);
        proof {
            assert(det as int == detv);
        }
        if det == 0 {
            return None;
        }
        let (dd, sg): (i128, i128) = if det > 0 {
            (det, 1)
        } else {
            (-det, -1)
        };
        let ghost sgv: int = if detv > 0 { 1 } else { -1 };
        let ghost ddv = sgv * detv;
        proof {
            if det > 0 {
                assert(sg == 1 && dd == det && sgv == 1);
                assert(ddv == 1 * detv);
                assert(1 * detv == detv) by (nonlinear_arith);
            } else {
                assert(sg == -1 && dd == -det && sgv == -1);
                assert(ddv == -1 * detv);
                assert(-1 * detv == -detv) by (nonlinear_arith);
            }
            assert(dd as int == ddv);
            assert(sg as int == sgv);
            assert(ddv > 0);
        }
        let tvx = ox - p0x;
        let tvy = oy - p0y;
        let tvz = oz - p0z;
        proof {
            lemma_mul_bound(tvx as int, pvx as int, 1_000_000, 1_000_000_000_000);
            lemma_mul_bound(tvy as int, pvy as int, 1_000_000, 1_000_000_000_000);
            lemma_mul_bound(tvz as int, pvz as int, 1_000_000, 1_000_000_000_000);
            lemma_mul_bound(
                sg as int,
                (tvx * pvx + tvy * pvy + tvz * pvz) as int,
                1,
                3_000_000_000_000_000_000,
            );
        }
        let ghost tvv = ov.sub(self.p0@);
        let ghost uv = sgv * tvv.dot(pvv);
        let u = sg * (tvx * pvx + tvy * pvy + tvz * pvz);
        proof {
            assert((tvx * pvx + tvy * pvy + tvz * pvz) as int == tvv.dot(pvv));
            assert(u as int == uv);
        }
        if u < 0 || u > dd {
            return None;
        }
        proof {
            lemma_mul_bound(tvy as int, e1z as int, 1_000_000, 1_000_000);
            lemma_mul_bound(tvz as int, e1y as int, 1_000_000, 1_000_000);
            lemma_mul_bound(tvz as int, e1x as int, 1_000_000, 1_000_000);
            lemma_mul_bound(tvx as int, e1z as int, 1_000_000, 1_000_000);
            lemma_mul_bound(tvx as int, e1y as int, 1_000_000, 1_000_000);
            lemma_mul_bound(tvy as int, e1x as int, 1_000_000, 1_000_000);
        }
        let qvx = tvy * e1z - tvz * e1y;
        let qvy = tvz * e1x - tvx * e1z;
        let qvz = tvx * e1y - tvy * e1x;
        proof {
            lemma_mul_bound(dx as int, qvx as int, 500_000, 2_000_000_000_000);
            lemma_mul_bound(dy as int, qvy as int, 500_000, 2_000_000_000_000);
            lemma_mul_bound(dz as int, qvz as int, 500_000, 2_000_000_000_000);
            lemma_mul_bound(
                sg as int,
                (dx * qvx + dy * qvy + dz * qvz) as int,
                1,
                3_000_000_000_000_000_000,
            );
        }
        let ghost qvv = tvv.cross(e1v);
        let ghost vv = sgv * dirv.dot(qvv);
        let v = sg * (dx * qvx + dy * qvy + dz * qvz);
        proof {
            assert((dx * qvx + dy * qvy + dz * qvz) as int == dirv.dot(qvv));
            assert(v as int == vv);
        }
        if v < 0 || u + v > dd {
            return None;
        }
        proof {
            lemma_mul_bound(e2x as int, qvx as int, 1_000_000, 2_000_000_000_000);
            lemma_mul_bound(e2y as int, qvy as int, 1_000_000, 2_000_000_000_000);
            lemma_mul_bound(e2z as int, qvz as int, 1_000_000, 2_000_000_000_000);
            lemma_mul_bound(
                sg as int,
                (e2x * qvx + e2y * qvy + e2z * qvz) as int,
                1,
                6_000_000_000_000_000_000,
            );
        }
        let ghost tnv = sgv * e2v.dot(qvv);
        let tn = sg * (e2x * qvx + e2y * qvy + e2z * qvz);
        proof {
            assert((e2x * qvx + e2y * qvy + e2z * qvz) as int == e2v.dot(qvv));
            assert(tn as int == tnv);
        }
        if tn <= 0 {
            return None;
        }
        proof {
            lemma_mul_bound(ox as int, dd as int, 500_000, 3_000_000_000_000_000_000);
            lemma_mul_bound(oy as int, dd as int, 500_000, 3_000_000_000_000_000_000);
            lemma_mul_bound(oz as int, dd as int, 500_000, 3_000_000_000_000_000_000);
            lemma_mul_bound(dx as int, tn as int, 500_000, 6_000_000_000_000_000_000);
            lemma_mul_bound(dy as int, tn as int, 500_000, 6_000_000_000_000_000_000);
            lemma_mul_bound(dz as int, tn as int, 500_000, 6_000_000_000_000_000_000);
        }
        let px = ox * dd + dx * tn;
        let py = oy * dd + dy * tn;
        let pz = oz * dd + dz * tn;
        let bb = self.aabb;
        proof {
            assert(px as int == ov.x * ddv + dirv.x * tnv);
            assert(py as int == ov.y * ddv + dirv.y * tnv);
            assert(pz as int == ov.z * ddv + dirv.z * tnv);
            assert(bb == self.spec_aabb());
        }
        proof {
            lemma_mul_bound(bb.min.x as int, dd as int, 1_000_000, 3_000_000_000_000_000_000);
            lemma_mul_bound(bb.min.y as int, dd as int, 1_000_000, 3_000_000_000_000_000_000);
            lemma_mul_bound(bb.min.z as int, dd as int, 1_000_000, 3_000_000_000_000_000_000);
            lemma_mul_bound(bb.max.x as int, dd as int, 1_000_000, 3_000_000_000_000_000_000);
            lemma_mul_bound(bb.max.y as int, dd as int, 1_000_000, 3_000_000_000_000_000_000);
            lemma_mul_bound(bb.max.z as int, dd as int, 1_000_000, 3_000_000_000_000_000_000);
        }
        if (bb.min.x as i128) * dd <= px && px <= (bb.max.x as i128) * dd && (bb.min.y as i128)
            * dd <= py && py <= (bb.max.y as i128) * dd && (bb.min.z as i128) * dd <= pz && pz
            <= (bb.max.z as i128) * dd {
            Some(
                Intersection {
                    position: RVec3 {
                        x: Frac { num: px, den: dd },
                        y: Frac { num: py, den: dd },
                        z: Frac { num: pz, den: dd },
                    },
                    distance: Frac { num: tn, den: dd },
                    normal: RVec3 {
                        x: Frac { num: self.normal.x as i128, den: 1 },
                        y: Frac { num: self.normal.y as i128, den: 1 },
                        z: Frac { num: self.normal.z as i128, den: 1 },
                    },
                },
            )
        } else {
            None
        }
    }
}


/// A reported triangle hit carries a comparison-sized, positive distance.
pub proof fn lemma_triangle_hit_wf(t: Triangle, ray: Ray)
    requires
        t.wf(),
        ray.wf(),
    ensures
        t.spec_intersect(ray) matches Some(h) ==> h.wf(),
{
    if t.spec_intersect(ray) is Some {
        let o = ray.origin@;
        let dir = ray.direction@;
        let e1 = t.p1@.sub(t.p0@);
        let e2 = t.p2@.sub(t.p0@);
        let pv = dir.cross(e2);
        let det = e1.dot(pv);
        let sg: int = if det > 0 { 1 } else { -1 };
        let dd = sg * det;
        let tv = o.sub(t.p0@);
        let qv = tv.cross(e1);
        let tn = sg * e2.dot(qv);
        lemma_mul_bound(dir.y, e2.z, 500_000, 1_000_000);
        lemma_mul_bound(dir.z, e2.y, 500_000, 1_000_000);
        lemma_mul_bound(dir.z, e2.x, 500_000, 1_000_000);
        lemma_mul_bound(dir.x, e2.z, 500_000, 1_000_000);
        lemma_mul_bound(dir.x, e2.y, 500_000, 1_000_000);
        lemma_mul_bound(dir.y, e2.x, 500_000, 1_000_000);
        lemma_mul_bound(e1.x, pv.x, 1_000_000, 1_000_000_000_000);
        lemma_mul_bound(e1.y, pv.y, 1_000_000, 1_000_000_000_000);
        lemma_mul_bound(e1.z, pv.z, 1_000_000, 1_000_000_000_000);
        lemma_mul_bound(tv.y, e1.z, 1_000_000, 1_000_000);
        lemma_mul_bound(tv.z, e1.y, 1_000_000, 1_000_000);
        lemma_mul_bound(tv.z, e1.x, 1_000_000, 1_000_000);
        lemma_mul_bound(tv.x, e1.z, 1_000_000, 1_000_000);
        lemma_mul_bound(tv.x, e1.y, 1_000_000, 1_000_000);
        lemma_mul_bound(tv.y, e1.x, 1_000_000, 1_000_000);
        lemma_mul_bound(e2.x, qv.x, 1_000_000, 2_000_000_000_000);
        lemma_mul_bound(e2.y, qv.y, 1_000_000, 2_000_000_000_000);
        lemma_mul_bound(e2.z, qv.z, 1_000_000, 2_000_000_000_000);
        lemma_mul_bound(sg, det, 1, 3_000_000_000_000_000_000);
        lemma_mul_bound(sg, e2.dot(qv), 1, 6_000_000_000_000_000_000);
        if det > 0 {
            assert(dd == 1 * det);
            assert(1 * det == det) by (nonlinear_arith);
        } else {
            assert(dd == -1 * det);
            assert(-1 * det == -det) by (nonlinear_arith);
        }
    }
}

/// A triangle hit implies that the ray's line passes through the
/// triangle's bounding box: pruning on the box can never hide a triangle
/// hit.
pub proof fn lemma_triangle_hit_in_box(t: Triangle, ray: Ray)
    requires
        t.wf(),
        ray.wf(),
        t.spec_intersect(ray) is Some,
    ensures
        line_hits(t.spec_aabb(), ray),
{
    let o = ray.origin@;
    let dir = ray.direction@;
    let e1 = t.p1@.sub(t.p0@);
    let e2 = t.p2@.sub(t.p0@);
    let pv = dir.cross(e2);
    let det = e1.dot(pv);
    let sg: int = if det > 0 { 1 } else { -1 };
    let dd = sg * det;
    let tv = o.sub(t.p0@);
    let qv = tv.cross(e1);
    let tn = sg * e2.dot(qv);
    if det > 0 {
        assert(sg == 1);
        assert(dd == 1 * det);
        assert(1 * det == det) by (nonlinear_arith);
    } else {
        assert(sg == -1);
        assert(dd == -1 * det);
        assert(-1 * det == -det) by (nonlinear_arith);
    }
    assert(hits_at(t.spec_aabb(), ray, tn, dd));
}

} // verus!
