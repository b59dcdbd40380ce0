use crate::frac::{
    lemma_mul_le, lemma_mul_le_cancel, lemma_mul_zero, lemma_rat_le_trans, lemma_sub_mul, rat_le,
    Frac,
};
use crate::ray::Ray;
use crate::vec3::{box_vec_ok, vec_ok, Vec3, V3, BOX_MAX, COORD_MAX};
use vstd::prelude::*;

verus! {

/// Midpoint of `a <= b`, rounded towards `a`.
pub open spec fn mid(a: int, b: int) -> int
    recommends
        a <= b,
{
    a + (b - a) / 2
}

/// An axis-aligned bounding box. `center` is redundant but cached:
/// the rounded midpoint of `min` and `max`, used to pick partition keys
/// during construction.
#[derive(Clone, Copy, PartialEq, Eq, Structural, Debug)]
pub struct AABB {
    pub min: Vec3,
    pub max: Vec3,
    pub center: Vec3,
}

impl AABB {
    /// Corners in range and ordered on every axis, center cached
    /// correctly. Degenerate (zero-thickness) boxes are legal.
    pub open spec fn wf(self) -> bool {
        &&& box_vec_ok(self.min)
        &&& box_vec_ok(self.max)
        &&& self.min@.x <= self.max@.x
        &&& self.min@.y <= self.max@.y
        &&& self.min@.z <= self.max@.z
        &&& self.center@.x == mid(self.min@.x, self.max@.x)
        &&& self.center@.y == mid(self.min@.y, self.max@.y)
        &&& self.center@.z == mid(self.min@.z, self.max@.z)
    }

    /// Builds a box from ordered corners, caching the center.
    pub fn new(min: Vec3, max: Vec3) -> (r: AABB)
        requires
            box_vec_ok(min),
            box_vec_ok(max),
            min@.x <= max@.x,
            min@.y <= max@.y,
            min@.z <= max@.z,
        ensures
            r.wf(),
            r.min == min,
            r.max == max,
    {
        let center = Vec3 {
            x: min.x + (((max.x - min.x) as u64 / 2) as i64),
            y: min.y + (((max.y - min.y) as u64 / 2) as i64),
            z: min.z + (((max.z - min.z) as u64 / 2) as i64),
        };
        AABB { min, max, center }
    }

    /// Absolute per-axis extents, used only to pick the longest axis for
    /// partitioning.
    pub fn side(&self) -> (r: Vec3)
        requires
            box_vec_ok(self.min),
            box_vec_ok(self.max),
        ensures
            r@.x == abs_int(self.max@.x - self.min@.x),
            r@.y == abs_int(self.max@.y - self.min@.y),
            r@.z == abs_int(self.max@.z - self.min@.z),
    {
        let dx = self.max.x - self.min.x;
        let dy = self.max.y - self.min.y;
        let dz = self.max.z - self.min.z;
        Vec3 {
            x: if dx < 0 { -dx } else { dx },
            y: if dy < 0 { -dy } else { dy },
            z: if dz < 0 { -dz } else { dz },
        }
    }
}

/// Absolute value of an integer.
pub open spec fn abs_int(a: int) -> int {
    if a < 0 { -a } else { a }
}

/// `outer` contains `inner` entirely, on every axis.
pub open spec fn box_contains(outer: AABB, inner: AABB) -> bool {
    &&& outer.min@.x <= inner.min@.x && inner.max@.x <= outer.max@.x
    &&& outer.min@.y <= inner.min@.y && inner.max@.y <= outer.max@.y
    &&& outer.min@.z <= inner.min@.z && inner.max@.z <= outer.max@.z
}

/// The point `o + (tn/td) * d` lies within `[lo, hi]` on one axis,
/// stated multiplied through by `td > 0`.
pub open spec fn hits_axis(lo: int, hi: int, o: int, d: int, tn: int, td: int) -> bool {
    lo * td <= o * td + d * tn <= hi * td
}

/// The line of `ray` passes through `b` at the rational parameter
/// `tn / td`.
pub open spec fn hits_at(b: AABB, ray: Ray, tn: int, td: int) -> bool {
    &&& td > 0
    &&& hits_axis(b.min@.x, b.max@.x, ray.origin@.x, ray.direction@.x, tn, td)
    &&& hits_axis(b.min@.y, b.max@.y, ray.origin@.y, ray.direction@.y, tn, td)
    &&& hits_axis(b.min@.z, b.max@.z, ray.origin@.z, ray.direction@.z, tn, td)
}

/// Some point of the full line `origin + t * direction` (any rational
/// `t`, negative included) lies inside the box. This is exactly what the
/// slab test decides; it is deliberately not restricted to `t >= 0`.
pub open spec fn line_hits(b: AABB, ray: Ray) -> bool {
    exists|tn: int, td: int| hits_at(b, ray, tn, td)
}

/// Componentwise minimum of the `min` corners of a non-empty box list.
pub open spec fn boxes_min(s: Seq<AABB>) -> V3
    recommends
        s.len() > 0,
    decreases s.len(),
{
    if s.len() <= 1 {
        s[0].min@
    } else {
        let rest = boxes_min(s.drop_last());
        let last = s.last().min@;
        V3 {
            x: if last.x < rest.x { last.x } else { rest.x },
            y: if last.y < rest.y { last.y } else { rest.y },
            z: if last.z < rest.z { last.z } else { rest.z },
        }
    }
}

/// Componentwise maximum of the `max` corners of a non-empty box list.
pub open spec fn boxes_max(s: Seq<AABB>) -> V3
    recommends
        s.len() > 0,
    decreases s.len(),
{
    if s.len() <= 1 {
        s[0].max@
    } else {
        let rest = boxes_max(s.drop_last());
        let last = s.last().max@;
        V3 {
            x: if last.x > rest.x { last.x } else { rest.x },
            y: if last.y > rest.y { last.y } else { rest.y },
            z: if last.z > rest.z { last.z } else { rest.z },
        }
    }
}

/// The box bounding a non-empty list of boxes: the smallest box whose
/// corners dominate every member's corners, with the center recomputed.
pub open spec fn merge_spec(s: Seq<AABB>) -> AABB
    recommends
        s.len() > 0,
{
    let mn = boxes_min(s);
    let mx = boxes_max(s);
    AABB {
        min: Vec3 { x: mn.x as i64, y: mn.y as i64, z: mn.z as i64 },
        max: Vec3 { x: mx.x as i64, y: mx.y as i64, z: mx.z as i64 },
        center: Vec3 {
            x: mid(mn.x, mx.x) as i64,
            y: mid(mn.y, mx.y) as i64,
            z: mid(mn.z, mx.z) as i64,
        },
    }
}

/// The corner folds stay in range and dominate every member's corners.
proof fn lemma_boxes_corner_bounds(s: Seq<AABB>)
    requires
        s.len() > 0,
        forall|k: int| 0 <= k < s.len() ==> (#[trigger] s[k]).wf(),
    ensures
        -BOX_MAX <= boxes_min(s).x <= BOX_MAX,
        -BOX_MAX <= boxes_min(s).y <= BOX_MAX,
        -BOX_MAX <= boxes_min(s).z <= BOX_MAX,
        -BOX_MAX <= boxes_max(s).x <= BOX_MAX,
        -BOX_MAX <= boxes_max(s).y <= BOX_MAX,
        -BOX_MAX <= boxes_max(s).z <= BOX_MAX,
        forall|j: int|
            0 <= j < s.len() ==> {
                let b = #[trigger] s[j];
                boxes_min(s).x <= b.min@.x && boxes_min(s).y <= b.min@.y && boxes_min(s).z
                    <= b.min@.z && b.max@.x <= boxes_max(s).x && b.max@.y <= boxes_max(s).y
                    && b.max@.z <= boxes_max(s).z
            },
    decreases s.len(),
{
    if s.len() <= 1 {
    } else {
        let t = s.drop_last();
        lemma_boxes_corner_bounds(t);
        assert forall|j: int| 0 <= j < s.len() implies {
            let b = #[trigger] s[j];
            boxes_min(s).x <= b.min@.x && boxes_min(s).y <= b.min@.y && boxes_min(s).z <= b.min@.z
                && b.max@.x <= boxes_max(s).x && b.max@.y <= boxes_max(s).y && b.max@.z
                <= boxes_max(s).z
        } by {
            if j < s.len() - 1 {
                assert(t[j] == s[j]);
                assert(boxes_min(t).x <= s[j].min@.x);
                assert(s[j].max@.x <= boxes_max(t).x);
            } else {
                assert(s[j] == s.last());
            }
        }
    }
}

/// Any box containing every member dominates the corner folds.
proof fn lemma_boxes_corner_least(s: Seq<AABB>, outer: AABB)
    requires
        s.len() > 0,
        forall|k: int| 0 <= k < s.len() ==> box_contains(outer, #[trigger] s[k]),
    ensures
        outer.min@.x <= boxes_min(s).x,
        outer.min@.y <= boxes_min(s).y,
        outer.min@.z <= boxes_min(s).z,
        boxes_max(s).x <= outer.max@.x,
        boxes_max(s).y <= outer.max@.y,
        boxes_max(s).z <= outer.max@.z,
    decreases s.len(),
{
    if s.len() <= 1 {
    } else {
        lemma_boxes_corner_least(s.drop_last(), outer);
    }
}

/// The merged box is well formed and contains every member.
pub proof fn lemma_merge_contains(s: Seq<AABB>)
    requires
        s.len() > 0,
        forall|k: int| 0 <= k < s.len() ==> (#[trigger] s[k]).wf(),
    ensures
        merge_spec(s).wf(),
        forall|j: int| 0 <= j < s.len() ==> box_contains(merge_spec(s), #[trigger] s[j]),
{
    lemma_boxes_corner_bounds(s);
    assert(boxes_min(s).x <= s[0].min@.x && s[0].min@.x <= s[0].max@.x && s[0].max@.x
        <= boxes_max(s).x);
    assert(boxes_min(s).y <= s[0].min@.y && s[0].min@.y <= s[0].max@.y && s[0].max@.y
        <= boxes_max(s).y);
    assert(boxes_min(s).z <= s[0].min@.z && s[0].min@.z <= s[0].max@.z && s[0].max@.z
        <= boxes_max(s).z);
}

/// Any box containing every member contains the merged box.
pub proof fn lemma_merge_least(s: Seq<AABB>, outer: AABB)
    requires
        s.len() > 0,
        forall|k: int| 0 <= k < s.len() ==> box_contains(outer, #[trigger] s[k]),
        forall|k: int| 0 <= k < s.len() ==> (#[trigger] s[k]).wf(),
    ensures
        box_contains(outer, merge_spec(s)),
{
    lemma_boxes_corner_bounds(s);
    lemma_boxes_corner_least(s, outer);
}

impl AABB {
    /// Bounds a non-empty list of boxes: the componentwise minimum of the
    /// `min` corners and maximum of the `max` corners. An empty list has
    /// no bounding box, so it is excluded by precondition.
    pub fn merge(list: &Vec<AABB>) -> (r: AABB)
        requires
            list@.len() > 0,
            forall|k: int| 0 <= k < list@.len() ==> (#[trigger] list@[k]).wf(),
        ensures
            r == merge_spec(list@),
            r.wf(),
            forall|k: int| 0 <= k < list@.len() ==> box_contains(r, #[trigger] list@[k]),
    {
        let mut mn = list[0].min;
        let mut mx = list[0].max;
        let n = list.len();
        let mut i: usize = 1;
        while i < n
            invariant
                1 <= i <= n,
                n == list@.len(),
                n > 0,
                forall|k: int| 0 <= k < list@.len() ==> (#[trigger] list@[k]).wf(),
                mn@ == boxes_min(list@.take(i as int)),
                mx@ == boxes_max(list@.take(i as int)),
            decreases n - i,
        {
            let b = &list[i];
            proof {
                assert(list@.take(i as int + 1).drop_last() =~= list@.take(i as int));
                assert(list@.take(i as int + 1).last() == list@[i as int]);
            }
            if b.min.x < mn.x {
                mn.x = b.min.x;
            }
            if b.min.y < mn.y {
                mn.y = b.min.y;
            }
            if b.min.z < mn.z {
                mn.z = b.min.z;
            }
            if b.max.x > mx.x {
                mx.x = b.max.x;
            }
            if b.max.y > mx.y {
                mx.y = b.max.y;
            }
            if b.max.z > mx.z {
                mx.z = b.max.z;
            }
            i = i + 1;
        }
        proof {
            assert(list@.take(n as int) =~= list@);
            lemma_merge_contains(list@);
        }
        AABB::new(mn, mx)
    }
}

/// A line through a contained box also passes through the containing box;
/// contrapositively, pruning on an outer box can never hide an inner hit.
pub proof fn lemma_contains_line_hits(outer: AABB, inner: AABB, ray: Ray)
    requires
        box_contains(outer, inner),
        line_hits(inner, ray),
    ensures
        line_hits(outer, ray),
{
    let (tn, td) = choose|tn: int, td: int| hits_at(inner, ray, tn, td);
    lemma_mul_le(outer.min@.x, inner.min@.x, td);
    lemma_mul_le(inner.max@.x, outer.max@.x, td);
    lemma_mul_le(outer.min@.y, inner.min@.y, td);
    lemma_mul_le(inner.max@.y, outer.max@.y, td);
    lemma_mul_le(outer.min@.z, inner.min@.z, td);
    lemma_mul_le(inner.max@.z, outer.max@.z, td);
    assert(hits_at(outer, ray, tn, td));
}

/// The running parameter interval of the slab test: an optional lower and
/// an optional upper bound on the rational ray parameter; an absent bound
/// constrains nothing.
#[derive(Clone, Copy)]
struct Slab {
    lo: Option<Frac>,
    hi: Option<Frac>,
}

/// Stored endpoints are positive-denominator, comparison-sized rationals.
spec fn slab_inv(s: Slab) -> bool {
    &&& (s.lo matches Some(l) ==> l.wf() && l.bounded())
    &&& (s.hi matches Some(h) ==> h.wf() && h.bounded())
}

/// A present lower bound never exceeds a present upper bound.
spec fn slab_feasible(s: Slab) -> bool {
    s.lo matches Some(l) ==> (s.hi matches Some(h) ==> l.spec_le(h))
}

/// The parameter `tn / td` satisfies both stored bounds.
spec fn slab_admits(s: Slab, tn: int, td: int) -> bool {
    &&& (s.lo matches Some(l) ==> rat_le(l.num as int, l.den as int, tn, td))
    &&& (s.hi matches Some(h) ==> rat_le(tn, td, h.num as int, h.den as int))
}

/// Intersects the running interval with the parameter range of one axis
/// slab `[lo_c, hi_c]`. Returns `None` exactly when no parameter admitted
/// by `s` satisfies this axis.
fn clip_axis(s: Slab, lo_c: i64, hi_c: i64, o: i64, d: i64) -> (r: Option<Slab>)
    requires
        slab_inv(s),
        slab_feasible(s),
        -BOX_MAX <= lo_c <= hi_c <= BOX_MAX,
        -COORD_MAX <= o <= COORD_MAX,
        -COORD_MAX <= d <= COORD_MAX,
    ensures
        match r {
            Some(s2) => slab_inv(s2) && slab_feasible(s2) && (forall|tn: int, td: int|
                td > 0 ==> (#[trigger] slab_admits(s2, tn, td) <==> slab_admits(s, tn, td)
                    && hits_axis(lo_c as int, hi_c as int, o as int, d as int, tn, td))),
            None => forall|tn: int, td: int|
                td > 0 ==> !(#[trigger] slab_admits(s, tn, td) && hits_axis(
                    lo_c as int,
                    hi_c as int,
                    o as int,
                    d as int,
                    tn,
                    td,
                )),
        },
{
    if d == 0 {
        if lo_c <= o && o <= hi_c {
            proof {
                assert forall|tn: int, td: int| td > 0 implies hits_axis(
                    lo_c as int,
                    hi_c as int,
                    o as int,
                    d as int,
                    tn,
                    td,
                ) by {
                    lemma_mul_zero(d as int, tn);
                    lemma_mul_le(lo_c as int, o as int, td);
                    lemma_mul_le(o as int, hi_c as int, td);
                }
            }
            Some(s)
        } else {
            proof {
                assert forall|tn: int, td: int| td > 0 implies !(slab_admits(s, tn, td)
                    && hits_axis(lo_c as int, hi_c as int, o as int, d as int, tn, td)) by {
                    if hits_axis(lo_c as int, hi_c as int, o as int, d as int, tn, td) {
                        lemma_mul_zero(d as int, tn);
                        lemma_mul_le_cancel(lo_c as int, o as int, td);
                        lemma_mul_le_cancel(o as int, hi_c as int, td);
                    }
                }
            }
            None
        }
    } else {
        let (ln, ld, hn, hd) = if d > 0 {
            (lo_c - o, d, hi_c - o, d)
        } else {
            (o - hi_c, -d, o - lo_c, -d)
        };
        let alo = Frac { num: ln as i128, den: ld as i128 };
        let ahi = Frac { num: hn as i128, den: hd as i128 };
        proof {
            assert forall|tn: int, td: int| td > 0 implies (hits_axis(
                lo_c as int,
                hi_c as int,
                o as int,
                d as int,
                tn,
                td,
            ) <==> rat_le(alo.num as int, alo.den as int, tn, td) && rat_le(
                tn,
                td,
                ahi.num as int,
                ahi.den as int,
            )) by {
                lemma_sub_mul(lo_c as int, o as int, td);
                lemma_sub_mul(hi_c as int, o as int, td);
                lemma_sub_mul(o as int, lo_c as int, td);
                lemma_sub_mul(o as int, hi_c as int, td);
                lemma_sub_mul(0, d as int, tn);
                lemma_mul_zero(0, tn);
            }
        }
        let nlo = match s.lo {
            None => alo,
            Some(l) => if l.le(alo) {
                alo
            } else {
                l
            },
        };
        let nhi = match s.hi {
            None => ahi,
            Some(h) => if ahi.le(h) {
                ahi
            } else {
                h
            },
        };
        proof {
            // The combined lower bound admits exactly what the old lower
            // bound and the axis lower bound both admit, and dually above.
            assert forall|tn: int, td: int| td > 0 implies {
                &&& (rat_le(nlo.num as int, nlo.den as int, tn, td) <==> (s.lo matches Some(l)
                    ==> rat_le(l.num as int, l.den as int, tn, td)) && rat_le(
                    alo.num as int,
                    alo.den as int,
                    tn,
                    td,
                ))
                &&& (rat_le(tn, td, nhi.num as int, nhi.den as int) <==> (s.hi matches Some(h)
                    ==> rat_le(tn, td, h.num as int, h.den as int)) && rat_le(
                    tn,
                    td,
                    ahi.num as int,
                    ahi.den as int,
                ))
            } by {
                match s.lo {
                    None => {},
                    Some(l) => {
                        if rat_le(nlo.num as int, nlo.den as int, tn, td) {
                            if nlo == alo {
                                lemma_rat_le_trans(
                                    l.num as int, l.den as int,
                                    alo.num as int, alo.den as int,
                                    tn, td,
                                );
                            } else {
                                lemma_rat_le_trans(
                                    alo.num as int, alo.den as int,
                                    l.num as int, l.den as int,
                                    tn, td,
                                );
                            }
                        }
                    },
                }
                match s.hi {
                    None => {},
                    Some(h) => {
                        if rat_le(tn, td, nhi.num as int, nhi.den as int) {
                            if nhi == ahi {
                                lemma_rat_le_trans(
                                    tn, td,
                                    ahi.num as int, ahi.den as int,
                                    h.num as int, h.den as int,
                                );
                            } else {
                                lemma_rat_le_trans(
                                    tn, td,
                                    h.num as int, h.den as int,
                                    ahi.num as int, ahi.den as int,
                                );
                            }
                        }
                    },
                }
            }
        }
        if nlo.le(nhi) {
            let s2 = Slab { lo: Some(nlo), hi: Some(nhi) };
            proof {
                assert forall|tn: int, td: int| td > 0 implies (slab_admits(s2, tn, td)
                    <==> slab_admits(s, tn, td) && hits_axis(
                    lo_c as int,
                    hi_c as int,
                    o as int,
                    d as int,
                    tn,
                    td,
                )) by {}
            }
            Some(s2)
        } else {
            proof {
                assert forall|tn: int, td: int| td > 0 implies !(slab_admits(s, tn, td)
                    && hits_axis(lo_c as int, hi_c as int, o as int, d as int, tn, td)) by {
                    if slab_admits(s, tn, td) && hits_axis(
                        lo_c as int,
                        hi_c as int,
                        o as int,
                        d as int,
                        tn,
                        td,
                    ) {
                        lemma_rat_le_trans(
                            nlo.num as int, nlo.den as int,
                            tn, td,
                            nhi.num as int, nhi.den as int,
                        );
                    }
                }
            }
            None
        }
    }
}

impl AABB {
    /// The slab method, made exact. Per axis, the ray parameter is pinned
    /// between two rationals (or, for a zero direction component, the
    /// axis either rejects every parameter or none); the running interval
    /// empties exactly when the line misses the box, so no epsilon is
    /// needed anywhere, degenerate boxes included.
    pub fn is_intersect(&self, ray: &Ray) -> (r: bool)
        requires
            self.wf(),
            vec_ok(ray.origin),
            vec_ok(ray.direction),
        ensures
            r == line_hits(*self, *ray),
    {
        let s0 = Slab { lo: None, hi: None };
        let s1 = match clip_axis(s0, self.min.x, self.max.x, ray.origin.x, ray.direction.x) {
            Some(s) => s,
            None => {
                proof {
                    assert forall|tn: int, td: int| !hits_at(*self, *ray, tn, td) by {
                        if hits_at(*self, *ray, tn, td) {
                            assert(slab_admits(s0, tn, td));
                        }
                    }
                }
                return false;
            },
        };
        let s2 = match clip_axis(s1, self.min.y, self.max.y, ray.origin.y, ray.direction.y) {
            Some(s) => s,
            None => {
                proof {
                    assert forall|tn: int, td: int| !hits_at(*self, *ray, tn, td) by {
                        if hits_at(*self, *ray, tn, td) {
                            assert(slab_admits(s0, tn, td));
                            assert(slab_admits(s1, tn, td));
                        }
                    }
                }
                return false;
            },
        };
        let s3 = match clip_axis(s2, self.min.z, self.max.z, ray.origin.z, ray.direction.z) {
            Some(s) => s,
            None => {
                proof {
                    assert forall|tn: int, td: int| !hits_at(*self, *ray, tn, td) by {
                        if hits_at(*self, *ray, tn, td) {
                            assert(slab_admits(s0, tn, td));
                            assert(slab_admits(s1, tn, td));
                            assert(slab_admits(s2, tn, td));
                        }
                    }
                }
                return false;
            },
        };
        proof {
            // The interval survived all three axes, so one of its
            // endpoints (or any parameter at all) witnesses the hit.
            match s3.lo {
                Some(l) => {
                    let wn = l.num as int;
                    let wd = l.den as int;
                    assert(slab_admits(s3, wn, wd));
                    assert(slab_admits(s2, wn, wd));
                    assert(slab_admits(s1, wn, wd));
                    assert(hits_at(*self, *ray, wn, wd));
                },
                None => {
                    match s3.hi {
                        Some(h) => {
                            let wn = h.num as int;
                            let wd = h.den as int;
                            assert(slab_admits(s3, wn, wd));
                            assert(slab_admits(s2, wn, wd));
                            assert(slab_admits(s1, wn, wd));
                            assert(hits_at(*self, *ray, wn, wd));
                        },
                        None => {
                            assert(slab_admits(s3, 0, 1));
                            assert(slab_admits(s2, 0, 1));
                            assert(slab_admits(s1, 0, 1));
                            assert(hits_at(*self, *ray, 0, 1));
                        },
                    }
                },
            }
        }
        true
    }
}

} // verus!
