use bvh::aabb::AABB;
use bvh::bvh::{brute_force, get_ray_in_aabb, BuildError, BVH};
use bvh::frac::Frac;
use bvh::ray::Ray;
use bvh::shape::Shape;
use bvh::sphere::Sphere;
use bvh::triangle::Triangle;
use bvh::vec3::Vec3;

fn v(x: i64, y: i64, z: i64) -> Vec3 {
    Vec3 { x, y, z }
}

fn sphere(x: i64, y: i64, z: i64, radius: i64) -> Shape {
    Shape::Sphere(Sphere { radius, position: v(x, y, z) })
}

fn ray(ox: i64, oy: i64, oz: i64, dx: i64, dy: i64, dz: i64) -> Ray {
    Ray { origin: v(ox, oy, oz), direction: v(dx, dy, dz) }
}

fn frac_eq(a: Frac, b: Frac) -> bool {
    a.num * b.den == b.num * a.den
}

/// Three unit spheres along the x axis; a ray down the axis strikes the
/// first at distance 4 and position (-1, 0, 0); a parallel ray offset by
/// 5 strikes nothing.
#[test]
fn three_spheres_scenario() {
    let shapes = vec![sphere(0, 0, 0, 1), sphere(3, 0, 0, 1), sphere(6, 0, 0, 1)];
    let bvh = BVH::new(shapes).unwrap();

    let hit = bvh.intersect(&ray(-5, 0, 0, 1, 0, 0)).expect("must hit the first sphere");
    assert!(frac_eq(hit.distance, Frac { num: 4, den: 1 }));
    assert!(frac_eq(hit.position.x, Frac { num: -1, den: 1 }));
    assert!(frac_eq(hit.position.y, Frac { num: 0, den: 1 }));
    assert!(frac_eq(hit.position.z, Frac { num: 0, den: 1 }));

    assert!(bvh.intersect(&ray(-5, 5, 0, 1, 0, 0)).is_none());
}

/// A single-shape scene builds a tree whose root box is the shape's own
/// box, and querying it gives exactly what the shape itself reports.
#[test]
fn single_shape_scene() {
    let s = Sphere { radius: 2, position: v(1, 1, 1) };
    let bvh = BVH::new(vec![Shape::Sphere(s)]).unwrap();
    let root = bvh.aabb();
    assert_eq!(root.min, v(-1, -1, -1));
    assert_eq!(root.max, v(3, 3, 3));
    assert_eq!(root.center, v(1, 1, 1));

    let r = ray(1, 1, -10, 0, 0, 1);
    assert_eq!(bvh.intersect(&r), s.intersect(&r));
}

/// An empty scene is rejected before any tree is built.
#[test]
fn empty_scene_is_rejected() {
    match BVH::new(vec![]) {
        Err(e) => assert_eq!(e, BuildError::EmptyScene),
        Ok(_) => panic!("an empty scene must be rejected"),
    }
}

/// Rebuilding from the same shape list yields the same root box.
#[test]
fn rebuild_same_root_box() {
    let shapes = || {
        vec![
            sphere(0, 0, 0, 1),
            sphere(10, -3, 2, 4),
            sphere(-7, 8, 1, 2),
            sphere(5, 5, 5, 1),
        ]
    };
    let b1 = BVH::new(shapes()).unwrap();
    let b2 = BVH::new(shapes()).unwrap();
    assert_eq!(b1.aabb(), b2.aabb());
    assert_eq!(b1.aabb().min, v(-9, -7, -2));
    assert_eq!(b1.aabb().max, v(14, 10, 6));
}

/// Merging boxes takes the componentwise extremes and recomputes the
/// center.
#[test]
fn merge_takes_extremes() {
    let a = AABB::new(v(-3, 0, 1), v(2, 4, 5));
    let b = AABB::new(v(-1, -2, 0), v(7, 3, 2));
    let m = AABB::merge(&vec![a, b]);
    assert_eq!(m.min, v(-3, -2, 0));
    assert_eq!(m.max, v(7, 4, 5));
    assert_eq!(m.center, v(2, 1, 2));
}

/// The per-axis extents of a box.
#[test]
fn side_extents() {
    let a = AABB::new(v(-3, 0, 1), v(2, 4, 5));
    assert_eq!(a.side(), v(5, 4, 4));
}

/// The slab test against the full line of the ray, zero direction
/// components included.
#[test]
fn slab_test_cases() {
    let b = AABB::new(v(0, 0, 0), v(10, 10, 10));
    // straight through
    assert!(b.is_intersect(&ray(-5, 5, 5, 1, 0, 0)));
    // parallel to the box, outside the x slab
    assert!(!b.is_intersect(&ray(-5, 5, 5, 0, 0, 1)));
    // diagonal hit
    assert!(b.is_intersect(&ray(-2, -2, -2, 1, 1, 1)));
    // diagonal miss
    assert!(!b.is_intersect(&ray(30, 0, 0, 1, 1, 1)));
    // a zero direction: the line is a point, inside vs outside
    assert!(b.is_intersect(&ray(3, 4, 5, 0, 0, 0)));
    assert!(!b.is_intersect(&ray(11, 4, 5, 0, 0, 0)));
    // degenerate (zero-thickness) box
    let flat = AABB::new(v(0, 0, 5), v(10, 10, 5));
    assert!(flat.is_intersect(&ray(5, 5, -1, 0, 0, 1)));
    assert!(!flat.is_intersect(&ray(5, 11, -1, 0, 0, 1)));
}

/// Exact triangle intersection: hit point, distance and normal.
#[test]
fn triangle_hit() {
    let t = Triangle::new(v(0, 0, 0), v(10, 0, 0), v(0, 10, 0));
    assert_eq!(t.normal(), v(0, 0, 100));
    let bb = t.aabb();
    assert_eq!(bb.min, v(0, 0, 0));
    assert_eq!(bb.max, v(10, 10, 0));

    let hit = t.intersect(&ray(2, 2, -5, 0, 0, 1)).expect("must hit the triangle");
    assert!(frac_eq(hit.distance, Frac { num: 5, den: 1 }));
    assert!(frac_eq(hit.position.x, Frac { num: 2, den: 1 }));
    assert!(frac_eq(hit.position.y, Frac { num: 2, den: 1 }));
    assert!(frac_eq(hit.position.z, Frac { num: 0, den: 1 }));

    // outside the triangle, inside its plane's box
    assert!(t.intersect(&ray(20, 20, -5, 0, 0, 1)).is_none());
    // behind the origin
    assert!(t.intersect(&ray(2, 2, -5, 0, 0, -1)).is_none());
    // parallel to the plane
    assert!(t.intersect(&ray(2, 2, -5, 1, 0, 0)).is_none());
}

/// The grid sampler: a point on the near face, aimed at the center.
#[test]
fn grid_ray_sampling() {
    let b = AABB::new(v(0, 0, 0), v(10, 10, 10));
    let r = get_ray_in_aabb(0, 0, 2, &b);
    assert_eq!(r.origin, v(0, 0, 0));
    assert_eq!(r.direction, v(5, 5, 5));
    let r = get_ray_in_aabb(1, 2, 2, &b);
    assert_eq!(r.origin, v(5, 10, 0));
    assert_eq!(r.direction, v(0, -5, 5));
}

/// A small linear-congruential generator: deterministic pseudo-random
/// scenes and rays without process-global state.
struct Lcg(u64);

impl Lcg {
    fn next(&mut self) -> u64 {
        self.0 = self.0.wrapping_mul(6364136223846793005).wrapping_add(1442695040888963407);
        self.0 >> 33
    }

    fn coord(&mut self, m: i64) -> i64 {
        (self.next() % (2 * m as u64 + 1)) as i64 - m
    }
}

/// The accelerated query agrees with the linear scan on pseudo-random
/// scenes and rays: both hit or both miss, and hit distances are equal
/// as rationals.
#[test]
fn correct() {
    let mut rng = Lcg(42);
    for round in 0..6 {
        let mut shapes = Vec::new();
        for _ in 0..(10 + round * 7) {
            if rng.next() % 2 == 0 {
                shapes.push(sphere(
                    rng.coord(50),
                    rng.coord(50),
                    rng.coord(50),
                    1 + (rng.next() % 9) as i64,
                ));
            } else {
                let p0 = v(rng.coord(50), rng.coord(50), rng.coord(50));
                let p1 = v(p0.x + rng.coord(10), p0.y + rng.coord(10), p0.z + rng.coord(10));
                let p2 = v(p0.x + rng.coord(10), p0.y + rng.coord(10), p0.z + rng.coord(10));
                shapes.push(Shape::Triangle(Triangle::new(p0, p1, p2)));
            }
        }
        let reference = shapes.clone();
        let bvh = BVH::new(shapes).unwrap();
        for _ in 0..500 {
            let r = ray(
                rng.coord(80),
                rng.coord(80),
                rng.coord(80),
                rng.coord(9),
                rng.coord(9),
                rng.coord(9),
            );
            if r.direction == v(0, 0, 0) {
                continue;
            }
            let fast = bvh.intersect(&r);
            let slow = brute_force(&reference, &r);
            assert_eq!(fast.is_some(), slow.is_some());
            if let (Some(a), Some(b)) = (fast, slow) {
                assert!(frac_eq(a.distance, b.distance));
            }
        }
    }
}
