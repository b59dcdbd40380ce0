use crate::aabb::{
    box_contains, lemma_contains_line_hits, lemma_merge_least, line_hits, merge_spec, AABB,
};
use crate::frac::{lemma_mul_le, lemma_rat_le_trans};
use crate::intersection::Intersection;
use crate::ray::Ray;
use crate::vec3::{v3_bounded, vec_ok, Vec3};
use crate::shape::{lemma_missed_box_no_hit, scene_wf, Shape};
use vstd::prelude::*;
use vstd::arithmetic::div_mod::{lemma_div_by_multiple, lemma_div_is_ordered, lemma_div_pos_is_pos};
use vstd::seq_lib::{lemma_multiset_commutative, to_multiset_contains, to_multiset_update};

verus! {

/// A node of the hierarchy: a leaf holds one shape's bounding box and
/// its index into the shape list; an internal node holds the merged box
/// of its whole subtree and exactly two owned children.
pub enum Branch {
    Leaf { aabb: AABB, index: usize },
    Node { aabb: AABB, left: Box<Branch>, right: Box<Branch> },
}

impl Branch {
    /// The bounding box stored at the root of this subtree.
    pub open spec fn spec_aabb(self) -> AABB {
        match self {
            Branch::Leaf { aabb, .. } => aabb,
            Branch::Node { aabb, .. } => aabb,
        }
    }

    /// The shape indices at the leaves, left to right.
    pub open spec fn leaf_indices(self) -> Seq<usize>
        decreases self,
    {
        match self {
            Branch::Leaf { index, .. } => seq![index],
            Branch::Node { left, right, .. } => left.leaf_indices() + right.leaf_indices(),
        }
    }

    /// Structural well-formedness over a shape list: every leaf points at
    /// a shape of the list and carries exactly that shape's box, and
    /// every internal node's box contains both children's boxes.
    pub open spec fn wf(self, shapes: Seq<Shape>) -> bool
        decreases self,
    {
        match self {
            Branch::Leaf { aabb, index } => {
                &&& (index as int) < shapes.len()
                &&& aabb == shapes[index as int].spec_aabb()
                &&& aabb.wf()
            },
            Branch::Node { aabb, left, right } => {
                &&& aabb.wf()
                &&& box_contains(aabb, left.spec_aabb())
                &&& box_contains(aabb, right.spec_aabb())
                &&& left.wf(shapes)
                &&& right.wf(shapes)
            },
        }
    }
}

/// Every leaf of a well-formed subtree indexes into the shape list.
pub proof fn lemma_wf_leaf_valid(b: Branch, shapes: Seq<Shape>)
    requires
        b.wf(shapes),
    ensures
        forall|j: int|
            0 <= j < b.leaf_indices().len() ==> (#[trigger] b.leaf_indices()[j] as int)
                < shapes.len(),
    decreases b,
{
    match b {
        Branch::Leaf { .. } => {},
        Branch::Node { left, right, .. } => {
            lemma_wf_leaf_valid(*left, shapes);
            lemma_wf_leaf_valid(*right, shapes);
            assert forall|j: int| 0 <= j < b.leaf_indices().len() implies (#[trigger] b
                .leaf_indices()[j] as int) < shapes.len() by {
                let ll = left.leaf_indices();
                if j < ll.len() {
                    assert(b.leaf_indices()[j] == ll[j]);
                } else {
                    assert(b.leaf_indices()[j] == right.leaf_indices()[j - ll.len()]);
                }
            }
        },
    }
}

/// When the ray's line misses a well-formed subtree's box, no shape at
/// any of its leaves reports a hit: the whole subtree can be pruned.
pub proof fn lemma_subtree_missed(b: Branch, shapes: Seq<Shape>, ray: Ray)
    requires
        scene_wf(shapes),
        b.wf(shapes),
        ray.wf(),
        !line_hits(b.spec_aabb(), ray),
    ensures
        forall|j: int|
            0 <= j < b.leaf_indices().len() ==> shapes[#[trigger] b.leaf_indices()[j] as int]
                .spec_intersect(ray) is None,
    decreases b,
{
    match b {
        Branch::Leaf { aabb, index } => {
            lemma_missed_box_no_hit(shapes[index as int], ray);
            assert(b.leaf_indices()[0] == index);
        },
        Branch::Node { aabb, left, right } => {
            if line_hits(left.spec_aabb(), ray) {
                lemma_contains_line_hits(aabb, left.spec_aabb(), ray);
            }
            if line_hits(right.spec_aabb(), ray) {
                lemma_contains_line_hits(aabb, right.spec_aabb(), ray);
            }
            lemma_subtree_missed(*left, shapes, ray);
            lemma_subtree_missed(*right, shapes, ray);
            assert forall|j: int| 0 <= j < b.leaf_indices().len() implies shapes[#[trigger] b
                .leaf_indices()[j] as int].spec_intersect(ray) is None by {
                let ll = left.leaf_indices();
                if j < ll.len() {
                    assert(b.leaf_indices()[j] == ll[j]);
                } else {
                    assert(b.leaf_indices()[j] == right.leaf_indices()[j - ll.len()]);
                }
            }
        },
    }
}

/// `r` is a nearest hit among the shapes listed in `idxs`: absent
/// exactly when none of them hits the ray; otherwise a hit reported by
/// one of them whose distance no other listed hit undercuts.
pub open spec fn min_hit_over(
    shapes: Seq<Shape>,
    idxs: Seq<usize>,
    ray: Ray,
    r: Option<Intersection>,
) -> bool {
    match r {
        None => forall|j: int|
            0 <= j < idxs.len() ==> shapes[#[trigger] idxs[j] as int].spec_intersect(ray) is None,
        Some(h) => {
            &&& exists|j: int|
                0 <= j < idxs.len() && shapes[#[trigger] idxs[j] as int].spec_intersect(ray)
                    == Some(h)
            &&& forall|j: int|
                0 <= j < idxs.len() ==> (shapes[#[trigger] idxs[j] as int].spec_intersect(ray)
                    matches Some(h2) ==> h.distance.spec_le(h2.distance))
        },
    }
}

/// `r` is a nearest hit over the whole scene: what a linear scan of all
/// shapes computes, and what the accelerated query must agree with.
pub open spec fn scene_min_hit(
    shapes: Seq<Shape>,
    ray: Ray,
    r: Option<Intersection>,
) -> bool {
    match r {
        None => forall|i: int|
            0 <= i < shapes.len() ==> (#[trigger] shapes[i]).spec_intersect(ray) is None,
        Some(h) => {
            &&& exists|i: int|
                0 <= i < shapes.len() && (#[trigger] shapes[i]).spec_intersect(ray) == Some(h)
            &&& forall|i: int|
                0 <= i < shapes.len() ==> ((#[trigger] shapes[i]).spec_intersect(ray)
                    matches Some(h2) ==> h.distance.spec_le(h2.distance))
        },
    }
}

/// Swapping two entries of a sequence leaves its multiset unchanged.
proof fn lemma_swap_multiset<A>(s: Seq<A>, i: int, j: int)
    requires
        0 <= i < s.len(),
        0 <= j < s.len(),
    ensures
        s.update(i, s[j]).update(j, s[i]).to_multiset() == s.to_multiset(),
{
    broadcast use vstd::multiset::group_multiset_axioms, vstd::multiset::group_multiset_properties;

    if i == j {
        assert(s.update(i, s[j]).update(j, s[i]) =~= s);
    } else {
        let s1 = s.update(i, s[j]);
        to_multiset_update(s, i, s[j]);
        to_multiset_update(s1, j, s[i]);
        assert(s.contains(s[i]));
        assert(s.contains(s[j]));
        to_multiset_contains(s, s[i]);
        to_multiset_contains(s, s[j]);
        assert(s1[j] == s[j]);
        assert(s1.update(j, s[i]).to_multiset() =~= s.to_multiset());
    }
}

/// The coordinate, along the given axis, of the center of the shape's
/// bounding box: the key by which construction partitions shapes.
pub open spec fn center_key(shapes: Seq<Shape>, u: usize, axis: int) -> int {
    shapes[u as int].spec_aabb().center@.axis(axis)
}

/// The listed shapes are ordered by box center along the axis.
pub open spec fn sorted_by_center(shapes: Seq<Shape>, idxs: Seq<usize>, axis: int) -> bool {
    forall|m: int, n: int|
        0 <= m < n < idxs.len() ==> center_key(shapes, #[trigger] idxs[m], axis) <= center_key(
            shapes,
            #[trigger] idxs[n],
            axis,
        )
}

/// Reads the partition key of shape `u`.
fn center_coord(list: &Vec<Shape>, u: usize, axis: usize) -> (r: i64)
    requires
        scene_wf(list@),
        (u as int) < list@.len(),
        axis < 3,
    ensures
        r as int == center_key(list@, u, axis as int),
{
    let bb = list[u].aabb();
    if axis == 0 {
        bb.center.x
    } else if axis == 1 {
        bb.center.y
    } else {
        bb.center.z
    }
}

/// Insertion sort of the index list by box center along the axis.
/// Only the ordering of equal keys is left open; the entries themselves
/// are exactly preserved.
fn sort_by_center(list: &Vec<Shape>, idxs: &mut Vec<usize>, axis: usize)
    requires
        scene_wf(list@),
        axis < 3,
        forall|j: int| 0 <= j < old(idxs)@.len() ==> (#[trigger] old(idxs)@[j] as int) < list@.len(),
    ensures
        final(idxs)@.len() == old(idxs)@.len(),
        final(idxs)@.to_multiset() == old(idxs)@.to_multiset(),
        forall|j: int|
            0 <= j < final(idxs)@.len() ==> (#[trigger] final(idxs)@[j] as int) < list@.len(),
        sorted_by_center(list@, final(idxs)@, axis as int),
{
    let n = idxs.len();
    let mut i: usize = 1;
    while i < n
        invariant
            scene_wf(list@),
            axis < 3,
            1 <= i <= n || n == 0,
            n == idxs@.len(),
            idxs@.to_multiset() == old(idxs)@.to_multiset(),
            forall|j: int| 0 <= j < idxs@.len() ==> (#[trigger] idxs@[j] as int) < list@.len(),
            forall|m: int, n2: int|
                0 <= m < n2 < i ==> center_key(list@, #[trigger] idxs@[m], axis as int)
                    <= center_key(list@, #[trigger] idxs@[n2], axis as int),
        decreases n - i,
    {
        let mut j: usize = i;
        while j > 0 && center_coord(list, idxs[j - 1], axis) > center_coord(list, idxs[j], axis)
            invariant
                scene_wf(list@),
                axis < 3,
                0 <= j <= i < n,
                n == idxs@.len(),
                idxs@.to_multiset() == old(idxs)@.to_multiset(),
                forall|jj: int| 0 <= jj < idxs@.len() ==> (#[trigger] idxs@[jj] as int)
                    < list@.len(),
                forall|m: int, n2: int|
                    0 <= m < n2 <= i && n2 != j ==> center_key(list@, #[trigger] idxs@[m],
                        axis as int) <= center_key(list@, #[trigger] idxs@[n2], axis as int),
            decreases j,
        {
            let ghost pre = idxs@;
            let a = idxs[j - 1];
            let b = idxs[j];
            idxs.set(j - 1, b);
            idxs.set(j, a);
            proof {
                lemma_swap_multiset(pre, j - 1, j as int);
                assert(idxs@ =~= pre.update(j - 1, pre[j as int]).update(j as int, pre[j - 1]));
            }
            j = j - 1;
        }
        i = i + 1;
    }
}

/// The bounding boxes of the listed shapes, in list order.
pub open spec fn boxes_of(shapes: Seq<Shape>, idxs: Seq<usize>) -> Seq<AABB> {
    idxs.map_values(|u: usize| shapes[u as int].spec_aabb())
}

/// The bounding boxes of all shapes of the scene.
pub open spec fn scene_boxes(shapes: Seq<Shape>) -> Seq<AABB> {
    shapes.map_values(|s: Shape| s.spec_aabb())
}

/// A box containing the box of every shape listed in `all` contains the
/// merged box of any non-empty selection out of `all`.
proof fn lemma_selection_contained(
    shapes: Seq<Shape>,
    all: Seq<usize>,
    half: Seq<usize>,
    outer: AABB,
)
    requires
        scene_wf(shapes),
        half.len() >= 1,
        forall|j: int| 0 <= j < half.len() ==> all.contains(#[trigger] half[j]),
        forall|j: int| 0 <= j < all.len() ==> (#[trigger] all[j] as int) < shapes.len(),
        forall|j: int|
            0 <= j < all.len() ==> box_contains(
                outer,
                shapes[#[trigger] all[j] as int].spec_aabb(),
            ),
    ensures
        box_contains(outer, merge_spec(boxes_of(shapes, half))),
{
    let bs = boxes_of(shapes, half);
    assert forall|k: int| 0 <= k < bs.len() implies box_contains(outer, #[trigger] bs[k]) && bs[k]
        .wf() by {
        let u = half[k];
        assert(all.contains(u));
        let m = choose|m: int| 0 <= m < all.len() && all[m] == u;
        assert(box_contains(outer, shapes[all[m] as int].spec_aabb()));
        crate::shape::lemma_shape_aabb_wf(shapes[u as int]);
    }
    lemma_merge_least(bs, outer);
}

/// Recursively builds the subtree over the given member indices. One
/// member becomes a leaf. Otherwise the members' boxes are merged into
/// the node's box, the members are sorted by box center along the longest
/// axis of the merged box (ties to the lowest axis), and the sorted run
/// is split at its midpoint into the two children: a balanced
/// object-median split.
fn construct(list: &Vec<Shape>, idxs: Vec<usize>) -> (r: Box<Branch>)
    requires
        scene_wf(list@),
        idxs@.len() >= 1,
        forall|j: int| 0 <= j < idxs@.len() ==> (#[trigger] idxs@[j] as int) < list@.len(),
    ensures
        r.wf(list@),
        r.leaf_indices().to_multiset() == idxs@.to_multiset(),
        r.spec_aabb() == merge_spec(boxes_of(list@, idxs@)),
    decreases idxs@.len(),
{
    let n = idxs.len();
    if n == 1 {
        let i0 = idxs[0];
        let bb = list[i0].aabb();
        let b = Box::new(Branch::Leaf { aabb: bb, index: i0 });
        proof {
            assert(b.leaf_indices() =~= idxs@);
            let bs = boxes_of(list@, idxs@);
            assert(bs.len() == 1 && bs[0] == bb);
            assert(merge_spec(bs).min == bb.min);
            assert(merge_spec(bs).max == bb.max);
            assert(merge_spec(bs).center == bb.center);
        }
        b
    } else {
        let mut boxes: Vec<AABB> = Vec::new();
        let mut k: usize = 0;
        while k < n
            invariant
                scene_wf(list@),
                n == idxs@.len(),
                forall|j: int| 0 <= j < idxs@.len() ==> (#[trigger] idxs@[j] as int)
                    < list@.len(),
                k <= n,
                boxes@.len() == k as int,
                forall|m: int|
                    0 <= m < k ==> #[trigger] boxes@[m] == list@[idxs@[m] as int].spec_aabb()
                        && boxes@[m].wf(),
            decreases n - k,
        {
            let bb = list[idxs[k]].aabb();
            boxes.push(bb);
            k = k + 1;
        }
        proof {
            assert(boxes@ =~= boxes_of(list@, idxs@));
        }
        let aabb = AABB::merge(&boxes);
        let side = aabb.side();
        let axis: usize = if side.x >= side.y && side.x >= side.z {
            0
        } else if side.y >= side.z {
            1
        } else {
            2
        };
        let mut sorted = idxs;
        sort_by_center(list, &mut sorted, axis);
        let ghost perm = sorted@;
        let right_idxs = sorted.split_off(n / 2);
        let ghost li = sorted@;
        let ghost ri = right_idxs@;
        proof {
            assert(li + ri =~= perm);
            lemma_multiset_commutative(li, ri);
            assert forall|j: int| 0 <= j < li.len() implies (#[trigger] li[j] as int)
                < list@.len() && idxs@.contains(li[j]) by {
                assert(li[j] == perm[j]);
                to_multiset_contains(perm, li[j]);
                to_multiset_contains(idxs@, li[j]);
            }
            assert forall|j: int| 0 <= j < ri.len() implies (#[trigger] ri[j] as int)
                < list@.len() && idxs@.contains(ri[j]) by {
                assert(ri[j] == perm[j + li.len()]);
                to_multiset_contains(perm, ri[j]);
                to_multiset_contains(idxs@, ri[j]);
            }
        }
        let left = construct(list, sorted);
        let right = construct(list, right_idxs);
        let node = Box::new(Branch::Node { aabb, left, right });
        proof {
            assert forall|j: int| 0 <= j < idxs@.len() implies box_contains(
                aabb,
                list@[#[trigger] idxs@[j] as int].spec_aabb(),
            ) by {
                assert(box_contains(aabb, boxes@[j]));
            }
            lemma_selection_contained(list@, idxs@, li, aabb);
            lemma_selection_contained(list@, idxs@, ri, aabb);
            assert(node.leaf_indices() == left.leaf_indices() + right.leaf_indices());
            lemma_multiset_commutative(left.leaf_indices(), right.leaf_indices());
        }
        node
    }
}

/// Depth-first query of a subtree: prunes it when the box test fails,
/// otherwise asks the leaf's shape or combines the children's answers by
/// the smaller distance. Returns a nearest hit among this subtree's
/// leaves.
fn traverse(list: &Vec<Shape>, branch: &Branch, ray: &Ray) -> (r: Option<Intersection>)
    requires
        scene_wf(list@),
        branch.wf(list@),
        ray.wf(),
    ensures
        min_hit_over(list@, branch.leaf_indices(), *ray, r),
        r matches Some(h) ==> h.wf(),
    decreases *branch,
{
    match branch {
        Branch::Leaf { aabb, index } => {
            let ghost ids = branch.leaf_indices();
            if aabb.is_intersect(ray) {
                let r = list[*index].intersect(ray);
                proof {
                    assert(ids[0] == *index);
                    if r is Some {
                        let h = r->Some_0;
                        assert(list@[ids[0] as int].spec_intersect(*ray) == Some(h));
                        assert(h.distance.spec_le(h.distance));
                    }
                }
                r
            } else {
                proof {
                    lemma_missed_box_no_hit(list@[*index as int], *ray);
                    assert(ids[0] == *index);
                }
                None
            }
        },
        Branch::Node { aabb, left, right } => {
            let ghost ids = branch.leaf_indices();
            let ghost idl = left.leaf_indices();
            let ghost idr = right.leaf_indices();
            if aabb.is_intersect(ray) {
                let lr = traverse(list, &**left, ray);
                let rr = traverse(list, &**right, ray);
                proof {
                    assert(ids == idl + idr);
                }
                match (lr, rr) {
                    (Some(v), Some(w)) => {
                        let keep_right = w.distance.lt(v.distance);
                        let c = if keep_right {
                            w
                        } else {
                            v
                        };
                        proof {
                            let cd = c.distance;
                            // the chosen distance is below both subtree minima
                            assert(cd.spec_le(v.distance) && cd.spec_le(w.distance));
                            assert forall|j: int|
                                0 <= j < ids.len() implies (list@[#[trigger] ids[j] as int]
                                .spec_intersect(*ray) matches Some(h2) ==> cd.spec_le(
                                h2.distance,
                            )) by {
                                if list@[ids[j] as int].spec_intersect(*ray) is Some {
                                    let h2 = list@[ids[j] as int].spec_intersect(*ray)->Some_0;
                                    lemma_wf_leaf_valid(*branch, list@);
                                    crate::shape::lemma_shape_hit_wf(
                                        list@[ids[j] as int],
                                        *ray,
                                    );
                                    if j < idl.len() {
                                        assert(ids[j] == idl[j]);
                                        assert(v.distance.spec_le(h2.distance));
                                        lemma_rat_le_trans(
                                            cd.num as int,
                                            cd.den as int,
                                            v.distance.num as int,
                                            v.distance.den as int,
                                            h2.distance.num as int,
                                            h2.distance.den as int,
                                        );
                                    } else {
                                        assert(ids[j] == idr[j - idl.len()]);
                                        assert(w.distance.spec_le(h2.distance));
                                        lemma_rat_le_trans(
                                            cd.num as int,
                                            cd.den as int,
                                            w.distance.num as int,
                                            w.distance.den as int,
                                            h2.distance.num as int,
                                            h2.distance.den as int,
                                        );
                                    }
                                }
                            }
                            // the chosen hit is a hit of some leaf
                            if keep_right {
                                let j = choose|j: int|
                                    0 <= j < idr.len() && list@[#[trigger] idr[j] as int]
                                        .spec_intersect(*ray) == Some(w);
                                assert(ids[idl.len() + j] == idr[j]);
                                assert(list@[ids[idl.len() + j] as int].spec_intersect(*ray)
                                    == Some(w));
                            } else {
                                let j = choose|j: int|
                                    0 <= j < idl.len() && list@[#[trigger] idl[j] as int]
                                        .spec_intersect(*ray) == Some(v);
                                assert(ids[j] == idl[j]);
                                assert(list@[ids[j] as int].spec_intersect(*ray) == Some(v));
                            }
                        }
                        Some(c)
                    },
                    (Some(v), None) => {
                        proof {
                            let j = choose|j: int|
                                0 <= j < idl.len() && list@[#[trigger] idl[j] as int]
                                    .spec_intersect(*ray) == Some(v);
                            assert(ids[j] == idl[j]);
                            assert(list@[ids[j] as int].spec_intersect(*ray) == Some(v));
                            assert forall|j2: int|
                                0 <= j2 < ids.len() implies (list@[#[trigger] ids[j2] as int]
                                .spec_intersect(*ray) matches Some(h2) ==> v.distance.spec_le(
                                h2.distance,
                            )) by {
                                if j2 < idl.len() {
                                    assert(ids[j2] == idl[j2]);
                                } else {
                                    assert(ids[j2] == idr[j2 - idl.len()]);
                                }
                            }
                        }
                        Some(v)
                    },
                    (None, Some(w)) => {
                        proof {
                            let j = choose|j: int|
                                0 <= j < idr.len() && list@[#[trigger] idr[j] as int]
                                    .spec_intersect(*ray) == Some(w);
                            assert(ids[idl.len() + j] == idr[j]);
                            assert(list@[ids[idl.len() + j] as int].spec_intersect(*ray)
                                == Some(w));
                            assert forall|j2: int|
                                0 <= j2 < ids.len() implies (list@[#[trigger] ids[j2] as int]
                                .spec_intersect(*ray) matches Some(h2) ==> w.distance.spec_le(
                                h2.distance,
                            )) by {
                                if j2 < idl.len() {
                                    assert(ids[j2] == idl[j2]);
                                } else {
                                    assert(ids[j2] == idr[j2 - idl.len()]);
                                }
                            }
                        }
                        Some(w)
                    },
                    (None, None) => {
                        proof {
                            assert forall|j2: int|
                                0 <= j2 < ids.len() implies list@[#[trigger] ids[j2] as int]
                                .spec_intersect(*ray) is None by {
                                if j2 < idl.len() {
                                    assert(ids[j2] == idl[j2]);
                                } else {
                                    assert(ids[j2] == idr[j2 - idl.len()]);
                                }
                            }
                        }
                        None
                    },
                }
            } else {
                proof {
                    lemma_subtree_missed(*branch, list@, *ray);
                }
                None
            }
        },
    }
}

/// Why a build can fail.
#[derive(Clone, Copy, PartialEq, Eq, Structural, Debug)]
pub enum BuildError {
    /// A build was requested over zero shapes: there is no bounding box
    /// and no tree for an empty scene.
    EmptyScene,
}

/// The bounding-volume hierarchy: the indexed shape list and the binary
/// tree of boxes over it. Built once by `new` and immutable afterwards;
/// queries never change it.
pub struct BVH {
    pub list: Vec<Shape>,
    pub root: Box<Branch>,
}

impl BVH {
    /// The scene is well formed, the tree is well formed over it, and
    /// every shape of the scene appears at some leaf.
    pub open spec fn wf(self) -> bool {
        &&& scene_wf(self.list@)
        &&& self.root.wf(self.list@)
        &&& forall|u: usize|
            (u as int) < self.list@.len() ==> self.root.leaf_indices().contains(u)
    }

    /// Builds the hierarchy over the given shapes, consuming the list.
    /// An empty scene is rejected before any recursion starts.
    pub fn new(list: Vec<Shape>) -> (r: Result<BVH, BuildError>)
        requires
            scene_wf(list@),
        ensures
            r is Ok <==> list@.len() > 0,
            r matches Ok(b) ==> b.wf() && b.list@ == list@ && b.root.spec_aabb() == merge_spec(
                scene_boxes(list@),
            ),
            r matches Err(e) ==> e == BuildError::EmptyScene,
    {
        let n = list.len();
        if n == 0 {
            return Err(BuildError::EmptyScene);
        }
        let mut idxs: Vec<usize> = Vec::new();
        let mut i: usize = 0;
        while i < n
            invariant
                i <= n,
                idxs@.len() == i as int,
                forall|k: int| 0 <= k < i ==> #[trigger] idxs@[k] == k as usize,
            decreases n - i,
        {
            idxs.push(i);
            i = i + 1;
        }
        let ghost gidxs = idxs@;
        let root = construct(&list, idxs);
        proof {
            assert forall|u: usize| (u as int) < list@.len() implies root.leaf_indices().contains(
                u,
            ) by {
                assert(gidxs[u as int] == u);
                assert(gidxs.contains(u));
                to_multiset_contains(gidxs, u);
                to_multiset_contains(root.leaf_indices(), u);
            }
            assert(boxes_of(list@, gidxs) =~= scene_boxes(list@));
        }
        Ok(BVH { list, root })
    }

    /// The root bounding box: the merged box of the whole scene, usable
    /// by callers to aim rays at the indexed geometry.
    pub fn aabb(&self) -> (r: AABB)
        ensures
            r == self.root.spec_aabb(),
    {
        match &*self.root {
            Branch::Leaf { aabb, .. } => *aabb,
            Branch::Node { aabb, .. } => *aabb,
        }
    }

    /// The nearest hit of the ray against the whole scene, or nothing
    /// when the ray strikes no shape: provably the same answer as the
    /// linear scan `brute_force`, at a fraction of the box tests.
    pub fn intersect(&self, ray: &Ray) -> (r: Option<Intersection>)
        requires
            self.wf(),
            ray.wf(),
        ensures
            scene_min_hit(self.list@, *ray, r),
            r matches Some(h) ==> h.wf(),
    {
        let r = traverse(&self.list, &*self.root, ray);
        proof {
            let ids = self.root.leaf_indices();
            lemma_wf_leaf_valid(*self.root, self.list@);
            assert(self.list@.len() == vstd::std_specs::vec::spec_vec_len(&self.list) as int);
            match r {
                None => {
                    assert forall|i: int|
                        0 <= i < self.list@.len() implies (#[trigger] self.list@[i])
                        .spec_intersect(*ray) is None by {
                        let u = i as usize;
                        assert(ids.contains(u));
                        let j = choose|j: int| 0 <= j < ids.len() && ids[j] == u;
                        assert(self.list@[ids[j] as int].spec_intersect(*ray) is None);
                    }
                },
                Some(h) => {
                    let j = choose|j: int|
                        0 <= j < ids.len() && self.list@[#[trigger] ids[j] as int]
                            .spec_intersect(*ray) == Some(h);
                    assert(self.list@[ids[j] as int].spec_intersect(*ray) == Some(h));
                    assert forall|i: int|
                        0 <= i < self.list@.len() implies ((#[trigger] self.list@[i])
                        .spec_intersect(*ray) matches Some(h2) ==> h.distance.spec_le(
                        h2.distance,
                    )) by {
                        let u = i as usize;
                        assert(ids.contains(u));
                        let j2 = choose|j2: int| 0 <= j2 < ids.len() && ids[j2] == u;
                        assert(self.list@[ids[j2] as int].spec_intersect(*ray)
                            matches Some(h2) ==> h.distance.spec_le(h2.distance));
                    }
                },
            }
        }
        r
    }
}

/// The linear scan: asks every shape in turn and keeps the first hit of
/// smallest distance. The reference that the accelerated query is held
/// to.
pub fn brute_force(list: &Vec<Shape>, ray: &Ray) -> (r: Option<Intersection>)
    requires
        scene_wf(list@),
        ray.wf(),
    ensures
        scene_min_hit(list@, *ray, r),
        r matches Some(h) ==> h.wf(),
{
    let n = list.len();
    let mut best: Option<Intersection> = None;
    let mut i: usize = 0;
    while i < n
        invariant
            scene_wf(list@),
            ray.wf(),
            n == list@.len(),
            i <= n,
            match best {
                None => forall|k: int|
                    0 <= k < i ==> (#[trigger] list@[k]).spec_intersect(*ray) is None,
                Some(h) => {
                    &&& h.wf()
                    &&& exists|k: int|
                        0 <= k < i && (#[trigger] list@[k]).spec_intersect(*ray) == Some(h)
                    &&& forall|k: int|
                        0 <= k < i ==> ((#[trigger] list@[k]).spec_intersect(*ray)
                            matches Some(h2) ==> h.distance.spec_le(h2.distance))
                },
            },
        decreases n - i,
    {
        let h = list[i].intersect(ray);
        let ghost old_best = best;
        best = match (best, h) {
            (None, x) => x,
            (Some(b), None) => Some(b),
            (Some(b), Some(x)) => if x.distance.lt(b.distance) {
                Some(x)
            } else {
                Some(b)
            },
        };
        proof {
            if best is Some {
                let bh = best->Some_0;
                assert forall|k: int|
                    0 <= k < i + 1 implies ((#[trigger] list@[k]).spec_intersect(*ray)
                    matches Some(h2) ==> bh.distance.spec_le(h2.distance)) by {
                    if list@[k].spec_intersect(*ray) is Some {
                        let h2 = list@[k].spec_intersect(*ray)->Some_0;
                        crate::shape::lemma_shape_hit_wf(list@[k], *ray);
                        if k < i {
                            match old_best {
                                Some(ob) => {
                                    if bh != ob {
                                        lemma_rat_le_trans(
                                            bh.distance.num as int,
                                            bh.distance.den as int,
                                            ob.distance.num as int,
                                            ob.distance.den as int,
                                            h2.distance.num as int,
                                            h2.distance.den as int,
                                        );
                                    }
                                },
                                None => {},
                            }
                        }
                    }
                }
            }
        }
        i = i + 1;
    }
    best
}

/// Places a grid point on the scene box's near face and aims it at the
/// box's center: a deterministic way to sample rays that are relevant to
/// the indexed geometry. The direction is not normalized (hit distances
/// are in units of its length), and it is the zero vector exactly when
/// the grid point coincides with the center.
pub fn get_ray_in_aabb(i: usize, j: usize, split: usize, aabb: &AABB) -> (r: Ray)
    requires
        aabb.wf(),
        v3_bounded(aabb.min@, 250_000),
        v3_bounded(aabb.max@, 250_000),
        split >= 1,
        i <= split,
        j <= split,
    ensures
        r.origin@.x == aabb.min@.x + ((aabb.max@.x - aabb.min@.x) * (i as int)) / (split as int),
        r.origin@.y == aabb.min@.y + ((aabb.max@.y - aabb.min@.y) * (j as int)) / (split as int),
        r.origin@.z == aabb.min@.z,
        r.direction@.x == aabb.center@.x - r.origin@.x,
        r.direction@.y == aabb.center@.y - r.origin@.y,
        r.direction@.z == aabb.center@.z - r.origin@.z,
        vec_ok(r.origin),
        vec_ok(r.direction),
{
    proof {
        lemma_grid_offset(aabb.max@.x - aabb.min@.x, i as int, split as int);
        lemma_grid_offset(aabb.max@.y - aabb.min@.y, j as int, split as int);
        crate::frac::lemma_mul_bound(
            aabb.max@.x - aabb.min@.x,
            i as int,
            500_000,
            18_446_744_073_709_551_615,
        );
        crate::frac::lemma_mul_bound(
            aabb.max@.y - aabb.min@.y,
            j as int,
            500_000,
            18_446_744_073_709_551_615,
        );
    }
    let dx = (((aabb.max.x - aabb.min.x) as u128 * (i as u128)) / (split as u128)) as i64;
    let dy = (((aabb.max.y - aabb.min.y) as u128 * (j as u128)) / (split as u128)) as i64;
    let origin = Vec3 { x: aabb.min.x + dx, y: aabb.min.y + dy, z: aabb.min.z };
    let direction = Vec3 {
        x: aabb.center.x - origin.x,
        y: aabb.center.y - origin.y,
        z: aabb.center.z - origin.z,
    };
    Ray { origin, direction }
}

/// A grid offset `(d * i) / split` with `0 <= i <= split` stays within
/// `[0, d]`.
proof fn lemma_grid_offset(d: int, i: int, split: int)
    requires
        0 <= d,
        0 <= i <= split,
        1 <= split,
    ensures
        0 <= (d * i) / split <= d,
{
    lemma_mul_le(i, split, d);
    lemma_div_pos_is_pos(d * i, split);
    lemma_div_is_ordered(d * i, d * split, split);
    lemma_div_by_multiple(d, split);
    assert(i * d == d * i) by (nonlinear_arith);
    assert(split * d == d * split) by (nonlinear_arith);
}

/// Any two nearest-hit answers for the same scene and ray agree: they
/// hit or miss together, and when both hit, the reported distances are
/// equal as rationals. In particular the accelerated query and the
/// linear scan always agree (positions may differ only when two shapes
/// are struck at exactly the same distance, where either is a nearest
/// hit).
pub proof fn lemma_scene_min_hit_agrees(
    shapes: Seq<Shape>,
    ray: Ray,
    r1: Option<Intersection>,
    r2: Option<Intersection>,
)
    requires
        scene_min_hit(shapes, ray, r1),
        scene_min_hit(shapes, ray, r2),
    ensures
        r1 is Some <==> r2 is Some,
        r1 matches Some(h1) ==> (r2 matches Some(h2) ==> h1.distance.spec_eq(h2.distance)),
{
    match (r1, r2) {
        (Some(h1), Some(h2)) => {
            let i1 = choose|i: int|
                0 <= i < shapes.len() && (#[trigger] shapes[i]).spec_intersect(ray) == Some(h1);
            let i2 = choose|i: int|
                0 <= i < shapes.len() && (#[trigger] shapes[i]).spec_intersect(ray) == Some(h2);
            assert(shapes[i1].spec_intersect(ray) matches Some(hx) ==> h2.distance.spec_le(
                hx.distance,
            ));
            assert(shapes[i2].spec_intersect(ray) matches Some(hx) ==> h1.distance.spec_le(
                hx.distance,
            ));
        },
        (Some(h1), None) => {
            let i1 = choose|i: int|
                0 <= i < shapes.len() && (#[trigger] shapes[i]).spec_intersect(ray) == Some(h1);
            assert(shapes[i1].spec_intersect(ray) is None);
        },
        (None, Some(h2)) => {
            let i2 = choose|i: int|
                0 <= i < shapes.len() && (#[trigger] shapes[i]).spec_intersect(ray) == Some(h2);
            assert(shapes[i2].spec_intersect(ray) is None);
        },
        (None, None) => {},
    }
}

/// AABB monotonicity: in a well-formed tree, every internal node's box
/// contains both children's boxes entirely.
pub proof fn lemma_node_contains_children(b: Branch, shapes: Seq<Shape>)
    requires
        b.wf(shapes),
    ensures
        b matches Branch::Node { aabb, left, right } ==> box_contains(aabb, left.spec_aabb())
            && box_contains(aabb, right.spec_aabb()),
{
}

/// Builds are deterministic at the root: any two hierarchies built over
/// the same shape list carry the same root bounding box, the merged box
/// of the scene.
pub proof fn lemma_build_root_deterministic(shapes: Seq<Shape>, b1: BVH, b2: BVH)
    requires
        b1.root.spec_aabb() == merge_spec(scene_boxes(shapes)),
        b2.root.spec_aabb() == merge_spec(scene_boxes(shapes)),
    ensures
        b1.root.spec_aabb() == b2.root.spec_aabb(),
{
}

} // verus!
