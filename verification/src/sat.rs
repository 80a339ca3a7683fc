//! Separating axes and the clipping of one face by another.

use crate::contact::ContactPoint;
use crate::feature::{feat_intersect, feat_intersect_spec, FEAT_SIDE_B};
use crate::scalar::{Scalar, Vec3};
use crate::select::indices_where;
use vstd::prelude::*;

verus! {

/// Where a separating axis comes from.
#[derive(Clone, Copy, Debug, PartialEq, Eq, Structural)]
pub enum AxisSrc {
    FaceA,
    FaceB,
    Edge,
}

/// The gaps of two solids along an axis.
#[derive(Clone, Copy, Debug, PartialEq, Eq, Structural)]
pub struct AxisGap {
    pub degenerate: bool,
    pub ahead: Scalar,
    pub behind: Scalar,
}

/// One axis with the gaps along it: how far the second solid lies beyond the
/// first, and the first beyond the second. A degenerate axis says nothing.
#[derive(Clone, Copy, Debug, PartialEq, Eq, Structural)]
pub struct AxisTest {
    pub axis: Vec3,
    pub degenerate: bool,
    pub ahead: Scalar,
    pub behind: Scalar,
}

impl AxisTest {
    /// The axis with what was measured along it.
    pub open spec fn of(axis: Vec3, g: AxisGap) -> AxisTest {
        AxisTest { axis, degenerate: g.degenerate, ahead: g.ahead, behind: g.behind }
    }
}

/// The larger gap of an axis.
pub open spec fn gap(t: AxisTest) -> Scalar {
    if t.behind.le_spec(t.ahead) {
        t.ahead
    } else {
        t.behind
    }
}

/// The axis turned to point from the first solid to the second.
pub open spec fn towards_second(t: AxisTest) -> Vec3 {
    if t.behind.le_spec(t.ahead) {
        t.axis
    } else {
        t.axis.neg_spec()
    }
}

/// The smallest finite value.
pub open spec fn least_finite_spec() -> Scalar {
    Scalar { bits: 0xff7f_ffff }
}

/// The largest finite value.
pub open spec fn most_finite_spec() -> Scalar {
    Scalar { bits: 0x7f7f_ffff }
}

/// Some axis separates the solids by more than `skin`.
pub open spec fn separated(tests: Seq<AxisTest>, skin: Scalar) -> bool {
    exists|i: int|
        0 <= i < tests.len() && !(#[trigger] tests[i]).degenerate && skin.lt_spec(gap(tests[i]))
}

/// `k` is the axis of least penetration: the first with the largest gap.
pub open spec fn least_penetration(tests: Seq<AxisTest>, k: int) -> bool {
    &&& 0 <= k < tests.len()
    &&& !tests[k].degenerate
    &&& least_finite_spec().lt_spec(gap(tests[k]))
    &&& forall|j: int|
        0 <= j < tests.len() && !(#[trigger] tests[j]).degenerate ==> !gap(tests[k]).lt_spec(
            gap(tests[j]),
        )
    &&& forall|j: int|
        0 <= j < k && !(#[trigger] tests[j]).degenerate ==> !gap(tests[k]).le_spec(gap(tests[j]))
}

/// No axis has a gap to speak of.
pub open spec fn no_axis(tests: Seq<AxisTest>) -> bool {
    forall|j: int|
        0 <= j < tests.len() && !(#[trigger] tests[j]).degenerate ==> !least_finite_spec().lt_spec(
            gap(tests[j]),
        )
}

/// The axis of least penetration.
#[derive(Clone, Copy, Debug, PartialEq, Eq, Structural)]
pub struct SatHit {
    pub sep: Scalar,
    pub normal: Vec3,
    pub index: usize,
    pub src: AxisSrc,
}

/// Where axis `k` comes from: the face normals of the first solid, then those of
/// the second, then the products of edges.
pub open spec fn axis_source(k: int, faces_a: int, faces_b: int) -> AxisSrc {
    if k < faces_a {
        AxisSrc::FaceA
    } else if k < faces_a + faces_b {
        AxisSrc::FaceB
    } else {
        AxisSrc::Edge
    }
}

/// Scans the axes in order. `None` if one of them separates the solids, or if
/// none of them says anything; otherwise the axis of least penetration.
pub fn sat_scan(tests: &[AxisTest], faces_a: usize, faces_b: usize, skin: Scalar) -> (r: Option<
    SatHit,
>)
    requires
        faces_a + faces_b <= usize::MAX,
    ensures
        match r {
            Some(h) => {
                &&& !separated(tests@, skin)
                &&& least_penetration(tests@, h.index as int)
                &&& h.sep == gap(tests@[h.index as int])
                &&& h.normal == towards_second(tests@[h.index as int])
                &&& h.src == axis_source(h.index as int, faces_a as int, faces_b as int)
            },
            None => separated(tests@, skin) || no_axis(tests@),
        },
{
    let mut best: Option<usize> = None;
    let mut best_gap: Scalar = Scalar { bits: 0xff7f_ffff };
    let mut best_normal: Vec3 = Vec3::zero();
    let mut i: usize = 0;
    while i < tests.len()
        invariant
            i <= tests@.len(),
            forall|j: int|
                0 <= j < i && !(#[trigger] tests@[j]).degenerate ==> !skin.lt_spec(
                    gap(tests@[j]),
                ),
            match best {
                Some(k) => {
                    &&& k < i
                    &&& best_gap == gap(tests@[k as int])
                    &&& best_normal == towards_second(tests@[k as int])
                    &&& !tests@[k as int].degenerate
                    &&& least_finite_spec().lt_spec(best_gap)
                    &&& forall|j: int|
                        0 <= j < i && !(#[trigger] tests@[j]).degenerate ==> !best_gap.lt_spec(
                            gap(tests@[j]),
                        )
                    &&& forall|j: int|
                        0 <= j < k && !(#[trigger] tests@[j]).degenerate ==> !best_gap.le_spec(
                            gap(tests@[j]),
                        )
                },
                None => {
                    &&& best_gap == least_finite_spec()
                    &&& forall|j: int|
                        0 <= j < i && !(#[trigger] tests@[j]).degenerate
                            ==> !least_finite_spec().lt_spec(gap(tests@[j]))
                },
            },
        decreases tests@.len() - i,
    {
        let t = tests[i];
        if !t.degenerate {
            let forward: bool = t.behind.le(t.ahead);
            let sep: Scalar = if forward {
                t.ahead
            } else {
                t.behind
            };
            assert(sep == gap(tests@[i as int]));
            if skin.lt(sep) {
                assert(separated(tests@, skin));
                return None;
            }
            if best_gap.lt(sep) {
                best = Some(i);
                best_gap = sep;
                best_normal = if forward {
                    t.axis
                } else {
                    t.axis.neg()
                };
            }
        }
        i += 1;
    }
    match best {
        None => None,
        Some(k) => {
            let src: AxisSrc = if k < faces_a {
                AxisSrc::FaceA
            } else if k < faces_a + faces_b {
                AxisSrc::FaceB
            } else {
                AxisSrc::Edge
            };
            Some(SatHit { sep: best_gap, normal: best_normal, index: k, src })
        },
    }
}

/// The axis of least penetration is unique.
pub proof fn least_penetration_is_unique(tests: Seq<AxisTest>, j: int, k: int)
    requires
        least_penetration(tests, j),
        least_penetration(tests, k),
    ensures
        j == k,
{
    if j < k {
        assert(!tests[j].degenerate);
        assert(!gap(tests[k]).le_spec(gap(tests[j])));
        assert(!gap(tests[j]).lt_spec(gap(tests[k])));
    } else if k < j {
        assert(!tests[k].degenerate);
        assert(!gap(tests[j]).le_spec(gap(tests[k])));
        assert(!gap(tests[k]).lt_spec(gap(tests[j])));
    }
}

/// The face that is clipped against: that of the first solid unless the axis is
/// a face normal of the second. Returns whether it is the first solid's, and the
/// direction from it to the other solid.
pub fn reference_side(src: AxisSrc, normal: Vec3) -> (r: (bool, Vec3))
    ensures
        r.0 == (src != AxisSrc::FaceB),
        r.1 == if src != AxisSrc::FaceB {
            normal
        } else {
            normal.neg_spec()
        },
{
    match src {
        AxisSrc::FaceB => (false, normal.neg()),
        _ => (true, normal),
    }
}

/// `k` is the first of the largest values above the smallest finite one, or zero
/// if there is none.
pub open spec fn most_aligned_at(dots: Seq<Scalar>, k: int) -> bool {
    if forall|j: int| 0 <= j < dots.len() ==> !least_finite_spec().lt_spec(#[trigger] dots[j]) {
        k == 0
    } else {
        &&& 0 <= k < dots.len()
        &&& least_finite_spec().lt_spec(dots[k])
        &&& forall|j: int| 0 <= j < dots.len() ==> !dots[k].lt_spec(#[trigger] dots[j])
        &&& forall|j: int| 0 <= j < k ==> !dots[k].le_spec(#[trigger] dots[j])
    }
}

/// `k` is the first of the smallest values below the largest finite one, or zero
/// if there is none.
pub open spec fn most_opposed_at(dots: Seq<Scalar>, k: int) -> bool {
    if forall|j: int| 0 <= j < dots.len() ==> !(#[trigger] dots[j]).lt_spec(most_finite_spec()) {
        k == 0
    } else {
        &&& 0 <= k < dots.len()
        &&& dots[k].lt_spec(most_finite_spec())
        &&& forall|j: int| 0 <= j < dots.len() ==> !(#[trigger] dots[j]).lt_spec(dots[k])
        &&& forall|j: int| 0 <= j < k ==> !(#[trigger] dots[j]).le_spec(dots[k])
    }
}

/// The face whose normal points most towards the other solid, given the cosines
/// of all faces.
pub fn select_ref_face(dots: &[Scalar]) -> (k: usize)
    ensures
        most_aligned_at(dots@, k as int),
{
    let mut best: Scalar = Scalar { bits: 0xff7f_ffff };
    let mut k: usize = 0;
    let mut found: bool = false;
    let mut i: usize = 0;
    while i < dots.len()
        invariant
            i <= dots@.len(),
            found ==> {
                &&& k < i
                &&& best == dots@[k as int]
                &&& least_finite_spec().lt_spec(best)
                &&& forall|j: int| 0 <= j < i ==> !best.lt_spec(#[trigger] dots@[j])
                &&& forall|j: int| 0 <= j < k ==> !best.le_spec(#[trigger] dots@[j])
            },
            !found ==> {
                &&& k == 0
                &&& best == least_finite_spec()
                &&& forall|j: int|
                    0 <= j < i ==> !least_finite_spec().lt_spec(#[trigger] dots@[j])
            },
        decreases dots@.len() - i,
    {
        if best.lt(dots[i]) {
            best = dots[i];
            k = i;
            found = true;
        }
        i += 1;
    }
    assert(found ==> least_finite_spec().lt_spec(dots@[k as int]));
    k
}

/// The face whose normal points most against the reference face, given the
/// cosines of all faces.
pub fn select_incident_face(dots: &[Scalar]) -> (k: usize)
    ensures
        most_opposed_at(dots@, k as int),
{
    let mut best: Scalar = Scalar { bits: 0x7f7f_ffff };
    let mut k: usize = 0;
    let mut found: bool = false;
    let mut i: usize = 0;
    while i < dots.len()
        invariant
            i <= dots@.len(),
            found ==> {
                &&& k < i
                &&& best == dots@[k as int]
                &&& best.lt_spec(most_finite_spec())
                &&& forall|j: int| 0 <= j < i ==> !(#[trigger] dots@[j]).lt_spec(best)
                &&& forall|j: int| 0 <= j < k ==> !(#[trigger] dots@[j]).le_spec(best)
            },
            !found ==> {
                &&& k == 0
                &&& best == most_finite_spec()
                &&& forall|j: int|
                    0 <= j < i ==> !(#[trigger] dots@[j]).lt_spec(most_finite_spec())
            },
        decreases dots@.len() - i,
    {
        if dots[i].lt(best) {
            best = dots[i];
            k = i;
            found = true;
        }
        i += 1;
    }
    assert(found ==> dots@[k as int].lt_spec(most_finite_spec()));
    k
}

/// A vertex of the polygon being clipped, with its name.
#[derive(Clone, Copy, Debug, PartialEq, Eq, Structural)]
pub struct ClipVertex {
    pub point: Vec3,
    pub feature: u32,
}

/// The name of vertex `i` of a solid, on the first or second body.
pub open spec fn vertex_feature(i: u32, on_b: bool) -> u32 {
    if on_b {
        FEAT_SIDE_B | i
    } else {
        0u32 | i
    }
}

/// The face to be clipped: the vertices of the incident face with their names.
/// `base` is the number of its first vertex.
pub fn collect_incident(points: &[Vec3], base: u32, ref_is_a: bool) -> (r: Vec<ClipVertex>)
    requires
        base + points@.len() <= u32::MAX,
    ensures
        r@ == Seq::new(
            points@.len(),
            |i: int|
                ClipVertex {
                    point: points@[i],
                    feature: vertex_feature((base + i) as u32, ref_is_a),
                },
        ),
{
    let side: u32 = if ref_is_a {
        FEAT_SIDE_B
    } else {
        0
    };
    let mut r: Vec<ClipVertex> = Vec::new();
    let mut i: usize = 0;
    while i < points.len()
        invariant
            i <= points@.len(),
            base + points@.len() <= u32::MAX,
            side == if ref_is_a {
                FEAT_SIDE_B
            } else {
                0
            },
            r@.len() == i,
            forall|j: int|
                0 <= j < i ==> #[trigger] r@[j] == (ClipVertex {
                    point: points@[j],
                    feature: vertex_feature((base + j) as u32, ref_is_a),
                }),
        decreases points@.len() - i,
    {
        r.push(ClipVertex { point: points[i], feature: side | (base + i as u32) });
        i += 1;
    }
    assert(r@ =~= Seq::new(
        points@.len(),
        |i: int|
            ClipVertex {
                point: points@[i],
                feature: vertex_feature((base + i) as u32, ref_is_a),
            },
    ));
    r
}

/// How a vertex lies to the clipping plane, whether the edge to the next vertex
/// crosses it, and where.
#[derive(Clone, Copy, Debug, PartialEq, Eq, Structural)]
pub struct ClipSide {
    pub dist: Scalar,
    pub crosses: bool,
    pub cut: Vec3,
}

/// What vertex `i` contributes to the clipped polygon: itself, if it is not
/// beyond the plane, and then the crossing of its edge.
pub open spec fn contribution(
    poly: Seq<ClipVertex>,
    sides: Seq<ClipSide>,
    plane: u32,
    i: int,
) -> Seq<ClipVertex> {
    let next = poly[(i + 1) % (poly.len() as int)];
    let own = if sides[i].dist.le_spec(Scalar::zero_spec()) {
        seq![poly[i]]
    } else {
        Seq::empty()
    };
    if sides[i].crosses {
        own.push(
            ClipVertex {
                point: sides[i].cut,
                feature: feat_intersect_spec(poly[i].feature, next.feature, plane),
            },
        )
    } else {
        own
    }
}

/// The clipped polygon up to vertex `n`.
pub open spec fn clipped(
    poly: Seq<ClipVertex>,
    sides: Seq<ClipSide>,
    plane: u32,
    n: int,
) -> Seq<ClipVertex>
    decreases n,
{
    if n <= 0 {
        Seq::empty()
    } else {
        clipped(poly, sides, plane, n - 1) + contribution(poly, sides, plane, n - 1)
    }
}

/// Clips a polygon by one side plane of the reference face, walking round its
/// edge. `plane` names the plane.
pub fn clip_by_side_plane(poly: &[ClipVertex], sides: &[ClipSide], plane: u32) -> (r: Vec<
    ClipVertex,
>)
    requires
        sides@.len() == poly@.len(),
    ensures
        r@ == clipped(poly@, sides@, plane, poly@.len() as int),
{
    let m: usize = poly.len();
    let mut r: Vec<ClipVertex> = Vec::new();
    let mut i: usize = 0;
    while i < m
        invariant
            m == poly@.len(),
            sides@.len() == m,
            i <= m,
            r@ == clipped(poly@, sides@, plane, i as int),
        decreases m - i,
    {
        let ghost before = r@;
        let v = poly[i];
        let next: usize = if i + 1 == m {
            0
        } else {
            i + 1
        };
        proof {
            if i + 1 == m {
                vstd::arithmetic::div_mod::lemma_mod_self_0(m as int);
            } else {
                vstd::arithmetic::div_mod::lemma_small_mod((i + 1) as nat, m as nat);
            }
            assert((i + 1) % (m as int) == next);
        }
        let w = poly[next];
        let s = sides[i];
        if s.dist.le(Scalar::zero()) {
            r.push(v);
        }
        if s.crosses {
            r.push(
                ClipVertex {
                    point: s.cut,
                    feature: feat_intersect(v.feature, w.feature, plane as usize),
                },
            );
        }
        assert(r@ =~= before + contribution(poly@, sides@, plane, i as int));
        i += 1;
    }
    r
}

/// How many edges of the polygon cross the plane, up to vertex `n`.
pub open spec fn crossings(sides: Seq<ClipSide>, n: int) -> int
    decreases n,
{
    if n <= 0 {
        0
    } else {
        crossings(sides, n - 1) + if sides[n - 1].crosses {
            1int
        } else {
            0
        }
    }
}

/// Clipping only drops vertices and adds one for each crossing; a polygon that
/// lies on the kept side comes out as it went in.
pub proof fn clipping_adds_only_crossings(
    poly: Seq<ClipVertex>,
    sides: Seq<ClipSide>,
    plane: u32,
    n: int,
)
    requires
        sides.len() == poly.len(),
        0 <= n <= poly.len(),
    ensures
        clipped(poly, sides, plane, n).len() <= n + crossings(sides, n),
        (forall|i: int|
            0 <= i < n ==> (#[trigger] sides[i]).dist.le_spec(Scalar::zero_spec())
                && !sides[i].crosses) ==> clipped(poly, sides, plane, n) == poly.take(n),
    decreases n,
{
    if n > 0 {
        clipping_adds_only_crossings(poly, sides, plane, n - 1);
        if forall|i: int|
            0 <= i < n ==> (#[trigger] sides[i]).dist.le_spec(Scalar::zero_spec())
                && !sides[i].crosses {
            assert(sides[n - 1].dist.le_spec(Scalar::zero_spec()));
            assert(clipped(poly, sides, plane, n) =~= poly.take(n));
        }
    } else {
        assert(poly.take(0) =~= Seq::<ClipVertex>::empty());
    }
}

/// The vertices not farther than `limit` from the reference face.
pub open spec fn within_limit(dists: Seq<Scalar>, limit: Scalar) -> spec_fn(int) -> bool {
    |i: int| dists[i].le_spec(limit)
}

/// The contacts of the clipped polygon: the vertices not farther than `limit`
/// from the reference face, whose depth is the distance negated.
pub fn clipped_contacts(poly: &[ClipVertex], dists: &[Scalar], limit: Scalar) -> (r: Vec<
    ContactPoint,
>)
    requires
        dists@.len() == poly@.len(),
    ensures
        r@ == indices_where(within_limit(dists@, limit), poly@.len()).map_values(
            |i: int|
                ContactPoint {
                    point: poly@[i].point,
                    depth: dists@[i].neg_spec(),
                    feature: poly@[i].feature,
                },
        ),
{
    let ghost p = within_limit(dists@, limit);
    let ghost f = |i: int|
        ContactPoint {
            point: poly@[i].point,
            depth: dists@[i].neg_spec(),
            feature: poly@[i].feature,
        };
    let mut r: Vec<ContactPoint> = Vec::new();
    let mut i: usize = 0;
    assert(r@ =~= indices_where(p, 0).map_values(f));
    while i < poly.len()
        invariant
            i <= poly@.len(),
            dists@.len() == poly@.len(),
            p == within_limit(dists@, limit),
            f == (|i: int|
                ContactPoint {
                    point: poly@[i].point,
                    depth: dists@[i].neg_spec(),
                    feature: poly@[i].feature,
                }),
            r@ == indices_where(p, i as nat).map_values(f),
        decreases poly@.len() - i,
    {
        if dists[i].le(limit) {
            r.push(
                ContactPoint {
                    point: poly[i].point,
                    depth: dists[i].neg(),
                    feature: poly[i].feature,
                },
            );
            assert(p(i as int));
            assert(r@ =~= indices_where(p, (i + 1) as nat).map_values(f));
        } else {
            assert(!p(i as int));
        }
        i += 1;
    }
    r
}

} // verus!
