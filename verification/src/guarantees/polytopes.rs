//! What polytopes and the separating-axis test promise.

use crate::contact::ContactPoint;
use crate::poly_pair::{
    axes_of, axes_tested, axis_tested, clip, clip_gives, crossed, faces_meet, place, sat, somes,
    ClipArith,
};
use crate::polytope::{
    box_face_corner, box_sign, edges_below, face_normal_of, fans_below, plane_scan, poly_key,
    prism_start, ring_size, rot_fp, ConvexPolytope, PolyCache, WorldPoly,
};
use crate::sat::{
    clip_by_side_plane, clipped, clipped_contacts, collect_incident, contribution, gap,
    reference_side, sat_scan, select_incident_face, select_ref_face, AxisGap, AxisSrc, AxisTest,
    ClipSide, ClipVertex, SatHit,
};
use crate::scalar::{Quat, Scalar, Vec3};
use crate::select::{indices_where, lemma_indices_where};
use crate::shape::Shape;
use vstd::prelude::*;

verus! {

/// The coordinate of a point along axis 0, 1 or 2.
pub open spec fn along(p: Vec3, axis: int) -> Scalar {
    if axis == 0 {
        p.x
    } else if axis == 1 {
        p.y
    } else {
        p.z
    }
}

/// Every face of a box lies on its side of the box, its normal points outwards, and its
/// four corners go round it: neighbours differ along one axis, opposite ones along two.
#[verifier::spinoff_prover]
pub proof fn box_faces_bound_the_box(
    half: Vec3,
    dirs: Vec<Vec3>,
    p: ConvexPolytope,
    f: int,
    i: int,
)
    requires
        call_ensures(ConvexPolytope::box_polytope, (half, dirs), p),
        0 <= f < 6,
        0 <= i < 4,
    ensures
        p.verts@.len() == 24,
        p.face_normal@.len() == 6,
        p.face_start@.len() == 7,
        p.face_start@[f] == 4 * f,
        p.face_start@[6] == 24,
        p.edge_dirs@ == dirs@,
        ({
            let n = p.face_normal@[f];
            let v = p.verts@[4 * f + i];
            let axis = f / 2;
            let out: Scalar = if f % 2 == 0 {
                along(half, axis)
            } else {
                along(half, axis).neg_spec()
            };
            &&& along(v, axis) == out
            &&& along(n, axis).bits == if f % 2 == 0 {
                0x3f80_0000u32
            } else {
                0xbf80_0000u32
            }
            &&& forall|b: int|
                0 <= b < 3 && b != axis ==> #[trigger] along(n, b).magnitude() == 0
            &&& forall|b: int|
                0 <= b < 3 ==> (#[trigger] along(v, b) == along(half, b) || along(v, b) == along(
                    half,
                    b,
                ).neg_spec())
        }),
{
    assert((4 * f + i) / 4 == f && (4 * f + i) % 4 == i);
    assert(f == 0 || f == 1 || f == 2 || f == 3 || f == 4 || f == 5);
    assert(i == 0 || i == 1 || i == 2 || i == 3);
}

/// The four corners of a box face are different, and all eight corners are named by
/// their signs; the corner of a face is on the face's side.
pub proof fn box_corners_are_told_apart(
    face: usize,
    i: usize,
    j: usize,
    c: u32,
    d: u32,
    s: (i8, i8, i8),
)
    requires
        face < 6,
        i < 4,
        j < 4,
        call_ensures(box_face_corner, (face, i), c),
        call_ensures(box_face_corner, (face, j), d),
        call_ensures(box_sign, (face, i), s),
    ensures
        c < 8,
        c == d ==> i == j,
        s.0 == 1 || s.0 == -1,
        s.0 == 1 <==> c % 2 == 1,
        s.1 == 1 <==> (c / 2) % 2 == 1,
        s.2 == 1 <==> c >= 4,
        face == 0 ==> s.0 == 1,
        face == 1 ==> s.0 == -1,
        face == 2 ==> s.1 == 1,
        face == 3 ==> s.1 == -1,
        face == 4 ==> s.2 == 1,
        face == 5 ==> s.2 == -1,
{
}

/// A ring has at least eight points.
pub proof fn rings_have_eight_points(segments: u32, n: u32)
    requires
        call_ensures(ring_size, (segments,), n),
    ensures
        n >= 8,
        segments >= 8 ==> n == segments,
        segments < 8 ==> n == 8,
{
}

/// A prism has the bottom ring in order, the top ring the other way round from the same
/// first point, and between them one quad for each side.
pub proof fn prisms_have_their_rings_and_sides(
    bottom: &Vec<Vec3>,
    top: &Vec<Vec3>,
    normals: Vec<Vec3>,
    dirs: Vec<Vec3>,
    p: ConvexPolytope,
    i: int,
)
    requires
        bottom@.len() == top@.len(),
        bottom@.len() > 0,
        6 * bottom@.len() <= u32::MAX,
        call_ensures(ConvexPolytope::cylinder_polytope, (bottom, top, normals, dirs), p),
        0 <= i < bottom@.len(),
    ensures
        ({
            let n = bottom@.len() as int;
            let next: int = if i == n - 1 {
                0
            } else {
                i + 1
            };
            let side = 2 * n + 4 * i;
            &&& p.verts@.len() == 6 * n
            &&& p.face_normal@ == normals@
            &&& p.edge_dirs@ == dirs@
            &&& p.face_start@[0] == 0
            &&& p.face_start@[1] == n
            &&& p.face_start@[2 + i] == side
            &&& p.face_start@[n + 2] == 6 * n
            &&& p.verts@[i] == bottom@[i]
            &&& p.verts@[n] == top@[0]
            &&& i > 0 ==> p.verts@[2 * n - i] == top@[i]
            &&& p.verts@[side] == bottom@[i]
            &&& p.verts@[side + 1] == top@[i]
            &&& p.verts@[side + 2] == top@[next]
            &&& p.verts@[side + 3] == bottom@[next]
        }),
{
    let n = bottom@.len() as int;
    let side = 2 * n + 4 * i;
    assert((side - 2 * n) / 4 == i && (side - 2 * n) % 4 == 0);
    assert((side + 1 - 2 * n) / 4 == i && (side + 1 - 2 * n) % 4 == 1);
    assert((side + 2 - 2 * n) / 4 == i && (side + 2 - 2 * n) % 4 == 2);
    assert((side + 3 - 2 * n) / 4 == i && (side + 3 - 2 * n) % 4 == 3);
}

proof fn lemma_edge_count(p: &ConvexPolytope, f: int)
    requires
        p.wf(),
        0 <= f <= p.face_normal@.len(),
    ensures
        edges_below(p.face_start@, f).len() == p.face_start@[f],
    decreases f,
{
    if f > 0 {
        lemma_edge_count(p, f - 1);
        assert(p.face_start@[f - 1] <= p.face_start@[f - 1 + 1]);
    }
}

proof fn lemma_edge(p: &ConvexPolytope, f: int, g: int, v: int)
    requires
        p.wf(),
        0 <= g < f <= p.face_normal@.len(),
        p.face_start@[g] <= v < p.face_start@[g + 1],
    ensures
        v < edges_below(p.face_start@, f).len(),
        edges_below(p.face_start@, f)[v].0 == v,
        edges_below(p.face_start@, f)[v].1 == if v + 1 == p.face_start@[g + 1] {
            p.face_start@[g] as int
        } else {
            v + 1
        },
    decreases f,
{
    let before = edges_below(p.face_start@, f - 1);
    let all = edges_below(p.face_start@, f);
    lemma_edge_count(p, f - 1);
    lemma_edge_count(p, f);
    lemma_starts(p, g + 1, f);
    if g < f - 1 {
        lemma_edge(p, f - 1, g, v);
        assert(all[v] == before[v]);
    } else {
        assert(v >= before.len());
    }
}

proof fn lemma_starts(p: &ConvexPolytope, g: int, h: int)
    requires
        p.wf(),
        0 <= g <= h <= p.face_normal@.len(),
    ensures
        p.face_start@[g] <= p.face_start@[h],
    decreases h - g,
{
    if g < h {
        lemma_starts(p, g, h - 1);
        assert(p.face_start@[h - 1] <= p.face_start@[h - 1 + 1]);
    }
}

/// The edges go round every face: from each vertex to the next, and from the last back to
/// the first.
pub proof fn edges_go_round_the_faces(p: &ConvexPolytope, r: Vec<(usize, usize)>, f: int, v: int)
    requires
        p.wf(),
        call_ensures(ConvexPolytope::edges, (p,), r),
        0 <= f < p.face_normal@.len(),
        p.face_start@[f] <= v < p.face_start@[f + 1],
    ensures
        r@.len() == p.verts@.len(),
        r@[v].0 == v,
        r@[v].1 == if v + 1 == p.face_start@[f + 1] {
            p.face_start@[f] as int
        } else {
            v + 1
        },
{
    let n = p.face_normal@.len() as int;
    lemma_edge(p, n, f, v);
    lemma_edge_count(p, n);
    let all = edges_below(p.face_start@, n);
    let wide = r@.map_values(|e: (usize, usize)| (e.0 as int, e.1 as int));
    assert(wide == all);
    assert(wide[v] == all[v]);
}

/// The triangle fans out from the first vertex of face `f` to two neighbours after it.
pub open spec fn fans_over(starts: Seq<u32>, f: int, t: (int, int, int)) -> bool {
    &&& t.0 == starts[f]
    &&& t.0 < t.1
    &&& t.2 == t.1 + 1
    &&& t.2 < starts[f + 1]
}

proof fn lemma_fans(starts: Seq<u32>, f: int, t: (int, int, int))
    requires
        0 <= f < starts.len(),
    ensures
        fans_below(starts, f).contains(t) <==> exists|g: int|
            0 <= g < f && #[trigger] fans_over(starts, g, t),
    decreases f,
{
    if f > 0 {
        lemma_fans(starts, f - 1, t);
        let before = fans_below(starts, f - 1);
        let all = fans_below(starts, f);
        let s = starts[f - 1] as int;
        let e = starts[f] as int;
        let here = Seq::new(
            (if e - s >= 3 {
                e - s - 2
            } else {
                0
            }) as nat,
            |i: int| (s, s + 1 + i, s + 2 + i),
        );
        assert(all == before + here);
        if all.contains(t) {
            let i = choose|i: int| 0 <= i < all.len() && all[i] == t;
            if i < before.len() {
                assert(before[i] == t);
                assert(before.contains(t));
            } else {
                assert(here[i - before.len()] == t);
                assert(fans_over(starts, f - 1, t));
            }
        }
        if exists|g: int| 0 <= g < f && #[trigger] fans_over(starts, g, t) {
            let g = choose|g: int| 0 <= g < f && #[trigger] fans_over(starts, g, t);
            if g < f - 1 {
                assert(before.contains(t));
                let i = choose|i: int| 0 <= i < before.len() && before[i] == t;
                assert(all[i] == t);
            } else {
                let i = t.1 - s - 1;
                assert(here[i] == t);
                assert(all[before.len() + i] == t);
            }
        }
    }
}

/// The triangles of a polytope fan out from the first vertex of every face to each two
/// neighbours after it.
pub proof fn triangles_fan_out_over_the_faces(
    p: &ConvexPolytope,
    r: Vec<(usize, usize, usize)>,
    a: usize,
    b: usize,
    c: usize,
)
    requires
        p.wf(),
        call_ensures(ConvexPolytope::fan_triangles, (p,), r),
    ensures
        r@.contains((a, b, c)) <==> exists|f: int|
            0 <= f < p.face_normal@.len() && #[trigger] fans_over(
                p.face_start@,
                f,
                (a as int, b as int, c as int),
            ),
{
    let n = p.face_normal@.len() as int;
    lemma_fans(p.face_start@, n, (a as int, b as int, c as int));
    let wide = r@.map_values(
        |t: (usize, usize, usize)| (t.0 as int, t.1 as int, t.2 as int),
    );
    let all = fans_below(p.face_start@, n);
    assert(wide == all);
    if r@.contains((a, b, c)) {
        let i = choose|i: int| 0 <= i < r@.len() && r@[i] == (a, b, c);
        assert(wide[i] == (a as int, b as int, c as int));
    }
    if all.contains((a as int, b as int, c as int)) {
        let i = choose|i: int| 0 <= i < wide.len() && wide[i] == (a as int, b as int, c as int);
        assert(r@[i] == (a, b, c));
    }
}

/// A place is inside exactly if it is beyond no face; the face to leave by is the first
/// of the closest among those that it is not beyond.
pub proof fn the_closest_face_bounds_a_place(
    dists: &[Scalar],
    r: (bool, Option<usize>),
    f: int,
)
    requires
        call_ensures(plane_scan, (dists,), r),
        0 <= f < dists@.len(),
    ensures
        r.0 ==> !(0 < dists@[f].bits <= 0x7f80_0000),
        !r.0 ==> exists|g: int|
            0 <= g < dists@.len() && 0 < (#[trigger] dists@[g]).bits <= 0x7f80_0000,
        !(0 < dists@[f].bits <= 0x7f80_0000) && dists@[f].is_finite_spec() && dists@[f].bits
            != 0xff7f_ffff ==> r.1 is Some && dists@[f].le_spec(dists@[r.1.unwrap() as int]) && (f
            < r.1.unwrap() ==> dists@[f].lt_spec(dists@[r.1.unwrap() as int])),
        r.1 is Some ==> r.1.unwrap() < dists@.len() && !(0 < dists@[r.1.unwrap() as int].bits
            <= 0x7f80_0000),
{
    assert(dists@[f] == dists@[f]);
    let p = crate::polytope::not_outside(dists@);
    assert(p(f) == !Scalar::zero_spec().lt_spec(dists@[f]));
    if !r.0 {
        let g = choose|g: int|
            0 <= g < dists@.len() && Scalar::zero_spec().lt_spec(#[trigger] dists@[g]);
        assert(0 < dists@[g].bits <= 0x7f80_0000);
    }
    if let Some(k) = r.1 {
        assert(p(k as int) == !Scalar::zero_spec().lt_spec(dists@[k as int]));
    }
}

/// A polytope in the world has every vertex placed and every normal and edge direction
/// turned, in order, with the same faces.
pub proof fn polytopes_are_placed_whole<P: Fn(Vec3) -> Vec3, T: Fn(Vec3) -> Vec3>(
    world: &mut WorldPoly,
    poly: &ConvexPolytope,
    put: P,
    turn: T,
    i: int,
)
    requires
        call_ensures(WorldPoly::fill::<P, T>, (world, poly, put, turn), ()),
    ensures
        final(world).verts@.len() == poly.verts@.len(),
        final(world).face_normal@.len() == poly.face_normal@.len(),
        final(world).edge_dirs@.len() == poly.edge_dirs@.len(),
        final(world).face_start@ == poly.face_start@,
        0 <= i < poly.verts@.len() ==> put.ensures((poly.verts@[i],), final(world).verts@[i]),
        0 <= i < poly.face_normal@.len() ==> turn.ensures(
            (poly.face_normal@[i],),
            final(world).face_normal@[i],
        ),
        0 <= i < poly.edge_dirs@.len() ==> turn.ensures(
            (poly.edge_dirs@[i],),
            final(world).edge_dirs@[i],
        ),
{
}

/// A shape without flat faces has no polytope. One that was cached is handed out again
/// and nothing changes; one that was not is made from the shape and goes last.
pub proof fn polytopes_are_made_once<F: Fn(Shape) -> ConvexPolytope>(
    cache: &mut PolyCache,
    shape: &Shape,
    make: F,
    r: Option<usize>,
    again: &mut PolyCache,
    s: Option<usize>,
)
    requires
        old(cache).wf(),
        call_ensures(PolyCache::poly_for::<F>, (cache, shape, make), r),
        *old(again) == *final(cache),
        call_ensures(PolyCache::poly_for::<F>, (again, shape, make), s),
    ensures
        !(shape is Box || shape is Cylinder || shape is Cone) ==> r is None,
        r is None ==> *final(cache) == *old(cache),
        s == r,
        final(again).polys@ == final(cache).polys@,
        r is Some ==> r.unwrap() < final(cache).polys@.len(),
        r is Some && final(cache).polys@.len() != old(cache).polys@.len() ==> final(cache).polys@.len() == old(cache).polys@.len() + 1 && r.unwrap() == old(cache).polys@.len() && make.ensures((*shape,), final(cache).polys@[r.unwrap() as int]),
        forall|i: int|
            0 <= i < old(cache).polys@.len() ==> #[trigger] final(cache).polys@[i] == old(cache).polys@[i],
{
    if r is Some && final(cache).polys@.len() != old(cache).polys@.len() {
        assert forall|i: int| 0 <= i < old(cache).polys@.len() implies #[trigger] final(cache).polys@[i] == old(cache).polys@[i] by {
            assert(final(cache).polys@.drop_last()[i] == old(cache).polys@[i]);
        }
    }
}

/// How far two shapes are apart along a tested axis: the larger of the two gaps.
pub open spec fn wider(t: AxisTest) -> int {
    if t.ahead.rank() < t.behind.rank() {
        t.behind.rank()
    } else {
        t.ahead.rank()
    }
}

/// The axis was tested and gave numbers.
pub open spec fn counts(t: AxisTest) -> bool {
    !t.degenerate && !t.ahead.is_nan_spec() && !t.behind.is_nan_spec()
}

/// Shapes touch exactly if along no axis they are farther apart than the skin; the axis
/// that decides is the first along which they are farthest apart, turned towards the
/// second shape, and it is known where it came from.
pub proof fn the_widest_axis_decides(
    tests: &[AxisTest],
    faces_a: usize,
    faces_b: usize,
    skin: Scalar,
    r: Option<SatHit>,
    j: int,
)
    requires
        faces_a + faces_b <= usize::MAX,
        call_ensures(sat_scan, (tests, faces_a, faces_b, skin), r),
        !skin.is_nan_spec(),
        forall|i: int|
            0 <= i < tests@.len() ==> #[trigger] tests@[i].degenerate || counts(tests@[i]),
        0 <= j < tests@.len(),
        counts(tests@[j]),
        wider(tests@[j]) > -0x7f7f_ffff,
    ensures
        wider(tests@[j]) > skin.rank() ==> r is None,
        r is None ==> exists|i: int|
            0 <= i < tests@.len() && counts(#[trigger] tests@[i]) && wider(tests@[i]) > skin.rank(),
        r is Some ==> {
            let h = r.unwrap();
            let t = tests@[h.index as int];
            &&& h.index < tests@.len()
            &&& counts(t)
            &&& wider(tests@[j]) <= wider(t)
            &&& j < h.index ==> wider(tests@[j]) < wider(t)
            &&& h.sep.rank() == wider(t)
            &&& h.normal == if t.behind.rank() <= t.ahead.rank() {
                t.axis
            } else {
                t.axis.neg_spec()
            }
            &&& h.src == if h.index < faces_a {
                AxisSrc::FaceA
            } else if h.index < faces_a + faces_b {
                AxisSrc::FaceB
            } else {
                AxisSrc::Edge
            }
        },
{
    assert(tests@[j].degenerate || counts(tests@[j]));
    assert(gap(tests@[j]).rank() == wider(tests@[j]));
    match r {
        Some(h) => {
            let t = tests@[h.index as int];
            assert(t.degenerate || counts(t));
        },
        None => {
            if crate::sat::separated(tests@, skin) {
                let i = choose|i: int|
                    0 <= i < tests@.len() && !(#[trigger] tests@[i]).degenerate && skin.lt_spec(
                        gap(tests@[i]),
                    );
                assert(tests@[i].degenerate || counts(tests@[i]));
            } else {
                assert(!crate::sat::least_finite_spec().lt_spec(gap(tests@[j])));
            }
        },
    }
}

/// The second shape gives the reference face exactly if the axis is one of its faces, and
/// then the direction is turned round.
pub proof fn faces_of_the_second_shape_turn_round(src: AxisSrc, normal: Vec3, r: (bool, Vec3))
    requires
        call_ensures(reference_side, (src, normal), r),
    ensures
        r.0 <==> src != AxisSrc::FaceB,
        r.0 ==> r.1 == normal,
        !r.0 ==> r.1 == normal.neg_spec(),
{
}

/// The reference face is the first of the most aligned ones, the incident face the first
/// of the most opposed ones.
pub proof fn faces_are_chosen_by_alignment(dots: &[Scalar], k: usize, m: usize, j: int)
    requires
        call_ensures(select_ref_face, (dots,), k),
        call_ensures(select_incident_face, (dots,), m),
        0 <= j < dots@.len(),
        dots@[j].is_finite_spec(),
        dots@[j].bits != 0xff7f_ffff,
        dots@[j].bits != 0x7f7f_ffff,
    ensures
        k < dots@.len(),
        m < dots@.len(),
        dots@[j].le_spec(dots@[k as int]),
        dots@[m as int].le_spec(dots@[j]),
        j < k ==> dots@[j].lt_spec(dots@[k as int]),
        j < m ==> dots@[m as int].lt_spec(dots@[j]),
{
    assert(dots@[j] == dots@[j]);
}

/// The incident ring has the points of the face in order, each named by its number, and
/// marked if it is on the second body.
pub proof fn incident_points_are_named(
    points: &[Vec3],
    base: u32,
    ref_is_a: bool,
    r: Vec<ClipVertex>,
    i: int,
)
    requires
        base + points@.len() <= u32::MAX,
        call_ensures(collect_incident, (points, base, ref_is_a), r),
        0 <= i < points@.len(),
    ensures
        r@.len() == points@.len(),
        r@[i].point == points@[i],
        base + i < 0x8000_0000 ==> r@[i].feature == base + i + if ref_is_a {
            0x8000_0000int
        } else {
            0
        },
{
    let k = (base + i) as u32;
    assert(k < 0x8000_0000 ==> (0x8000_0000u32 | k) == k + 0x8000_0000) by (bit_vector);
    assert((0u32 | k) == k) by (bit_vector);
}

/// What vertex `i` of a ring leaves after a plane cut it: itself unless it is beyond, and
/// the cut towards the next vertex if the plane crosses there.
pub open spec fn left_of(
    poly: Seq<ClipVertex>,
    sides: Seq<ClipSide>,
    plane: u32,
    i: int,
) -> Seq<ClipVertex> {
    let next = if i + 1 == poly.len() {
        poly[0]
    } else {
        poly[i + 1]
    };
    let own = if sides[i].dist.le_spec(Scalar { bits: 0 }) {
        seq![poly[i]]
    } else {
        seq![]
    };
    let cut = if sides[i].crosses {
        seq![ClipVertex {
            point: sides[i].cut,
            feature: crate::feature::feat_intersect_spec(poly[i].feature, next.feature, plane),
        }]
    } else {
        seq![]
    };
    own + cut
}

proof fn lemma_clipped(poly: Seq<ClipVertex>, sides: Seq<ClipSide>, plane: u32, n: int)
    requires
        0 <= n <= poly.len(),
        sides.len() == poly.len(),
    ensures
        clipped(poly, sides, plane, n) == Seq::new(
            n as nat,
            |i: int| left_of(poly, sides, plane, i),
        ).flatten(),
    decreases n,
{
    if n > 0 {
        lemma_clipped(poly, sides, plane, n - 1);
        let f = |i: int| left_of(poly, sides, plane, i);
        let before = Seq::new((n - 1) as nat, f);
        let i = n - 1;
        if i + 1 == poly.len() {
            assert((i + 1) % (poly.len() as int) == 0);
        } else {
            vstd::arithmetic::div_mod::lemma_small_mod((i + 1) as nat, poly.len());
            assert((i + 1) % (poly.len() as int) == i + 1);
        }
        assert(contribution(poly, sides, plane, i) =~= left_of(poly, sides, plane, i));
        before.lemma_flatten_push(f(i));
        assert(Seq::new(n as nat, f) =~= before.push(f(i)));
    }
}

/// Cutting a ring by a plane leaves, in order, every vertex that is not beyond it and a
/// new vertex wherever the ring crosses it.
pub proof fn cutting_keeps_what_is_not_beyond(
    poly: &[ClipVertex],
    sides: &[ClipSide],
    plane: u32,
    r: Vec<ClipVertex>,
)
    requires
        sides@.len() == poly@.len(),
        call_ensures(clip_by_side_plane, (poly, sides, plane), r),
    ensures
        r@ == Seq::new(poly@.len(), |i: int| left_of(poly@, sides@, plane, i)).flatten(),
{
    lemma_clipped(poly@, sides@, plane, poly@.len() as int);
}

/// Of a cut ring exactly the vertices no higher than the limit become contacts, in order,
/// as deep as they are below.
pub proof fn low_vertices_become_contacts(
    poly: &[ClipVertex],
    dists: &[Scalar],
    limit: Scalar,
    r: Vec<ContactPoint>,
)
    requires
        dists@.len() == poly@.len(),
        call_ensures(clipped_contacts, (poly, dists, limit), r),
    ensures
        exists|from: Seq<int>|
            #![trigger from.len()]
            {
                &&& from.len() == r@.len()
                &&& forall|x: int, y: int|
                    #![trigger from[x], from[y]]
                    0 <= x < y < from.len() ==> from[x] < from[y]
                &&& forall|x: int|
                    #![trigger from[x]]
                    0 <= x < from.len() ==> 0 <= from[x] < poly@.len() && r@[x].point
                        == poly@[from[x]].point && r@[x].depth == dists@[from[x]].neg_spec()
                        && r@[x].feature == poly@[from[x]].feature
                &&& forall|i: int|
                    #![trigger dists@[i]]
                    0 <= i < poly@.len() ==> (from.contains(i) <==> dists@[i].le_spec(limit))
            },
{
    let p = crate::sat::within_limit(dists@, limit);
    let from = indices_where(p, poly@.len());
    lemma_indices_where(p, poly@.len());
    assert(from.len() == r@.len());
    assert forall|i: int| #![trigger dists@[i]] 0 <= i < poly@.len() implies (from.contains(i)
        <==> dists@[i].le_spec(limit)) by {
        crate::select::lemma_indices_where_contains(p, poly@.len(), i);
        assert(p(i) == dists@[i].le_spec(limit));
    }
}

proof fn lemma_somes(s: Seq<Option<Vec3>>, k: int) -> (x: int)
    requires
        0 <= k < s.len(),
        s[k] is Some,
    ensures
        0 <= x < somes(s).len(),
        somes(s)[x] == s[k].unwrap(),
    decreases s.len(),
{
    if k == s.len() - 1 {
        somes(s).len() - 1
    } else {
        let x = lemma_somes(s.drop_last(), k);
        assert(s.drop_last()[k] == s[k]);
        x
    }
}

/// The two shapes are compared along an axis and found no farther apart than the skin.
pub open spec fn compared<T: Fn(Vec3) -> AxisGap>(test: T, axis: Vec3, skin: Scalar) -> bool {
    exists|g: AxisGap| #[trigger]
        test.ensures((axis,), g) && (g.degenerate || !(skin.lt_spec(g.ahead) && g.behind.le_spec(
            g.ahead,
        )))
}

/// Two polytopes touch only if every axis was tested and showed no gap wider than the
/// skin: every face normal of both, and the crossing of every two edge directions that
/// have one.
pub proof fn every_axis_is_tested<C: Fn(Vec3, Vec3) -> Option<Vec3>, T: Fn(Vec3) -> AxisGap>(
    a: &WorldPoly,
    b: &WorldPoly,
    cross: &C,
    test: &T,
    skin: Scalar,
    r: Option<SatHit>,
    i: int,
    j: int,
)
    requires
        call_ensures(sat::<C, T>, (a, b, cross, test, skin), r),
        r is Some,
    ensures
        0 <= i < a.face_normal@.len() ==> compared(*test, a.face_normal@[i], skin),
        0 <= j < b.face_normal@.len() ==> compared(*test, b.face_normal@[j], skin),
        0 <= i < a.edge_dirs@.len() && 0 <= j < b.edge_dirs@.len() ==> exists|o: Option<Vec3>|
            #[trigger] cross.ensures((a.edge_dirs@[i], b.edge_dirs@[j]), o) && (o is Some
                ==> compared(*test, o.unwrap(), skin)),
{
    let (crosses, tests) = choose|crosses: Seq<Option<Vec3>>, tests: Seq<AxisTest>|
        {
            &&& #[trigger] crossed(*cross, a.edge_dirs@, b.edge_dirs@, crosses)
            &&& #[trigger] axes_tested(*test, axes_of(a, b, crosses), tests)
            &&& crate::poly_pair::sat_says(
                tests,
                a.face_normal@.len() as int,
                b.face_normal@.len() as int,
                skin,
                r,
            )
        };
    let axes = axes_of(a, b, crosses);
    let (na, nb) = (a.face_normal@.len() as int, b.face_normal@.len() as int);
    if 0 <= i < na {
        lemma_compared(*test, axes, tests, skin, i);
        assert(axes[i] == a.face_normal@[i]);
    }
    if 0 <= j < nb {
        lemma_compared(*test, axes, tests, skin, na + j);
        assert(axes[na + j] == b.face_normal@[j]);
    }
    if 0 <= i < a.edge_dirs@.len() && 0 <= j < b.edge_dirs@.len() {
        let n = b.edge_dirs@.len() as int;
        let k = place(i, j, n);
        assert(0 <= i * n + j < a.edge_dirs@.len() * n) by (nonlinear_arith)
            requires
                0 <= i < a.edge_dirs@.len(),
                0 <= j < n,
        ;
        assert(cross.ensures((a.edge_dirs@[i], b.edge_dirs@[j]), crosses[k]));
        if crosses[k] is Some {
            let x = lemma_somes(crosses, k);
            lemma_compared(*test, axes, tests, skin, na + nb + x);
            assert(axes[na + nb + x] == somes(crosses)[x]);
        }
    }
}

proof fn lemma_compared<T: Fn(Vec3) -> AxisGap>(
    test: T,
    axes: Seq<Vec3>,
    tests: Seq<AxisTest>,
    skin: Scalar,
    k: int,
)
    requires
        axes_tested(test, axes, tests),
        !crate::sat::separated(tests, skin),
        0 <= k < axes.len(),
    ensures
        compared(test, axes[k], skin),
{
    assert(axis_tested(test, axes[k], tests[k]));
    let g = choose|g: AxisGap| #[trigger]
        test.ensures((axes[k],), g) && tests[k] == AxisTest::of(axes[k], g);
    assert(tests[k].degenerate || !skin.lt_spec(gap(tests[k])));
}

} // verus!
