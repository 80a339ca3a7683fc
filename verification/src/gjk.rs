//! The simplex of a distance query and how it shrinks to the part nearest the
//! origin.

use crate::scalar::{Scalar, Vec3};
use crate::select::{
    find_first_least, first_least, flagged, indices_where, lemma_indices_where, none_below,
};
use vstd::prelude::*;

verus! {

/// A vertex of the simplex: the difference of two support points, and the points.
#[derive(Clone, Copy, Debug, PartialEq, Eq, Structural)]
pub struct SimplexVertex {
    pub w: Vec3,
    pub a: Vec3,
    pub b: Vec3,
}

/// What a query finds.
#[derive(Clone, Copy, Debug, PartialEq, Eq, Structural)]
pub enum Gjk {
    /// The solids are apart: their nearest points and the distance.
    Separated { point_a: Vec3, point_b: Vec3, dist: Scalar },
    Intersecting,
}

/// How many rounds a query runs at most.
pub const GJK_ROUNDS: u32 = 32;

/// What a round of the query tells.
#[derive(Clone, Copy, Debug, PartialEq, Eq, Structural)]
pub enum GjkStep {
    /// The simplex holds the origin: the solids intersect.
    Intersecting,
    /// No closer than before: the solids are apart.
    Converged,
    /// Closer than before: go on.
    Closer,
}

/// A squared distance below this counts as zero.
pub open spec fn touching_spec() -> Scalar {
    Scalar { bits: 0x2b8c_bccc }
}

/// The judgement of a round.
pub open spec fn gjk_step_spec(d2: Scalar, prev: Scalar) -> GjkStep {
    if d2.lt_spec(touching_spec()) {
        GjkStep::Intersecting
    } else if prev.le_spec(d2) {
        GjkStep::Converged
    } else {
        GjkStep::Closer
    }
}

/// Judges a round by the squared distance of the simplex from the origin, now and
/// before.
pub fn gjk_step(d2: Scalar, prev: Scalar) -> (r: GjkStep)
    ensures
        r == gjk_step_spec(d2, prev),
{
    if d2.lt(Scalar { bits: 0x2b8c_bccc }) {
        GjkStep::Intersecting
    } else if prev.le(d2) {
        GjkStep::Converged
    } else {
        GjkStep::Closer
    }
}

/// The simplex with the vertex, if there is room for it.
pub open spec fn extended(s: Seq<SimplexVertex>, v: SimplexVertex) -> Seq<SimplexVertex> {
    if s.len() < 4 {
        s.push(v)
    } else {
        s
    }
}

/// Adds a vertex to a simplex that has room for it.
pub fn extend_simplex(s: &mut Vec<SimplexVertex>, v: SimplexVertex)
    ensures
        final(s)@ == extended(old(s)@, v),
{
    if s.len() < 4 {
        s.push(v);
    }
}

/// The weights above zero.
pub open spec fn weighted(bary: Seq<Scalar>) -> spec_fn(int) -> bool {
    |i: int| Scalar::zero_spec().lt_spec(bary[i])
}

/// The vertices with a positive weight, in order.
pub open spec fn carriers(s: Seq<SimplexVertex>, bary: Seq<Scalar>) -> Seq<SimplexVertex> {
    indices_where(weighted(bary), s.len()).map_values(|i: int| s[i])
}

/// The positive weights of the first `n` vertices, in order, and zeros up to four.
pub open spec fn carried(bary: Seq<Scalar>, n: nat) -> Seq<Scalar> {
    let kept = indices_where(weighted(bary), n);
    Seq::new(4, |i: int| if i < kept.len() { bary[kept[i]] } else { Scalar::zero_spec() })
}

/// Shrinks a simplex to the vertices with a positive weight, in order, and returns
/// their weights.
pub fn rebuild(s: &mut Vec<SimplexVertex>, bary: &[Scalar; 4]) -> (r: [Scalar; 4])
    requires
        old(s)@.len() <= 4,
    ensures
        final(s)@ == carriers(old(s)@, bary@),
        r@ == carried(bary@, old(s)@.len()),
{
    let ghost p = weighted(bary@);
    let ghost before = s@;
    let ghost f = |i: int| before[i];
    let zero = Scalar::zero();
    let mut r: Vec<SimplexVertex> = Vec::new();
    let mut weights: [Scalar; 4] = [zero, zero, zero, zero];
    let mut i: usize = 0;
    assert(r@ =~= indices_where(p, 0).map_values(f));
    while i < s.len()
        invariant
            i <= s@.len(),
            s@ == before,
            before.len() <= 4,
            p == weighted(bary@),
            f == (|i: int| before[i]),
            r@ == indices_where(p, i as nat).map_values(f),
            r@.len() <= i,
            weights@ == carried(bary@, i as nat),
        decreases s@.len() - i,
    {
        if Scalar::zero().lt(bary[i]) {
            weights[r.len()] = bary[i];
            r.push(s[i]);
            assert(p(i as int));
            assert(r@ =~= indices_where(p, (i + 1) as nat).map_values(f));
        } else {
            assert(!p(i as int));
        }
        i += 1;
        assert(weights@ =~= carried(bary@, i as nat));
    }
    *s = r;
    weights
}

/// The edges of a triangle: two vertices and the third one.
pub open spec fn triangle_edge(e: int) -> (int, int, int) {
    if e == 0 {
        (0, 1, 2)
    } else if e == 1 {
        (0, 2, 1)
    } else {
        (1, 2, 0)
    }
}

/// The edges of a triangle.
pub fn triangle_edges(e: usize) -> (r: (usize, usize, usize))
    requires
        e < 3,
    ensures
        (r.0 as int, r.1 as int, r.2 as int) == triangle_edge(e as int),
{
    if e == 0 {
        (0, 1, 2)
    } else if e == 1 {
        (0, 2, 1)
    } else {
        (1, 2, 0)
    }
}

/// The edge of a triangle nearest the origin, among those that the origin lies
/// outside of: the first of the nearest.
pub fn nearest_outer_edge(outside: &[bool; 3], dist: &[Scalar; 3]) -> (r: Option<usize>)
    ensures
        match r {
            Some(k) => first_least(
                dist@,
                flagged(outside@),
                Scalar { bits: 0x7f80_0000 },
                k as int,
            ),
            None => none_below(dist@, flagged(outside@), Scalar { bits: 0x7f80_0000 }),
        },
{
    find_first_least(dist.as_slice(), outside.as_slice(), Scalar { bits: 0x7f80_0000 })
}

/// The faces of a tetrahedron: three vertices and the fourth one.
pub open spec fn tetra_face(f: int) -> Seq<int> {
    if f == 0 {
        seq![0int, 1, 2, 3]
    } else if f == 1 {
        seq![0int, 3, 1, 2]
    } else if f == 2 {
        seq![0int, 2, 3, 1]
    } else {
        seq![1int, 3, 2, 0]
    }
}

/// Every face of the tetrahedron lists all four vertices, and every vertex is the
/// one left out once.
pub proof fn tetra_faces_are_complete(f: int, v: int)
    requires
        0 <= f < 4,
        0 <= v < 4,
    ensures
        tetra_face(f).len() == 4,
        tetra_face(f).contains(v),
        exists|g: int| 0 <= g < 4 && #[trigger] tetra_face(g)[3] == v,
{
    let s = tetra_face(f);
    assert(s[0] == v || s[1] == v || s[2] == v || s[3] == v);
    assert(tetra_face(0)[3] == 3);
    assert(tetra_face(1)[3] == 2);
    assert(tetra_face(2)[3] == 1);
    assert(tetra_face(3)[3] == 0);
}

/// The face nearest the origin among the first `n` that the origin lies outside of:
/// the first of the nearest.
pub open spec fn nearest_outer_face(outside: Seq<bool>, dist: Seq<Scalar>, n: int) -> Option<int>
    decreases n,
{
    if n <= 0 {
        None
    } else {
        let before = nearest_outer_face(outside, dist, n - 1);
        let closer = match before {
            Some(f) => dist[n - 1].lt_spec(dist[f]),
            None => true,
        };
        if outside[n - 1] && closer {
            Some(n - 1)
        } else {
            before
        }
    }
}

/// A face is found if the origin lies outside of any, and no other face that the
/// origin lies outside of is nearer.
pub proof fn outer_face_is_nearest(outside: Seq<bool>, dist: Seq<Scalar>, n: int)
    requires
        0 <= n,
        forall|i: int| 0 <= i < n ==> !(#[trigger] dist[i]).is_nan_spec(),
    ensures
        match nearest_outer_face(outside, dist, n) {
            Some(f) => {
                &&& 0 <= f < n
                &&& outside[f]
                &&& forall|g: int|
                    0 <= g < n && #[trigger] outside[g] ==> dist[f].le_spec(dist[g])
                &&& forall|g: int| 0 <= g < f && #[trigger] outside[g] ==> dist[f].lt_spec(dist[g])
            },
            None => forall|g: int| 0 <= g < n ==> !#[trigger] outside[g],
        },
    decreases n,
{
    if n > 0 {
        outer_face_is_nearest(outside, dist, n - 1);
        assert(!dist[n - 1].is_nan_spec());
        let f = nearest_outer_face(outside, dist, n - 1);
        if f is Some {
            assert(!dist[f->0].is_nan_spec());
        }
        assert forall|g: int| 0 <= g < n && #[trigger] outside[g] implies !dist[g].is_nan_spec() by {
            assert(!dist[g].is_nan_spec());
        }
    }
}

/// The point of a simplex nearest the origin, and the weights of the vertices that
/// make it up.
#[derive(Clone, Copy, Debug, PartialEq)]
pub struct Nearest {
    pub point: Vec3,
    pub bary: [Scalar; 4],
}

/// The point of a segment nearest the origin: its place, the point, and the weight
/// of the first end.
#[derive(Clone, Copy, Debug, PartialEq, Eq, Structural)]
pub struct Between {
    pub t: Scalar,
    pub point: Vec3,
    pub first: Scalar,
}

/// What an edge of a triangle tells: whether the origin lies outside of it, the
/// nearest point, its squared distance and the weights of the two ends.
#[derive(Clone, Copy, Debug, PartialEq, Eq, Structural)]
pub struct EdgeTest {
    pub outside: bool,
    pub dist2: Scalar,
    pub point: Vec3,
    pub first: Scalar,
    pub second: Scalar,
}

/// The point of the plane of a triangle nearest the origin, and the weights of the
/// vertices that make it up.
#[derive(Clone, Copy, Debug, PartialEq, Eq, Structural)]
pub struct PlanePoint {
    pub point: Vec3,
    pub first: Scalar,
    pub second: Scalar,
    pub third: Scalar,
}

/// The arithmetic of simplices: `along` measures a segment, `flat` tells whether a
/// triangle has no area, `edge` measures an edge of a triangle, `onto` its plane,
/// `beyond` tells whether the origin lies outside of a face, away from the fourth
/// vertex, and `measure` is the squared length of a vector.
pub struct SimplexArith<T, L, E, P, O, M> {
    pub along: T,
    pub flat: L,
    pub edge: E,
    pub onto: P,
    pub beyond: O,
    pub measure: M,
}

/// One.
pub open spec fn one_spec() -> Scalar {
    Scalar { bits: 0x3f80_0000 }
}

/// All weight on the first vertex.
pub open spec fn first_alone() -> Seq<Scalar> {
    seq![one_spec(), Scalar::zero_spec(), Scalar::zero_spec(), Scalar::zero_spec()]
}

/// The nearest point of a single vertex.
pub open spec fn vertex_nearest(s: Seq<SimplexVertex>, after: Seq<SimplexVertex>, r: Nearest) -> bool {
    after == s && r.point == s[0].w && r.bary@ == first_alone()
}

/// The nearest point of a segment, and what is left of it.
pub open spec fn segment_nearest(
    s: Seq<SimplexVertex>,
    b: Between,
    after: Seq<SimplexVertex>,
    r: Nearest,
) -> bool {
    if b.t.le_spec(Scalar::zero_spec()) {
        after == seq![s[0]] && r.point == s[0].w && r.bary@ == first_alone()
    } else if one_spec().le_spec(b.t) {
        after == seq![s[1]] && r.point == s[1].w && r.bary@ == first_alone()
    } else {
        &&& after == s
        &&& r.point == b.point
        &&& r.bary@ == seq![b.first, b.t, Scalar::zero_spec(), Scalar::zero_spec()]
    }
}

/// The weights of a point on an edge of a triangle.
pub open spec fn edge_bary(e: int, t: EdgeTest) -> Seq<Scalar> {
    let z = Scalar::zero_spec();
    if e == 0 {
        seq![t.first, t.second, z, z]
    } else if e == 1 {
        seq![t.first, z, t.second, z]
    } else {
        seq![z, t.first, t.second, z]
    }
}

/// Which edges the nearest point may lie on: those that the origin lies outside of,
/// and all of a triangle without area.
pub open spec fn outer(tests: Seq<EdgeTest>, flat: bool) -> spec_fn(int) -> bool {
    |e: int| flat || tests[e].outside
}

/// The squared distances of the edges.
pub open spec fn edge_dists(tests: Seq<EdgeTest>) -> Seq<Scalar> {
    tests.map_values(|t: EdgeTest| t.dist2)
}

/// The nearest point of a triangle, on its edge `e`: the ends that carry it are
/// left, with their weights.
pub open spec fn on_edge(
    s: Seq<SimplexVertex>,
    tests: Seq<EdgeTest>,
    e: int,
    after: Seq<SimplexVertex>,
    r: Nearest,
) -> bool {
    &&& r.point == tests[e].point
    &&& r.bary@ == carried(edge_bary(e, tests[e]), 3)
    &&& after == carriers(s, edge_bary(e, tests[e]))
}

/// The nearest point of a triangle inside of all its edges.
pub open spec fn on_plane(
    s: Seq<SimplexVertex>,
    p: PlanePoint,
    after: Seq<SimplexVertex>,
    r: Nearest,
) -> bool {
    &&& after == s
    &&& r.point == p.point
    &&& r.bary@ == seq![p.first, p.second, p.third, Scalar::zero_spec()]
}

/// The nearest point of a triangle: on the first of the nearest edges that it may
/// lie on, on the plane of the triangle if there is none.
pub open spec fn triangle_nearest<P: Fn(Vec3, Vec3, Vec3) -> PlanePoint>(
    onto: P,
    s: Seq<SimplexVertex>,
    flat: bool,
    tests: Seq<EdgeTest>,
    after: Seq<SimplexVertex>,
    r: Nearest,
) -> bool {
    let limit = Scalar { bits: 0x7f80_0000 };
    if none_below(edge_dists(tests), outer(tests, flat), limit) {
        exists|p: PlanePoint| #[trigger]
            onto.ensures((s[0].w, s[1].w, s[2].w), p) && on_plane(s, p, after, r)
    } else {
        exists|e: int| #[trigger]
            first_least(edge_dists(tests), outer(tests, flat), limit, e) && on_edge(
                s,
                tests,
                e,
                after,
                r,
            )
    }
}

/// The measurements of the edges of a triangle.
pub open spec fn edges_measured<E: Fn(Vec3, Vec3, Vec3, usize) -> EdgeTest>(
    edge: E,
    s: Seq<SimplexVertex>,
    tests: Seq<EdgeTest>,
) -> bool {
    &&& tests.len() == 3
    &&& forall|e: int|
        0 <= e < 3 ==> edge.ensures((s[0].w, s[1].w, s[2].w, e as usize), #[trigger] tests[e])
}

/// The nearest point of up to three vertices.
pub open spec fn small_nearest<
    T: Fn(Vec3, Vec3) -> Between,
    L: Fn(Vec3, Vec3, Vec3) -> bool,
    E: Fn(Vec3, Vec3, Vec3, usize) -> EdgeTest,
    P: Fn(Vec3, Vec3, Vec3) -> PlanePoint,
    O: Fn(Vec3, Vec3, Vec3, Vec3) -> bool,
    M: Fn(Vec3) -> Scalar,
>(
    k: SimplexArith<T, L, E, P, O, M>,
    s: Seq<SimplexVertex>,
    after: Seq<SimplexVertex>,
    r: Nearest,
) -> bool {
    if s.len() == 1 {
        vertex_nearest(s, after, r)
    } else if s.len() == 2 {
        exists|b: Between| #[trigger]
            k.along.ensures((s[0].w, s[1].w), b) && segment_nearest(s, b, after, r)
    } else {
        exists|flat: bool, tests: Seq<EdgeTest>|
            {
                &&& #[trigger] k.flat.ensures((s[0].w, s[1].w, s[2].w), flat)
                &&& #[trigger] edges_measured(k.edge, s, tests)
                &&& triangle_nearest(k.onto, s, flat, tests, after, r)
            }
    }
}

/// Which faces of a tetrahedron the origin lies outside of.
pub open spec fn faces_measured<O: Fn(Vec3, Vec3, Vec3, Vec3) -> bool>(
    beyond: O,
    s: Seq<SimplexVertex>,
    outside: Seq<bool>,
) -> bool {
    &&& outside.len() == 4
    &&& forall|f: int|
        0 <= f < 4 ==> beyond.ensures(
            (
                s[tetra_face(f)[0]].w,
                s[tetra_face(f)[1]].w,
                s[tetra_face(f)[2]].w,
                s[tetra_face(f)[3]].w,
            ),
            #[trigger] outside[f],
        )
}

/// The face of the tetrahedron as a simplex.
pub open spec fn face_simplex(s: Seq<SimplexVertex>, f: int) -> Seq<SimplexVertex> {
    seq![s[tetra_face(f)[0]], s[tetra_face(f)[1]], s[tetra_face(f)[2]]]
}

/// What a face of a tetrahedron tells: what is left of it, its nearest point and
/// the squared distance of that.
pub struct FaceFind {
    pub after: Seq<SimplexVertex>,
    pub nearest: Nearest,
    pub d2: Scalar,
}

/// The squared distances of the faces.
pub open spec fn face_dists(finds: Seq<FaceFind>) -> Seq<Scalar> {
    finds.map_values(|x: FaceFind| x.d2)
}

/// What the first `n` faces tell, of those that the origin lies outside of.
pub open spec fn faces_searched<
    T: Fn(Vec3, Vec3) -> Between,
    L: Fn(Vec3, Vec3, Vec3) -> bool,
    E: Fn(Vec3, Vec3, Vec3, usize) -> EdgeTest,
    P: Fn(Vec3, Vec3, Vec3) -> PlanePoint,
    O: Fn(Vec3, Vec3, Vec3, Vec3) -> bool,
    M: Fn(Vec3) -> Scalar,
>(
    k: SimplexArith<T, L, E, P, O, M>,
    s: Seq<SimplexVertex>,
    outside: Seq<bool>,
    finds: Seq<FaceFind>,
    n: int,
) -> bool {
    &&& finds.len() == n
    &&& forall|f: int|
        0 <= f < n && outside[f] ==> {
            &&& small_nearest(
                k,
                face_simplex(s, f),
                (#[trigger] finds[f]).after,
                finds[f].nearest,
            )
            &&& k.measure.ensures((finds[f].nearest.point,), finds[f].d2)
        }
}

/// The nearest point of a tetrahedron: that of the nearest face that the origin lies
/// outside of, and the origin itself if it is inside of all of them.
pub open spec fn tetrahedron_nearest(
    s: Seq<SimplexVertex>,
    outside: Seq<bool>,
    finds: Seq<FaceFind>,
    after: Seq<SimplexVertex>,
    r: Nearest,
) -> bool {
    match nearest_outer_face(outside, face_dists(finds), 4) {
        Some(f) => after == finds[f].after && r == finds[f].nearest,
        None => {
            &&& after == s
            &&& r.point == Vec3::zero_spec()
            &&& r.bary@ == Seq::new(4, |i: int| Scalar { bits: 0x3e80_0000 })
        },
    }
}

/// The nearest point of a simplex and what is left of the simplex.
pub open spec fn nearest_of<
    T: Fn(Vec3, Vec3) -> Between,
    L: Fn(Vec3, Vec3, Vec3) -> bool,
    E: Fn(Vec3, Vec3, Vec3, usize) -> EdgeTest,
    P: Fn(Vec3, Vec3, Vec3) -> PlanePoint,
    O: Fn(Vec3, Vec3, Vec3, Vec3) -> bool,
    M: Fn(Vec3) -> Scalar,
>(
    k: SimplexArith<T, L, E, P, O, M>,
    s: Seq<SimplexVertex>,
    after: Seq<SimplexVertex>,
    r: Nearest,
) -> bool {
    if s.len() < 4 {
        small_nearest(k, s, after, r)
    } else {
        exists|outside: Seq<bool>, finds: Seq<FaceFind>|
            {
                &&& #[trigger] faces_measured(k.beyond, s, outside)
                &&& #[trigger] faces_searched(k, s, outside, finds, 4)
                &&& tetrahedron_nearest(s, outside, finds, after, r)
            }
    }
}

/// The arithmetic can be asked for anything.
pub open spec fn total_arith<
    T: Fn(Vec3, Vec3) -> Between,
    L: Fn(Vec3, Vec3, Vec3) -> bool,
    E: Fn(Vec3, Vec3, Vec3, usize) -> EdgeTest,
    P: Fn(Vec3, Vec3, Vec3) -> PlanePoint,
    O: Fn(Vec3, Vec3, Vec3, Vec3) -> bool,
    M: Fn(Vec3) -> Scalar,
>(k: SimplexArith<T, L, E, P, O, M>) -> bool {
    &&& forall|a: Vec3, b: Vec3| #[trigger] k.along.requires((a, b))
    &&& forall|a: Vec3, b: Vec3, c: Vec3| #[trigger] k.flat.requires((a, b, c))
    &&& forall|a: Vec3, b: Vec3, c: Vec3, e: usize| #[trigger] k.edge.requires((a, b, c, e))
    &&& forall|a: Vec3, b: Vec3, c: Vec3| #[trigger] k.onto.requires((a, b, c))
    &&& forall|a: Vec3, b: Vec3, c: Vec3, d: Vec3| #[trigger] k.beyond.requires((a, b, c, d))
    &&& forall|v: Vec3| #[trigger] k.measure.requires((v,))
}

fn closest_small<
    T: Fn(Vec3, Vec3) -> Between,
    L: Fn(Vec3, Vec3, Vec3) -> bool,
    E: Fn(Vec3, Vec3, Vec3, usize) -> EdgeTest,
    P: Fn(Vec3, Vec3, Vec3) -> PlanePoint,
    O: Fn(Vec3, Vec3, Vec3, Vec3) -> bool,
    M: Fn(Vec3) -> Scalar,
>(s: &mut Vec<SimplexVertex>, k: &SimplexArith<T, L, E, P, O, M>) -> (r: Nearest)
    requires
        1 <= old(s)@.len() <= 3,
        total_arith(*k),
    ensures
        small_nearest(*k, old(s)@, final(s)@, r),
        final(s)@.len() <= 3,
{
    let zero = Scalar::zero();
    let one = Scalar { bits: 0x3f80_0000 };
    let alone: [Scalar; 4] = [one, zero, zero, zero];
    assert(alone@ =~= first_alone());
    if s.len() == 1 {
        return Nearest { point: s[0].w, bary: alone };
    }
    if s.len() == 2 {
        let (first, second) = (s[0], s[1]);
        let b = (k.along)(first.w, second.w);
        assert(k.along.ensures((s@[0].w, s@[1].w), b));
        if b.t.le(zero) {
            s.truncate(1);
            assert(s@ =~= seq![first]);
            return Nearest { point: first.w, bary: alone };
        }
        if one.le(b.t) {
            s.set(0, second);
            s.truncate(1);
            assert(s@ =~= seq![second]);
            return Nearest { point: second.w, bary: alone };
        }
        let bary: [Scalar; 4] = [b.first, b.t, zero, zero];
        assert(bary@ =~= seq![b.first, b.t, zero, zero]);
        return Nearest { point: b.point, bary };
    }
    let flat = (k.flat)(s[0].w, s[1].w, s[2].w);
    let t0 = (k.edge)(s[0].w, s[1].w, s[2].w, 0);
    let t1 = (k.edge)(s[0].w, s[1].w, s[2].w, 1);
    let t2 = (k.edge)(s[0].w, s[1].w, s[2].w, 2);
    let ghost tests = seq![t0, t1, t2];
    let outside: [bool; 3] = [flat || t0.outside, flat || t1.outside, flat || t2.outside];
    let dist: [Scalar; 3] = [t0.dist2, t1.dist2, t2.dist2];
    proof {
        assert(edges_measured(k.edge, s@, tests));
        assert(dist@ =~= edge_dists(tests));
        assert(forall|e: int|
            0 <= e < 3 ==> #[trigger] outside@[e] == (flat || tests[e].outside));
    }
    match nearest_outer_edge(&outside, &dist) {
        Some(e) => {
            let (t, bary): (EdgeTest, [Scalar; 4]) = if e == 0 {
                (t0, [t0.first, t0.second, zero, zero])
            } else if e == 1 {
                (t1, [t1.first, zero, t1.second, zero])
            } else {
                (t2, [zero, t2.first, t2.second, zero])
            };
            assert(bary@ =~= edge_bary(e as int, tests[e as int]));
            let ghost before = s@;
            let bary = rebuild(s, &bary);
            let r = Nearest { point: t.point, bary };
            proof {
                lemma_indices_where(weighted(edge_bary(e as int, tests[e as int])), 3);
                assert(first_least(
                    edge_dists(tests),
                    outer(tests, flat),
                    Scalar { bits: 0x7f80_0000 },
                    e as int,
                ));
                assert(on_edge(before, tests, e as int, s@, r));
            }
            r
        },
        None => {
            let p = (k.onto)(s[0].w, s[1].w, s[2].w);
            let bary: [Scalar; 4] = [p.first, p.second, p.third, zero];
            assert(bary@ =~= seq![p.first, p.second, p.third, zero]);
            let r = Nearest { point: p.point, bary };
            assert(on_plane(s@, p, s@, r));
            assert(none_below(
                edge_dists(tests),
                outer(tests, flat),
                Scalar { bits: 0x7f80_0000 },
            ));
            r
        },
    }
}

/// The vertices of a face of a tetrahedron.
fn face_vertices(s: &Vec<SimplexVertex>, f: usize) -> (r: Vec<SimplexVertex>)
    requires
        s@.len() == 4,
        f < 4,
    ensures
        r@ == face_simplex(s@, f as int),
{
    let pick: [usize; 3] = if f == 0 {
        [0, 1, 2]
    } else if f == 1 {
        [0, 3, 1]
    } else if f == 2 {
        [0, 2, 3]
    } else {
        [1, 3, 2]
    };
    let mut r: Vec<SimplexVertex> = Vec::new();
    r.push(s[pick[0]]);
    r.push(s[pick[1]]);
    r.push(s[pick[2]]);
    assert(r@ =~= face_simplex(s@, f as int));
    r
}

proof fn lemma_same_outer_face(outside: Seq<bool>, a: Seq<Scalar>, b: Seq<Scalar>, n: int)
    requires
        0 <= n <= a.len(),
        n <= b.len(),
        forall|i: int| 0 <= i < n ==> #[trigger] a[i] == b[i],
    ensures
        nearest_outer_face(outside, a, n) == nearest_outer_face(outside, b, n),
        nearest_outer_face(outside, a, n) matches Some(f) ==> 0 <= f < n && outside[f],
    decreases n,
{
    if n > 0 {
        lemma_same_outer_face(outside, a, b, n - 1);
    }
}

/// The point of a simplex nearest the origin; the simplex shrinks to the vertices
/// that are needed for it.
pub fn closest_simplex<
    T: Fn(Vec3, Vec3) -> Between,
    L: Fn(Vec3, Vec3, Vec3) -> bool,
    E: Fn(Vec3, Vec3, Vec3, usize) -> EdgeTest,
    P: Fn(Vec3, Vec3, Vec3) -> PlanePoint,
    O: Fn(Vec3, Vec3, Vec3, Vec3) -> bool,
    M: Fn(Vec3) -> Scalar,
>(s: &mut Vec<SimplexVertex>, k: &SimplexArith<T, L, E, P, O, M>) -> (r: Nearest)
    requires
        1 <= old(s)@.len() <= 4,
        total_arith(*k),
    ensures
        nearest_of(*k, old(s)@, final(s)@, r),
        final(s)@.len() <= 4,
{
    if s.len() < 4 {
        return closest_small(s, k);
    }
    let outside: [bool; 4] = [
        (k.beyond)(s[0].w, s[1].w, s[2].w, s[3].w),
        (k.beyond)(s[0].w, s[3].w, s[1].w, s[2].w),
        (k.beyond)(s[0].w, s[2].w, s[3].w, s[1].w),
        (k.beyond)(s[1].w, s[3].w, s[2].w, s[0].w),
    ];
    let ghost before = s@;
    assert(faces_measured(k.beyond, s@, outside@));
    let ghost mut finds: Seq<FaceFind> = Seq::empty();
    let mut best: Option<(Vec<SimplexVertex>, Nearest, Scalar)> = None;
    let mut f: usize = 0;
    while f < 4
        invariant
            f <= 4,
            s@ == before,
            s@.len() == 4,
            total_arith(*k),
            faces_searched(*k, before, outside@, finds, f as int),
            match nearest_outer_face(outside@, face_dists(finds), f as int) {
                Some(g) => 0 <= g < f && best is Some && {
                    &&& (best->0).0@ == finds[g].after
                    &&& (best->0).1 == finds[g].nearest
                    &&& (best->0).2 == finds[g].d2
                    &&& (best->0).0@.len() <= 3
                },
                None => best is None,
            },
        decreases 4 - f,
    {
        let ghost old_finds = finds;
        if outside[f] {
            let mut face = face_vertices(s, f);
            let nearest = closest_small(&mut face, k);
            let d2 = (k.measure)(nearest.point);
            proof {
                finds = finds.push(FaceFind { after: face@, nearest, d2 });
            }
            let closer = match &best {
                Some(b) => d2.lt(b.2),
                None => true,
            };
            if closer {
                best = Some((face, nearest, d2));
            }
        } else {
            proof {
                finds = finds.push(arbitrary());
            }
        }
        proof {
            lemma_same_outer_face(outside@, face_dists(old_finds), face_dists(finds), f as int);
            assert forall|g: int| 0 <= g < f + 1 && outside@[g] implies {
                &&& small_nearest(
                    *k,
                    face_simplex(before, g),
                    (#[trigger] finds[g]).after,
                    finds[g].nearest,
                )
                &&& k.measure.ensures((finds[g].nearest.point,), finds[g].d2)
            } by {
                if g < f {
                    assert(finds[g] == old_finds[g]);
                }
            }
        }
        f += 1;
    }
    assert(faces_searched(*k, before, outside@, finds, 4));
    match best {
        Some((left, nearest, _)) => {
            *s = left;
            assert(tetrahedron_nearest(before, outside@, finds, s@, nearest));
            nearest
        },
        None => {
            let quarter = Scalar { bits: 0x3e80_0000 };
            let bary: [Scalar; 4] = [quarter, quarter, quarter, quarter];
            assert(bary@ =~= Seq::new(4, |i: int| Scalar { bits: 0x3e80_0000 }));
            let r = Nearest { point: Vec3::zero(), bary };
            assert(tetrahedron_nearest(before, outside@, finds, s@, r));
            r
        },
    }
}

/// What is left of a simplex is part of it, and the weights are those of what is
/// left: beyond it they are zero.
pub open spec fn shrunk(s: Seq<SimplexVertex>, after: Seq<SimplexVertex>, r: Nearest) -> bool {
    &&& after.len() <= s.len()
    &&& forall|j: int| 0 <= j < after.len() ==> s.contains(#[trigger] after[j])
    &&& forall|i: int| after.len() <= i < 4 ==> #[trigger] r.bary@[i] == Scalar::zero_spec()
}

proof fn lemma_small_shrinks<
    T: Fn(Vec3, Vec3) -> Between,
    L: Fn(Vec3, Vec3, Vec3) -> bool,
    E: Fn(Vec3, Vec3, Vec3, usize) -> EdgeTest,
    P: Fn(Vec3, Vec3, Vec3) -> PlanePoint,
    O: Fn(Vec3, Vec3, Vec3, Vec3) -> bool,
    M: Fn(Vec3) -> Scalar,
>(
    k: SimplexArith<T, L, E, P, O, M>,
    s: Seq<SimplexVertex>,
    after: Seq<SimplexVertex>,
    r: Nearest,
)
    requires
        1 <= s.len() <= 3,
        small_nearest(k, s, after, r),
    ensures
        shrunk(s, after, r),
{
    if s.len() == 1 {
        assert(s.contains(s[0]));
    } else if s.len() == 2 {
        assert(s.contains(s[0]) && s.contains(s[1]));
    } else {
        let (flat, tests) = choose|flat: bool, tests: Seq<EdgeTest>|
            {
                &&& #[trigger] k.flat.ensures((s[0].w, s[1].w, s[2].w), flat)
                &&& #[trigger] edges_measured(k.edge, s, tests)
                &&& triangle_nearest(k.onto, s, flat, tests, after, r)
            };
        let limit = Scalar { bits: 0x7f80_0000 };
        if none_below(edge_dists(tests), outer(tests, flat), limit) {
            assert(forall|j: int| 0 <= j < s.len() ==> s.contains(#[trigger] s[j]));
        } else {
            let e = choose|e: int| #[trigger]
                first_least(edge_dists(tests), outer(tests, flat), limit, e) && on_edge(
                    s,
                    tests,
                    e,
                    after,
                    r,
                );
            lemma_indices_where(weighted(edge_bary(e, tests[e])), 3);
            let kept = indices_where(weighted(edge_bary(e, tests[e])), 3);
            assert forall|j: int| 0 <= j < after.len() implies s.contains(#[trigger] after[j]) by {
                assert(after[j] == s[kept[j]]);
            }
        }
    }
}

/// Searching a simplex shrinks it, and gives the weights of what is left.
pub proof fn weights_fit_what_is_left<
    T: Fn(Vec3, Vec3) -> Between,
    L: Fn(Vec3, Vec3, Vec3) -> bool,
    E: Fn(Vec3, Vec3, Vec3, usize) -> EdgeTest,
    P: Fn(Vec3, Vec3, Vec3) -> PlanePoint,
    O: Fn(Vec3, Vec3, Vec3, Vec3) -> bool,
    M: Fn(Vec3) -> Scalar,
>(
    k: SimplexArith<T, L, E, P, O, M>,
    s: Seq<SimplexVertex>,
    after: Seq<SimplexVertex>,
    r: Nearest,
)
    requires
        1 <= s.len() <= 4,
        nearest_of(k, s, after, r),
    ensures
        shrunk(s, after, r),
{
    if s.len() < 4 {
        lemma_small_shrinks(k, s, after, r);
    } else {
        let (outside, finds) = choose|outside: Seq<bool>, finds: Seq<FaceFind>|
            {
                &&& #[trigger] faces_measured(k.beyond, s, outside)
                &&& #[trigger] faces_searched(k, s, outside, finds, 4)
                &&& tetrahedron_nearest(s, outside, finds, after, r)
            };
        lemma_same_outer_face(outside, face_dists(finds), face_dists(finds), 4);
        match nearest_outer_face(outside, face_dists(finds), 4) {
            Some(f) => {
                let face = face_simplex(s, f);
                assert(finds[f].after == after);
                lemma_small_shrinks(k, face, after, r);
                assert forall|j: int| 0 <= j < after.len() implies s.contains(
                    #[trigger] after[j],
                ) by {
                    assert(face.contains(after[j]));
                    let m = choose|m: int| 0 <= m < face.len() && face[m] == after[j];
                    assert(face[m] == s[tetra_face(f)[m]]);
                }
            },
            None => {
                assert(forall|j: int| 0 <= j < s.len() ==> s.contains(#[trigger] s[j]));
            },
        }
    }
}

/// A round of a query: the simplex before it, the direction asked for, the vertex
/// found, the simplex after it, the nearest point and its squared distance.
pub struct GjkRound {
    pub before: Seq<SimplexVertex>,
    pub dir: Vec3,
    pub vertex: SimplexVertex,
    pub after: Seq<SimplexVertex>,
    pub nearest: Nearest,
    pub d2: Scalar,
}

/// The squared distance before round `k`.
pub open spec fn distance_before(rounds: Seq<GjkRound>, k: int) -> Scalar {
    if k == 0 {
        Scalar { bits: 0x7f80_0000 }
    } else {
        rounds[k - 1].d2
    }
}

/// Round `k` follows from the rounds before it, all of which came closer.
pub open spec fn round_follows<
    S: Fn(Vec3) -> SimplexVertex,
    T: Fn(Vec3, Vec3) -> Between,
    L: Fn(Vec3, Vec3, Vec3) -> bool,
    E: Fn(Vec3, Vec3, Vec3, usize) -> EdgeTest,
    P: Fn(Vec3, Vec3, Vec3) -> PlanePoint,
    O: Fn(Vec3, Vec3, Vec3, Vec3) -> bool,
    M: Fn(Vec3) -> Scalar,
>(
    start: Vec3,
    support: S,
    arith: SimplexArith<T, L, E, P, O, M>,
    rounds: Seq<GjkRound>,
    k: int,
) -> bool {
    let r = rounds[k];
    &&& if k == 0 {
        r.before == Seq::<SimplexVertex>::empty() && r.dir == start
    } else {
        &&& r.before == rounds[k - 1].after
        &&& r.dir == rounds[k - 1].nearest.point.neg_spec()
        &&& gjk_step_spec(rounds[k - 1].d2, distance_before(rounds, k - 1)) == GjkStep::Closer
    }
    &&& support.ensures((r.dir,), r.vertex)
    &&& nearest_of(arith, extended(r.before, r.vertex), r.after, r.nearest)
    &&& arith.measure.ensures((r.nearest.point,), r.d2)
}

/// The rounds of a query.
pub open spec fn gjk_rounds<
    S: Fn(Vec3) -> SimplexVertex,
    T: Fn(Vec3, Vec3) -> Between,
    L: Fn(Vec3, Vec3, Vec3) -> bool,
    E: Fn(Vec3, Vec3, Vec3, usize) -> EdgeTest,
    P: Fn(Vec3, Vec3, Vec3) -> PlanePoint,
    O: Fn(Vec3, Vec3, Vec3, Vec3) -> bool,
    M: Fn(Vec3) -> Scalar,
>(
    start: Vec3,
    support: S,
    arith: SimplexArith<T, L, E, P, O, M>,
    rounds: Seq<GjkRound>,
) -> bool {
    forall|k: int|
        0 <= k < rounds.len() ==> #[trigger] round_follows(
            start,
            support,
            arith,
            rounds,
            k,
        )
}

/// How a query ended: whether the solids meet, the last simplex, the nearest point
/// and its squared distance.
pub struct GjkEnd {
    pub meet: bool,
    pub simplex: Vec<SimplexVertex>,
    pub nearest: Nearest,
    pub d2: Scalar,
}

/// The query ended with the last of the rounds: the simplex reached the origin, it
/// came no closer, or it was the last round there is.
pub open spec fn gjk_ends(rounds: Seq<GjkRound>, end: GjkEnd) -> bool {
    let last = rounds.last();
    let step = gjk_step_spec(last.d2, distance_before(rounds, rounds.len() - 1));
    &&& 1 <= rounds.len() <= GJK_ROUNDS
    &&& end.simplex@ == last.after
    &&& end.nearest == last.nearest
    &&& end.d2 == last.d2
    &&& end.meet == (step == GjkStep::Intersecting)
    &&& step == GjkStep::Closer ==> rounds.len() == GJK_ROUNDS
}

/// Asks whether two solids meet. `support` gives the vertex farthest along
/// a direction.
pub fn gjk_inner<
    S: Fn(Vec3) -> SimplexVertex,
    T: Fn(Vec3, Vec3) -> Between,
    L: Fn(Vec3, Vec3, Vec3) -> bool,
    E: Fn(Vec3, Vec3, Vec3, usize) -> EdgeTest,
    P: Fn(Vec3, Vec3, Vec3) -> PlanePoint,
    O: Fn(Vec3, Vec3, Vec3, Vec3) -> bool,
    M: Fn(Vec3) -> Scalar,
>(start: Vec3, support: &S, arith: &SimplexArith<T, L, E, P, O, M>) -> (end: GjkEnd)
    requires
        total_arith(*arith),
        forall|v: Vec3| #[trigger] support.requires((v,)),
    ensures
        exists|rounds: Seq<GjkRound>| #[trigger]
            gjk_rounds(start, *support, *arith, rounds) && gjk_ends(rounds, end),
        end.simplex@.len() <= 4,
{
    let mut simplex: Vec<SimplexVertex> = Vec::new();
    let mut dir: Vec3 = start;
    let mut prev: Scalar = Scalar { bits: 0x7f80_0000 };
    let ghost mut rounds: Seq<GjkRound> = Seq::empty();
    let mut n: u32 = 0;
    loop
        invariant
            n < GJK_ROUNDS,
            n == rounds.len(),
            simplex@.len() <= 4,
            total_arith(*arith),
            forall|v: Vec3| #[trigger] support.requires((v,)),
                gjk_rounds(start, *support, *arith, rounds),
            prev == distance_before(rounds, n as int),
            n == 0 ==> simplex@ == Seq::<SimplexVertex>::empty() && dir == start,
            n > 0 ==> simplex@ == rounds[n - 1].after && dir
                == rounds[n - 1].nearest.point.neg_spec() && gjk_step_spec(
                rounds[n - 1].d2,
                distance_before(rounds, n - 1),
            ) == GjkStep::Closer,
        decreases GJK_ROUNDS - n,
    {
        let ghost before = simplex@;
        let ghost old_rounds = rounds;
        let vertex = support(dir);
        extend_simplex(&mut simplex, vertex);
        assert(simplex@ == extended(before, vertex));
        let nearest = closest_simplex(&mut simplex, arith);
        let d2 = (arith.measure)(nearest.point);
        proof {
            rounds =
            rounds.push(GjkRound { before, dir, vertex, after: simplex@, nearest, d2 });
            assert forall|k: int| 0 <= k < rounds.len() implies #[trigger] round_follows(
                start,
                *support,
                *arith,
                rounds,
                k,
            ) by {
                if k < n {
                    assert(round_follows(start, *support, *arith, old_rounds, k));
                    assert(rounds[k] == old_rounds[k]);
                    if k > 0 {
                        assert(rounds[k - 1] == old_rounds[k - 1]);
                        if k > 1 {
                            assert(rounds[k - 2] == old_rounds[k - 2]);
                        }
                    }
                } else {
                    if k > 0 {
                        assert(rounds[k - 1] == old_rounds[k - 1]);
                        if k > 1 {
                            assert(rounds[k - 2] == old_rounds[k - 2]);
                        }
                    }
                }
            }
            if n > 0 {
                assert(rounds[n - 1] == old_rounds[n - 1]);
            }
        }
        let step = gjk_step(d2, prev);
        if n + 1 == GJK_ROUNDS || !matches!(step, GjkStep::Closer) {
            let meet = matches!(step, GjkStep::Intersecting);
            let end = GjkEnd { meet, simplex, nearest, d2 };
            assert(gjk_rounds(start, *support, *arith, rounds));
            assert(gjk_ends(rounds, end));
            return end;
        }
        prev = d2;
        dir = nearest.point.neg();
        n += 1;
    }
}

/// Every round of a query comes closer than all before it.
pub proof fn rounds_come_closer<
    S: Fn(Vec3) -> SimplexVertex,
    T: Fn(Vec3, Vec3) -> Between,
    L: Fn(Vec3, Vec3, Vec3) -> bool,
    E: Fn(Vec3, Vec3, Vec3, usize) -> EdgeTest,
    P: Fn(Vec3, Vec3, Vec3) -> PlanePoint,
    O: Fn(Vec3, Vec3, Vec3, Vec3) -> bool,
    M: Fn(Vec3) -> Scalar,
>(
    start: Vec3,
    support: S,
    arith: SimplexArith<T, L, E, P, O, M>,
    rounds: Seq<GjkRound>,
    j: int,
    k: int,
)
    requires
        gjk_rounds(start, support, arith, rounds),
        0 <= j < k < rounds.len() - 1,
        forall|i: int| 0 <= i < rounds.len() ==> !(#[trigger] rounds[i]).d2.is_nan_spec(),
    ensures
        rounds[k].d2.lt_spec(rounds[j].d2),
    decreases k,
{
    assert(round_follows(start, support, arith, rounds, k + 1));
    assert(!rounds[k].d2.is_nan_spec() && !rounds[k - 1].d2.is_nan_spec());
    if j < k - 1 {
        rounds_come_closer(start, support, arith, rounds, j, k - 1);
    }
}

} // verus!
