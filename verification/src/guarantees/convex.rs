//! What the distance and penetration queries of convex solids promise.

use crate::epa::{
    axis_sat, best_at, can_expand, cannot_expand, distinct_vertices, distinct_vertices_of, epa_ends,
    epa_first, epa_from_simplex, epa_grows, epa_stops, epa_trace, expand, expanded, expansion_done,
    goes_on, hidden, horizon_of, initial_faces, nearest_face, overlaps, planes_measured, round_sees,
    way_out, AxisOverlap, AxisWay, EpaArith, EpaBest, EpaState, Tri, WayOut,
};
use crate::gjk::{
    carriers, closest_simplex, extend_simplex, gjk_inner, gjk_rounds, gjk_step, nearest_of,
    nearest_outer_edge, rebuild, round_follows, small_nearest, triangle_edges, weighted, Between,
    EdgeTest, GjkEnd, GjkRound, GjkStep, Nearest, PlanePoint, SimplexArith, SimplexVertex,
};
use crate::scalar::{Scalar, Vec3};
use crate::select::{alike_by, indices_where, lemma_indices_where};
use vstd::prelude::*;

verus! {

/// A number above zero.
pub open spec fn above_zero(x: Scalar) -> bool {
    0 < x.bits <= 0x7f80_0000
}

/// A search ends touching once the distance is next to nothing, converged once it no
/// longer shrinks, and goes on otherwise.
pub proof fn searches_go_on_while_they_get_closer(d2: Scalar, prev: Scalar, r: GjkStep)
    requires
        call_ensures(gjk_step, (d2, prev), r),
        !d2.is_nan_spec(),
        !prev.is_nan_spec(),
    ensures
        r == GjkStep::Intersecting <==> d2.rank() < 0x2b8c_bccc,
        r == GjkStep::Converged <==> d2.rank() >= 0x2b8c_bccc && d2.rank() >= prev.rank(),
        r == GjkStep::Closer <==> 0x2b8c_bccc <= d2.rank() < prev.rank(),
{
}

/// A simplex takes a vertex at its end while it has fewer than four.
pub proof fn simplexes_have_four_vertices(s: &mut Vec<SimplexVertex>, v: SimplexVertex)
    requires
        call_ensures(extend_simplex, (s, v), ()),
    ensures
        old(s)@.len() < 4 ==> final(s)@.len() == old(s)@.len() + 1 && final(s)@.last() == v,
        old(s)@.len() >= 4 ==> final(s)@ == old(s)@,
        forall|i: int| 0 <= i < old(s)@.len() ==> #[trigger] final(s)@[i] == old(s)@[i],
{
}

/// A simplex is thinned out to the vertices that carry weight, in order, each with its
/// weight; the weights left over are zero.
pub proof fn only_weighted_vertices_stay(
    s: &mut Vec<SimplexVertex>,
    bary: &[Scalar; 4],
    r: [Scalar; 4],
)
    requires
        old(s)@.len() <= 4,
        call_ensures(rebuild, (s, bary), r),
    ensures
        exists|from: Seq<int>|
            #![trigger from.len()]
            {
                &&& from.len() == final(s)@.len()
                &&& forall|x: int, y: int|
                    #![trigger from[x], from[y]]
                    0 <= x < y < from.len() ==> from[x] < from[y]
                &&& forall|x: int|
                    #![trigger from[x]]
                    0 <= x < from.len() ==> 0 <= from[x] < old(s)@.len() && final(s)@[x] == old(s)@[from[x]] && r@[x] == bary@[from[x]] && above_zero(bary@[from[x]])
                &&& forall|i: int|
                    #![trigger old(s)@[i]]
                    0 <= i < old(s)@.len() && above_zero(bary@[i]) ==> from.contains(i)
                &&& forall|x: int|
                    #![trigger r@[x]]
                    from.len() <= x < 4 ==> r@[x].bits == 0
            },
{
    let p = weighted(bary@);
    let n = old(s)@.len();
    let from = indices_where(p, n);
    lemma_indices_where(p, n);
    assert(from.len() == final(s)@.len());
    assert forall|x: int| #![trigger from[x]] 0 <= x < from.len() implies 0 <= from[x] < n
        && final(s)@[x] == old(s)@[from[x]] && r@[x] == bary@[from[x]] && above_zero(
        bary@[from[x]],
    ) by {
        assert(p(from[x]));
    }
    assert forall|i: int| #![trigger old(s)@[i]] 0 <= i < n && above_zero(bary@[i]) implies from.contains(
        i,
    ) by {
        assert(p(i));
    }
}

/// The edges of a triangle: each names two corners and the one across, and the corner
/// across is different for each.
pub proof fn edges_lie_across_from_corners(e: usize, f: usize, r: (usize, usize, usize), s: (usize, usize, usize))
    requires
        e < 3,
        f < 3,
        call_ensures(triangle_edges, (e,), r),
        call_ensures(triangle_edges, (f,), s),
    ensures
        r.0 < 3 && r.1 < 3 && r.2 < 3,
        r.0 < r.1,
        r.0 != r.2 && r.1 != r.2,
        r.2 == 2 - e,
        r == s ==> e == f,
{
}

/// The nearest edge that the origin is outside of, the first of several, is found; none
/// if it is outside of none.
pub proof fn the_nearest_outer_edge_is_found(
    outside: &[bool; 3],
    dist: &[Scalar; 3],
    r: Option<usize>,
    j: int,
)
    requires
        call_ensures(nearest_outer_edge, (outside, dist), r),
        0 <= j < 3,
    ensures
        outside@[j] && dist@[j].is_finite_spec() ==> r is Some && dist@[r.unwrap() as int].le_spec(
            dist@[j],
        ) && (j < r.unwrap() ==> dist@[r.unwrap() as int].lt_spec(dist@[j])),
        r is Some ==> r.unwrap() < 3 && outside@[r.unwrap() as int],
{
    assert(dist@[j] == dist@[j]);
    assert(crate::select::flagged(outside@)(j) == outside@[j]);
    if let Some(k) = r {
        assert(crate::select::flagged(outside@)(k as int));
    }
}

/// The point of a vertex or a segment that is nearest to the origin: the only vertex; or
/// the end that the origin lies behind, alone; or the point between, of both.
pub proof fn small_simplexes_give_their_nearest_point<
    T: Fn(Vec3, Vec3) -> Between,
    L: Fn(Vec3, Vec3, Vec3) -> bool,
    E: Fn(Vec3, Vec3, Vec3, usize) -> EdgeTest,
    P: Fn(Vec3, Vec3, Vec3) -> PlanePoint,
    O: Fn(Vec3, Vec3, Vec3, Vec3) -> bool,
    M: Fn(Vec3) -> Scalar,
>(s: &mut Vec<SimplexVertex>, k: &SimplexArith<T, L, E, P, O, M>, r: Nearest)
    requires
        call_ensures(closest_simplex::<T, L, E, P, O, M>, (s, k), r),
        1 <= old(s)@.len() <= 2,
    ensures
        old(s)@.len() == 1 ==> final(s)@ == old(s)@ && r.point == old(s)@[0].w && r.bary@[0].bits
            == 0x3f80_0000,
        old(s)@.len() == 2 ==> exists|b: Between|
            #[trigger] k.along.ensures((old(s)@[0].w, old(s)@[1].w), b) && if b.t.le_spec(
                Scalar { bits: 0 },
            ) {
                final(s)@ == seq![old(s)@[0]] && r.point == old(s)@[0].w && r.bary@[0].bits
                    == 0x3f80_0000
            } else if (Scalar { bits: 0x3f80_0000 }).le_spec(b.t) {
                final(s)@ == seq![old(s)@[1]] && r.point == old(s)@[1].w && r.bary@[0].bits
                    == 0x3f80_0000
            } else {
                final(s)@ == old(s)@ && r.point == b.point && r.bary@[0] == b.first && r.bary@[1]
                    == b.t
            },
{
    assert(small_nearest(*k, old(s)@, final(s)@, r));
    if old(s)@.len() == 2 {
        let b = choose|b: Between| #[trigger]
            k.along.ensures((old(s)@[0].w, old(s)@[1].w), b) && crate::gjk::segment_nearest(
                old(s)@,
                b,
                final(s)@,
                r,
            );
        assert(k.along.ensures((old(s)@[0].w, old(s)@[1].w), b));
    }
}

/// The nearest point of a triangle: on the nearest edge that the origin is outside of, or
/// on the plane if it is outside of none; all edges count for a flat triangle.
pub proof fn triangles_give_their_nearest_point<
    T: Fn(Vec3, Vec3) -> Between,
    L: Fn(Vec3, Vec3, Vec3) -> bool,
    E: Fn(Vec3, Vec3, Vec3, usize) -> EdgeTest,
    P: Fn(Vec3, Vec3, Vec3) -> PlanePoint,
    O: Fn(Vec3, Vec3, Vec3, Vec3) -> bool,
    M: Fn(Vec3) -> Scalar,
>(s: &mut Vec<SimplexVertex>, k: &SimplexArith<T, L, E, P, O, M>, r: Nearest)
    requires
        call_ensures(closest_simplex::<T, L, E, P, O, M>, (s, k), r),
        old(s)@.len() == 3,
    ensures
        exists|flat: bool, tests: Seq<EdgeTest>|
            #![trigger k.flat.ensures((old(s)@[0].w, old(s)@[1].w, old(s)@[2].w), flat), tests.len()]
            {
                &&& k.flat.ensures((old(s)@[0].w, old(s)@[1].w, old(s)@[2].w), flat)
                &&& tests.len() == 3
                &&& forall|e: int|
                    #![trigger tests[e]]
                    0 <= e < 3 ==> k.edge.ensures(
                        (old(s)@[0].w, old(s)@[1].w, old(s)@[2].w, e as usize),
                        tests[e],
                    )
                &&& (forall|e: int|
                    #![trigger tests[e]]
                    0 <= e < 3 ==> !((flat || tests[e].outside) && tests[e].dist2.lt_spec(
                        Scalar { bits: 0x7f80_0000 },
                    ))) ==> final(s)@ == old(s)@ && exists|p: PlanePoint| #[trigger]
                    k.onto.ensures((old(s)@[0].w, old(s)@[1].w, old(s)@[2].w), p) && r.point
                        == p.point && r.bary@[0] == p.first && r.bary@[1] == p.second && r.bary@[2]
                        == p.third
                &&& forall|e: int|
                    #![trigger tests[e]]
                    0 <= e < 3 && (flat || tests[e].outside) && tests[e].dist2.is_finite_spec()
                        ==> exists|g: int|
                        #![trigger tests[g]]
                        0 <= g < 3 && (flat || tests[g].outside) && r.point == tests[g].point
                            && tests[g].dist2.le_spec(tests[e].dist2)
            },
{
    let o = old(s)@;
    assert(small_nearest(*k, o, final(s)@, r));
    let (flat, tests) = choose|flat: bool, tests: Seq<EdgeTest>|
        {
            &&& #[trigger] k.flat.ensures((o[0].w, o[1].w, o[2].w), flat)
            &&& #[trigger] crate::gjk::edges_measured(k.edge, o, tests)
            &&& crate::gjk::triangle_nearest(k.onto, o, flat, tests, final(s)@, r)
        };
    let d = crate::gjk::edge_dists(tests);
    let pick = crate::gjk::outer(tests, flat);
    let limit = Scalar { bits: 0x7f80_0000 };
    assert(tests.len() == 3);
    assert forall|e: int| 0 <= e < 3 implies #[trigger] d[e] == tests[e].dist2 && pick(e) == (flat
        || tests[e].outside) by {}
    assert(k.flat.ensures((o[0].w, o[1].w, o[2].w), flat));
    if crate::select::none_below(d, pick, limit) {
        let p = choose|p: PlanePoint| #[trigger]
            k.onto.ensures((o[0].w, o[1].w, o[2].w), p) && crate::gjk::on_plane(o, p, final(s)@, r);
        assert(k.onto.ensures((o[0].w, o[1].w, o[2].w), p));
        assert forall|e: int|
            #![trigger tests[e]]
            0 <= e < 3 && (flat || tests[e].outside) && tests[e].dist2.is_finite_spec() implies exists|
            g: int,
        |
            #![trigger tests[g]]
            0 <= g < 3 && (flat || tests[g].outside) && r.point == tests[g].point
                && tests[g].dist2.le_spec(tests[e].dist2) by {
            assert(d[e] == tests[e].dist2);
        }
    } else {
        let g = choose|e: int| #[trigger]
            crate::select::first_least(d, pick, limit, e) && crate::gjk::on_edge(
                o,
                tests,
                e,
                final(s)@,
                r,
            );
        assert(d[g] == tests[g].dist2);
        assert(pick(g));
        assert forall|e: int|
            #![trigger tests[e]]
            0 <= e < 3 && (flat || tests[e].outside) && tests[e].dist2.is_finite_spec() implies exists|
            g: int,
        |
            #![trigger tests[g]]
            0 <= g < 3 && (flat || tests[g].outside) && r.point == tests[g].point
                && tests[g].dist2.le_spec(tests[e].dist2) by {
            assert(d[e] == tests[e].dist2);
            assert(pick(e));
            assert(tests[g].dist2.le_spec(tests[e].dist2));
        }
        assert(tests[g].dist2.lt_spec(limit));
    }
}

/// The origin is inside a tetrahedron exactly if it is beyond none of its faces: then it
/// is its own nearest point and all four vertices stay with equal weights; otherwise the
/// point is one of a face that it is beyond.
pub proof fn tetrahedra_hold_the_origin_or_show_a_face<
    T: Fn(Vec3, Vec3) -> Between,
    L: Fn(Vec3, Vec3, Vec3) -> bool,
    E: Fn(Vec3, Vec3, Vec3, usize) -> EdgeTest,
    P: Fn(Vec3, Vec3, Vec3) -> PlanePoint,
    O: Fn(Vec3, Vec3, Vec3, Vec3) -> bool,
    M: Fn(Vec3) -> Scalar,
>(s: &mut Vec<SimplexVertex>, k: &SimplexArith<T, L, E, P, O, M>, r: Nearest)
    requires
        call_ensures(closest_simplex::<T, L, E, P, O, M>, (s, k), r),
        old(s)@.len() == 4,
        forall|a: Vec3, b: Vec3, c: Vec3, d: Vec3|
            !(#[trigger] k.beyond.ensures((a, b, c, d), true) && k.beyond.ensures(
                (a, b, c, d),
                false,
            )),
    ensures
        ({
            let v = old(s)@;
            let inside = k.beyond.ensures((v[0].w, v[1].w, v[2].w, v[3].w), false)
                && k.beyond.ensures((v[0].w, v[3].w, v[1].w, v[2].w), false) && k.beyond.ensures(
                (v[0].w, v[2].w, v[3].w, v[1].w),
                false,
            ) && k.beyond.ensures((v[1].w, v[3].w, v[2].w, v[0].w), false);
            &&& inside ==> final(s)@ == v && r.point.x.bits == 0 && r.point.y.bits == 0
                && r.point.z.bits == 0 && forall|i: int|
                0 <= i < 4 ==> (#[trigger] r.bary@[i]).bits == 0x3e80_0000
            &&& !inside ==> final(s)@.len() <= 3
        }),
{
    let v = old(s)@;
    let (outside, finds) = choose|outside: Seq<bool>, finds: Seq<crate::gjk::FaceFind>|
        {
            &&& #[trigger] crate::gjk::faces_measured(k.beyond, v, outside)
            &&& #[trigger] crate::gjk::faces_searched(*k, v, outside, finds, 4)
            &&& crate::gjk::tetrahedron_nearest(v, outside, finds, final(s)@, r)
        };
    assert(outside.len() == 4);
    let f0 = outside[0];
    let f1 = outside[1];
    let f2 = outside[2];
    let f3 = outside[3];
    let dists = crate::gjk::face_dists(finds);
    reveal_with_fuel(crate::gjk::nearest_outer_face, 5);
    let near = crate::gjk::nearest_outer_face(outside, dists, 4);
    assert(near is None <==> !f0 && !f1 && !f2 && !f3);
    if near is Some {
        let f = near.unwrap();
        assert(0 <= f < 4 && outside[f]);
        assert(finds[f].after == final(s)@);
        lemma_small_sizes(*k, crate::gjk::face_simplex(v, f), finds[f].after, finds[f].nearest);
    }
}

proof fn lemma_small_sizes<
    T: Fn(Vec3, Vec3) -> Between,
    L: Fn(Vec3, Vec3, Vec3) -> bool,
    E: Fn(Vec3, Vec3, Vec3, usize) -> EdgeTest,
    P: Fn(Vec3, Vec3, Vec3) -> PlanePoint,
    O: Fn(Vec3, Vec3, Vec3, Vec3) -> bool,
    M: Fn(Vec3) -> Scalar,
>(
    k: SimplexArith<T, L, E, P, O, M>,
    s: Seq<SimplexVertex>,
    after: Seq<SimplexVertex>,
    r: Nearest,
)
    requires
        small_nearest(k, s, after, r),
        s.len() == 3,
    ensures
        after.len() <= 3,
{
    let (flat, tests) = choose|flat: bool, tests: Seq<EdgeTest>|
        {
            &&& #[trigger] k.flat.ensures((s[0].w, s[1].w, s[2].w), flat)
            &&& #[trigger] crate::gjk::edges_measured(k.edge, s, tests)
            &&& crate::gjk::triangle_nearest(k.onto, s, flat, tests, after, r)
        };
    if !crate::select::none_below(
        crate::gjk::edge_dists(tests),
        crate::gjk::outer(tests, flat),
        Scalar { bits: 0x7f80_0000 },
    ) {
        let e = choose|e: int| #[trigger]
            crate::select::first_least(
                crate::gjk::edge_dists(tests),
                crate::gjk::outer(tests, flat),
                Scalar { bits: 0x7f80_0000 },
                e,
            ) && crate::gjk::on_edge(s, tests, e, after, r);
        lemma_indices_where(weighted(crate::gjk::edge_bary(e, tests[e])), s.len());
    }
}

/// A distance search looks first along the starting direction and then towards the origin
/// from the nearest point it has; the squared distance shrinks from round to round; and
/// it ends after at most thirty-two rounds, meeting exactly if the last distance is next
/// to nothing.
pub proof fn searches_close_in<
    S: Fn(Vec3) -> SimplexVertex,
    T: Fn(Vec3, Vec3) -> Between,
    L: Fn(Vec3, Vec3, Vec3) -> bool,
    E: Fn(Vec3, Vec3, Vec3, usize) -> EdgeTest,
    P: Fn(Vec3, Vec3, Vec3) -> PlanePoint,
    O: Fn(Vec3, Vec3, Vec3, Vec3) -> bool,
    M: Fn(Vec3) -> Scalar,
>(start: Vec3, support: &S, arith: &SimplexArith<T, L, E, P, O, M>, end: GjkEnd)
    requires
        call_ensures(gjk_inner::<S, T, L, E, P, O, M>, (start, support, arith), end),
    ensures
        end.meet <==> end.d2.lt_spec(Scalar { bits: 0x2b8c_bccc }),
        arith.measure.ensures((end.nearest.point,), end.d2),
        exists|rounds: Seq<GjkRound>|
            #![trigger rounds.len()]
            {
                &&& 1 <= rounds.len() <= 32
                &&& rounds[0].dir == start
                &&& rounds[0].before.len() == 0
                &&& end.simplex@ == rounds.last().after
                &&& end.nearest == rounds.last().nearest
                &&& end.d2 == rounds.last().d2
                &&& !end.meet && rounds.len() < 32 && rounds.len() > 1 ==> rounds[rounds.len()
                    - 2].d2.le_spec(end.d2)
                &&& forall|k: int|
                    #![trigger rounds[k]]
                    0 <= k < rounds.len() ==> {
                        &&& support.ensures((rounds[k].dir,), rounds[k].vertex)
                        &&& arith.measure.ensures((rounds[k].nearest.point,), rounds[k].d2)
                        &&& k > 0 ==> rounds[k].dir == rounds[k - 1].nearest.point.neg_spec()
                        &&& k > 0 ==> rounds[k].before == rounds[k - 1].after
                        &&& k > 0 ==> !rounds[k - 1].d2.lt_spec(Scalar { bits: 0x2b8c_bccc })
                        &&& k > 1 ==> !rounds[k - 2].d2.le_spec(rounds[k - 1].d2)
                    }
            },
{
    let rounds = choose|rounds: Seq<GjkRound>| #[trigger]
        gjk_rounds(start, *support, *arith, rounds) && crate::gjk::gjk_ends(rounds, end);
    assert forall|k: int| #![trigger rounds[k]] 0 <= k < rounds.len() implies {
        &&& support.ensures((rounds[k].dir,), rounds[k].vertex)
        &&& arith.measure.ensures((rounds[k].nearest.point,), rounds[k].d2)
        &&& k > 0 ==> rounds[k].dir == rounds[k - 1].nearest.point.neg_spec()
        &&& k > 0 ==> rounds[k].before == rounds[k - 1].after
        &&& k > 0 ==> !rounds[k - 1].d2.lt_spec(Scalar { bits: 0x2b8c_bccc })
        &&& k > 1 ==> !rounds[k - 2].d2.le_spec(rounds[k - 1].d2)
    } by {
        assert(round_follows(start, *support, *arith, rounds, k));
    }
    assert(round_follows(start, *support, *arith, rounds, 0));
    assert(round_follows(start, *support, *arith, rounds, rounds.len() - 1));
    assert(rounds.len() >= 1);
}

/// The first surface is a tetrahedron: each face leaves out another vertex, and a face
/// that is flipped has its last two corners the other way round.
pub proof fn the_first_surface_is_a_tetrahedron(
    flip: &[bool; 4],
    other: &[bool; 4],
    faces: Vec<Tri>,
    turned: Vec<Tri>,
    f: int,
)
    requires
        call_ensures(initial_faces, (flip,), faces),
        call_ensures(initial_faces, (other,), turned),
        0 <= f < 4,
    ensures
        faces@.len() == 4,
        ({
            let t = faces@[f];
            let missing = 3 - f;
            &&& t.a < 4 && t.b < 4 && t.c < 4
            &&& t.a != t.b && t.b != t.c && t.a != t.c
            &&& f == 0 ==> t.a != 3 && t.b != 3 && t.c != 3
            &&& f == 1 ==> t.a != 2 && t.b != 2 && t.c != 2
            &&& f == 2 ==> t.a != 1 && t.b != 1 && t.c != 1
            &&& f == 3 ==> t.a != 0 && t.b != 0 && t.c != 0
            &&& flip@[f] == other@[f] ==> turned@[f] == t
            &&& flip@[f] != other@[f] ==> turned@[f].a == t.a && turned@[f].b == t.c && turned@[f].c
                == t.b
        }),
{
}

/// A surface grows by a new vertex: the faces that the vertex does not see stay, in
/// order, and all others end at the new vertex; without a visible face it does not grow.
pub proof fn hidden_faces_stay(faces: &Vec<Tri>, visible: &[bool], w: usize, r: Option<Vec<Tri>>)
    requires
        visible@.len() == faces@.len(),
        call_ensures(expand, (faces, visible, w), r),
    ensures
        r is Some ==> exists|i: int| 0 <= i < faces@.len() && #[trigger] visible@[i],
        r is Some ==> exists|from: Seq<int>|
            #![trigger from.len()]
            {
                &&& from.len() < r.unwrap()@.len()
                &&& forall|x: int, y: int|
                    #![trigger from[x], from[y]]
                    0 <= x < y < from.len() ==> from[x] < from[y]
                &&& forall|x: int|
                    #![trigger from[x]]
                    0 <= x < from.len() ==> 0 <= from[x] < faces@.len() && !visible@[from[x]]
                        && r.unwrap()@[x] == faces@[from[x]]
                &&& forall|i: int|
                    #![trigger visible@[i]]
                    0 <= i < faces@.len() && !visible@[i] ==> from.contains(i)
                &&& forall|k: int|
                    #![trigger r.unwrap()@[k]]
                    from.len() <= k < r.unwrap()@.len() ==> r.unwrap()@[k].c == w
            },
{
    if r is Some {
        let next = r.unwrap()@;
        let p = hidden(visible@);
        let from = indices_where(p, faces@.len());
        lemma_indices_where(p, faces@.len());
        assert(next == expanded(faces@, visible@, w));
        assert(from.len() < next.len());
        assert forall|x: int| #![trigger from[x]] 0 <= x < from.len() implies 0 <= from[x]
            < faces@.len() && !visible@[from[x]] && next[x] == faces@[from[x]] by {
            assert(p(from[x]));
        }
        assert forall|i: int|
            #![trigger visible@[i]]
            0 <= i < faces@.len() && !visible@[i] implies from.contains(i) by {
            assert(p(i));
        }
    }
}

/// A surface grows while it has at most sixty-four faces.
pub proof fn surfaces_are_bounded(faces: usize, r: bool)
    requires
        call_ensures(goes_on, (faces,), r),
    ensures
        r <==> faces <= 64,
{
}

proof fn lemma_kinds(s: Seq<SimplexVertex>, alike: spec_fn(Vec3, Vec3) -> bool, n: int)
    requires
        0 <= n <= s.len(),
    ensures
        ({
            let r = distinct_vertices_of(s, alike, n);
            &&& r.len() <= n
            &&& forall|x: int| #![trigger r[x]] 0 <= x < r.len() ==> s.contains(r[x])
            &&& forall|x: int, y: int|
                #![trigger r[x], r[y]]
                0 <= x < y < r.len() ==> !alike(r[x].w, r[y].w)
            &&& forall|i: int|
                #![trigger s[i]]
                0 <= i < n ==> exists|x: int|
                    0 <= x < r.len() && ((#[trigger] r[x]) == s[i] || alike(r[x].w, s[i].w))
        }),
    decreases n,
{
    if n > 0 {
        lemma_kinds(s, alike, n - 1);
        let before = distinct_vertices_of(s, alike, n - 1);
        let r = distinct_vertices_of(s, alike, n);
        assert forall|x: int| #![trigger r[x]] 0 <= x < r.len() implies s.contains(r[x]) by {
            if x < before.len() {
                assert(r[x] == before[x]);
            } else {
                assert(s[n - 1] == r[x]);
            }
        }
        assert forall|x: int, y: int|
            #![trigger r[x], r[y]]
            0 <= x < y < r.len() implies !alike(r[x].w, r[y].w) by {
            assert(r[x] == before[x]);
            if y < before.len() {
                assert(r[y] == before[y]);
            }
        }
        assert forall|i: int| #![trigger s[i]] 0 <= i < n implies exists|x: int|
            0 <= x < r.len() && ((#[trigger] r[x]) == s[i] || alike(r[x].w, s[i].w)) by {
            if i < n - 1 {
                let x = choose|x: int|
                    0 <= x < before.len() && ((#[trigger] before[x]) == s[i] || alike(
                        before[x].w,
                        s[i].w,
                    ));
                assert(r[x] == before[x]);
            } else if r.len() > before.len() {
                assert(r[r.len() - 1] == s[i]);
            } else {
                let x = choose|x: int|
                    0 <= x < before.len() && alike((#[trigger] before[x]).w, s[n - 1].w);
                assert(r[x] == before[x]);
            }
        }
    }
}

/// The vertices kept of a simplex are its own, no two of them alike, and every vertex is
/// kept or alike to one that is.
pub proof fn one_vertex_of_each_kind_is_kept<F: Fn(Vec3, Vec3) -> bool>(
    s: &[SimplexVertex],
    alike: F,
    r: Vec<SimplexVertex>,
)
    requires
        call_ensures(distinct_vertices::<F>, (s, alike), r),
    ensures
        forall|x: int| #![trigger r@[x]] 0 <= x < r@.len() ==> s@.contains(r@[x]),
        forall|x: int, y: int|
            #![trigger r@[x], r@[y]]
            0 <= x < y < r@.len() ==> !alike.ensures((r@[x].w, r@[y].w), true),
        forall|i: int|
            #![trigger s@[i]]
            0 <= i < s@.len() ==> exists|x: int|
                0 <= x < r@.len() && ((#[trigger] r@[x]) == s@[i] || alike.ensures(
                    (r@[x].w, s@[i].w),
                    true,
                )),
{
    let f = alike_by(alike);
    lemma_kinds(s@, f, s@.len() as int);
    assert forall|x: int, y: int|
        #![trigger r@[x], r@[y]]
        0 <= x < y < r@.len() implies !alike.ensures((r@[x].w, r@[y].w), true) by {
        assert(!f(r@[x].w, r@[y].w));
    }
    assert forall|i: int| #![trigger s@[i]] 0 <= i < s@.len() implies exists|x: int|
        0 <= x < r@.len() && ((#[trigger] r@[x]) == s@[i] || alike.ensures(
            (r@[x].w, s@[i].w),
            true,
        )) by {
        let x = choose|x: int|
            0 <= x < r@.len() && ((#[trigger] r@[x]) == s@[i] || f(r@[x].w, s@[i].w));
        assert(r@[x] == s@[i] || alike.ensures((r@[x].w, s@[i].w), true));
    }
}

/// The axis to part two boxes along is the first with the least overlap; they are apart
/// if that is below minus a ten-thousandth, and they part against the axis exactly if the
/// first reaches no farther than the second.
pub proof fn boxes_part_along_the_least_overlap(tests: &[AxisOverlap; 3], way: AxisWay, j: int)
    requires
        call_ensures(axis_sat, (tests,), way),
        0 <= j < 3,
        tests@[j].over.is_finite_spec(),
    ensures
        way != AxisWay::Unknown,
        way == AxisWay::Apart <==> exists|k: int|
            #![trigger tests@[k]]
            0 <= k < 3 && tests@[k].over.lt_spec(Scalar { bits: 0xb8d1_b717 }),
        way matches AxisWay::Along { axis, against } ==> {
            &&& axis < 3
            &&& tests@[axis as int].over.le_spec(tests@[j].over)
            &&& j < axis ==> tests@[axis as int].over.lt_spec(tests@[j].over)
            &&& against <==> tests@[axis as int].reach_a.le_spec(tests@[axis as int].reach_b)
        },
{
    let o = overlaps(tests@);
    let all = crate::select::everything();
    assert forall|k: int| 0 <= k < 3 implies #[trigger] o[k] == tests@[k].over && all(k) by {}
    assert(o[j] == tests@[j].over);
    match way {
        AxisWay::Unknown => {
            assert(all(j));
        },
        AxisWay::Apart => {
            let k = choose|k: int| #[trigger]
                crate::select::first_least(o, all, Scalar { bits: 0x7f80_0000 }, k)
                    && tests@[k].over.lt_spec(crate::epa::apart_spec());
            assert(tests@[k].over.lt_spec(Scalar { bits: 0xb8d1_b717 }));
        },
        AxisWay::Along { axis, against } => {
            assert(o[axis as int] == tests@[axis as int].over);
            assert forall|k: int| #![trigger tests@[k]] 0 <= k < 3 implies !tests@[k].over.lt_spec(
                Scalar { bits: 0xb8d1_b717 },
            ) by {
                assert(o[k] == tests@[k].over);
                assert(all(k));
            }
        },
    }
}

/// The way out of a penetration is searched by growing a surface exactly from four
/// vertices that are not alike and not flat, or from more; otherwise along the axes.
pub proof fn surfaces_grow_from_full_simplexes<
    E: Fn(Vec3, Vec3) -> bool,
    F: Fn(Vec3, Vec3, Vec3, Vec3) -> bool,
    G: Fn(Vec3, Vec3, Vec3, Vec3) -> [bool; 4],
    X: Fn() -> [AxisOverlap; 3],
    S: Fn(Vec3) -> SimplexVertex,
    P: Fn(Vec3, Vec3, Vec3) -> Option<(Vec3, Scalar)>,
    N: Fn(Vec3, Vec3, Scalar) -> bool,
    V: Fn(Vec3, Vec3, Vec3, Vec3) -> bool,
    W: Fn(SimplexVertex, SimplexVertex, SimplexVertex, Vec3, Scalar) -> Vec3,
>(
    simplex: &[SimplexVertex],
    rounds: usize,
    alike: E,
    flat: &F,
    facing: &G,
    axes: &X,
    support: &S,
    arith: &EpaArith<P, N, V, W>,
    r: WayOut,
)
    requires
        call_ensures(
            way_out::<E, F, G, X, S, P, N, V, W>,
            (simplex, rounds, alike, flat, facing, axes, support, arith),
            r,
        ),
        simplex@.len() == 4,
        forall|i: int, j: int|
            #![trigger simplex@[i], simplex@[j]]
            0 <= i < j < 4 ==> !alike.ensures((simplex@[i].w, simplex@[j].w), true),
        forall|a: Vec3, b: Vec3, c: Vec3, d: Vec3|
            !(#[trigger] flat.ensures((a, b, c, d), true) && flat.ensures((a, b, c, d), false)),
    ensures
        ({
            let v = simplex@;
            let level = flat.ensures((v[0].w, v[1].w, v[2].w, v[3].w), true);
            &&& level ==> r is Axis
            &&& flat.ensures((v[0].w, v[1].w, v[2].w, v[3].w), false) ==> r is Expanded
            &&& r is Axis ==> exists|tests: [AxisOverlap; 3]| #[trigger] axes.ensures((), tests)
            &&& r is Expanded ==> exists|flip: [bool; 4]| #[trigger]
                facing.ensures((v[0].w, v[1].w, v[2].w, v[3].w), flip) && expansion_done(
                    *support,
                    *arith,
                    v,
                    flip@,
                    rounds as int,
                    r->Expanded_0,
                )
        }),
{
    let f = alike_by(alike);
    lemma_all_distinct(simplex@, f, 4);
    let verts = distinct_vertices_of(simplex@, f, simplex@.len() as int);
    assert(verts =~= simplex@);
    assert(verts.take(4) =~= simplex@);
}

proof fn lemma_all_distinct(s: Seq<SimplexVertex>, alike: spec_fn(Vec3, Vec3) -> bool, n: int)
    requires
        0 <= n <= s.len(),
        forall|i: int, j: int|
            #![trigger s[i], s[j]]
            0 <= i < j < s.len() ==> !alike(s[i].w, s[j].w),
    ensures
        distinct_vertices_of(s, alike, n) == s.take(n),
    decreases n,
{
    if n > 0 {
        lemma_all_distinct(s, alike, n - 1);
        let before = distinct_vertices_of(s, alike, n - 1);
        assert(before == s.take(n - 1));
        assert forall|j: int| 0 <= j < before.len() implies !alike(
            (#[trigger] before[j]).w,
            s[n - 1].w,
        ) by {
            assert(before[j] == s[j]);
        }
        assert(s.take(n) =~= s.take(n - 1).push(s[n - 1]));
    } else {
        assert(s.take(0) =~= Seq::<SimplexVertex>::empty());
    }
}

/// The penetration found by growing a surface is never negative, and unless nothing was
/// measured it is that of a face of the surface whose distance is the least: its normal
/// turned round, its distance as the depth, and the point that belongs to the face.
pub proof fn the_nearest_face_gives_the_way_out<
    S: Fn(Vec3) -> SimplexVertex,
    P: Fn(Vec3, Vec3, Vec3) -> Option<(Vec3, Scalar)>,
    N: Fn(Vec3, Vec3, Scalar) -> bool,
    V: Fn(Vec3, Vec3, Vec3, Vec3) -> bool,
    W: Fn(SimplexVertex, SimplexVertex, SimplexVertex, Vec3, Scalar) -> Vec3,
>(
    simplex: Vec<SimplexVertex>,
    flip: &[bool; 4],
    rounds: usize,
    support: &S,
    arith: &EpaArith<P, N, V, W>,
    end: EpaBest,
)
    requires
        simplex@.len() == 4,
        call_ensures(
            epa_from_simplex::<S, P, N, V, W>,
            (simplex, flip, rounds, support, arith),
            end,
        ),
    ensures
        !end.depth.lt_spec(Scalar { bits: 0 }),
        rounds == 0 ==> end.depth.bits == 0 && end.normal.x.bits == 0x3f80_0000 && end.point
            == simplex@[0].a,
        (end.depth.bits == 0 && end.normal.x.bits == 0x3f80_0000 && end.point == simplex@[0].a)
            || exists|a: SimplexVertex, b: SimplexVertex, c: SimplexVertex, n: Vec3, d: Scalar|
            #[trigger] arith.witness.ensures((a, b, c, n, d), end.point) && end.normal == n.neg_spec()
                && (above_zero(d) ==> end.depth == d) && (!above_zero(d) ==> end.depth.magnitude()
                == 0) && arith.plane.ensures((a.w, b.w, c.w), Some((n, d))),
{
    let states = choose|states: Seq<EpaState>| #[trigger]
        epa_trace(*support, *arith, states) && states[0] == epa_first(simplex@, flip@) && epa_ends(
            *support,
            *arith,
            rounds as int,
            states,
            end,
        );
    let n = states.len() - 1;
    lemma_best(*support, *arith, states, n);
    let last = states[n];
    assert(last == states.last());
    if states.len() == rounds + 1 || (states.len() > 1 && last.faces.len() > 64) {
        assert(end == last.best);
    } else if end == last.best && exists|planes: Seq<Option<(Vec3, Scalar)>>| #[trigger]
        planes_measured(arith.plane, last.verts, last.faces, planes) && crate::epa::no_face(planes) {
    } else {
        let (planes, k, vertex) = choose|
            planes: Seq<Option<(Vec3, Scalar)>>,
            k: int,
            vertex: SimplexVertex,
        | #[trigger] round_sees(*support, *arith, last, planes, k, end, vertex);
        assert(round_sees(*support, *arith, last, planes, k, end, vertex));
        lemma_best_seen(*support, *arith, last, planes, k, end, vertex);
    }
}

/// The state's best is what it started with or what some face gave.
spec fn best_held<
    P: Fn(Vec3, Vec3, Vec3) -> Option<(Vec3, Scalar)>,
    N: Fn(Vec3, Vec3, Scalar) -> bool,
    V: Fn(Vec3, Vec3, Vec3, Vec3) -> bool,
    W: Fn(SimplexVertex, SimplexVertex, SimplexVertex, Vec3, Scalar) -> Vec3,
>(arith: EpaArith<P, N, V, W>, best: EpaBest) -> bool {
    exists|a: SimplexVertex, b: SimplexVertex, c: SimplexVertex, n: Vec3, d: Scalar| #[trigger]
        arith.witness.ensures((a, b, c, n, d), best.point) && best.normal == n.neg_spec() && (
        above_zero(d) ==> best.depth == d) && (!above_zero(d) ==> best.depth.magnitude() == 0)
            && arith.plane.ensures((a.w, b.w, c.w), Some((n, d)))
}

proof fn lemma_best_seen<
    S: Fn(Vec3) -> SimplexVertex,
    P: Fn(Vec3, Vec3, Vec3) -> Option<(Vec3, Scalar)>,
    N: Fn(Vec3, Vec3, Scalar) -> bool,
    V: Fn(Vec3, Vec3, Vec3, Vec3) -> bool,
    W: Fn(SimplexVertex, SimplexVertex, SimplexVertex, Vec3, Scalar) -> Vec3,
>(
    support: S,
    arith: EpaArith<P, N, V, W>,
    st: EpaState,
    planes: Seq<Option<(Vec3, Scalar)>>,
    k: int,
    best: EpaBest,
    vertex: SimplexVertex,
)
    requires
        round_sees(support, arith, st, planes, k, best, vertex),
    ensures
        best_held(arith, best),
        !best.depth.lt_spec(Scalar { bits: 0 }),
{
    let f = st.faces[k];
    let (n, d) = planes[k].unwrap();
    assert(arith.witness.ensures(
        (st.verts[f.a as int], st.verts[f.b as int], st.verts[f.c as int], n, d),
        best.point,
    ));
    assert(arith.plane.ensures(
        (st.verts[f.a as int].w, st.verts[f.b as int].w, st.verts[f.c as int].w),
        planes[k],
    ));
}

proof fn lemma_best<
    S: Fn(Vec3) -> SimplexVertex,
    P: Fn(Vec3, Vec3, Vec3) -> Option<(Vec3, Scalar)>,
    N: Fn(Vec3, Vec3, Scalar) -> bool,
    V: Fn(Vec3, Vec3, Vec3, Vec3) -> bool,
    W: Fn(SimplexVertex, SimplexVertex, SimplexVertex, Vec3, Scalar) -> Vec3,
>(support: S, arith: EpaArith<P, N, V, W>, states: Seq<EpaState>, k: int)
    requires
        epa_trace(support, arith, states),
        0 <= k < states.len(),
    ensures
        k > 0 ==> best_held(arith, states[k].best) && !states[k].best.depth.lt_spec(
            Scalar { bits: 0 },
        ),
{
    if k > 0 {
        let st = states[k - 1];
        assert(epa_grows(support, arith, states[k - 1], states[k - 1 + 1]));
        let next = states[k];
        let (planes, q, vertex, visible) = choose|
            planes: Seq<Option<(Vec3, Scalar)>>,
            q: int,
            vertex: SimplexVertex,
            visible: Seq<bool>,
        |
            {
                &&& #[trigger] round_sees(support, arith, st, planes, q, next.best, vertex)
                &&& #[trigger] crate::epa::visible_from(
                    arith.sees,
                    st.verts,
                    st.faces,
                    vertex.w,
                    visible,
                )
            };
        lemma_best_seen(support, arith, st, planes, q, next.best, vertex);
    }
}

} // verus!
