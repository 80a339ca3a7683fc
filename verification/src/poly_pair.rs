//! Two polytopes in the world: the axis along which they overlap least, and the
//! contacts of the two faces that meet along it.

use crate::contact::ContactPoint;
use crate::dispatch::ClipProbe;
use crate::polytope::WorldPoly;
use crate::sat::{
    axis_source, clip_by_side_plane, clipped, clipped_contacts, collect_incident, crossings, gap,
    least_penetration, most_aligned_at, most_opposed_at, no_axis, sat_scan, select_incident_face,
    select_ref_face, separated, towards_second, vertex_feature, within_limit, AxisGap, AxisTest, ClipSide,
    ClipVertex, SatHit,
};
use crate::scalar::{Scalar, Vec3};
use crate::select::indices_where;
use vstd::prelude::*;

verus! {

impl WorldPoly {
    /// There is a face, and the faces are rings of vertices one after the other.
    pub open spec fn wf(&self) -> bool {
        &&& self.face_normal@.len() > 0
        &&& self.verts@.len() <= u32::MAX
        &&& self.face_start@.len() == self.face_normal@.len() + 1
        &&& self.face_start@[self.face_normal@.len() as int] <= self.verts@.len()
        &&& forall|f: int|
            0 <= f < self.face_normal@.len() ==> #[trigger] self.face_start@[f]
                < self.face_start@[f + 1]
    }

    /// The vertices of a face.
    pub open spec fn face(&self, f: int) -> Seq<Vec3> {
        self.verts@.subrange(self.face_start@[f] as int, self.face_start@[f + 1] as int)
    }

    pub proof fn lemma_face(&self, f: int)
        requires
            self.wf(),
            0 <= f < self.face_normal@.len(),
        ensures
            self.face_start@[f] < self.face_start@[f + 1] <= self.verts@.len(),
        decreases self.face_normal@.len() - f,
    {
        if f + 1 < self.face_normal@.len() {
            self.lemma_face(f + 1);
        }
    }

    fn face_points(&self, f: usize) -> (r: Vec<Vec3>)
        requires
            self.wf(),
            f < self.face_normal@.len(),
        ensures
            r@ == self.face(f as int),
            r@.len() > 0,
            self.face_start@[f as int] + r@.len() <= u32::MAX,
    {
        proof {
            self.lemma_face(f as int);
        }
        let total: usize = self.face_start.len();
        assert(f + 1 < total);
        let (s, e) = (self.face_start[f] as usize, self.face_start[f + 1] as usize);
        let mut r: Vec<Vec3> = Vec::new();
        let mut i: usize = s;
        assert(r@ =~= self.verts@.subrange(s as int, s as int));
        while i < e
            invariant
                s <= i <= e,
                e <= self.verts@.len(),
                r@ == self.verts@.subrange(s as int, i as int),
            decreases e - i,
        {
            r.push(self.verts[i]);
            i += 1;
            assert(r@ =~= self.verts@.subrange(s as int, i as int));
        }
        r
    }
}

/// The values that are there, in order.
pub open spec fn somes(s: Seq<Option<Vec3>>) -> Seq<Vec3>
    decreases s.len(),
{
    if s.len() == 0 {
        Seq::empty()
    } else {
        match s.last() {
            Some(v) => somes(s.drop_last()).push(v),
            None => somes(s.drop_last()),
        }
    }
}

/// The products of every edge of the first solid with every edge of the second.
pub open spec fn crossed<C: Fn(Vec3, Vec3) -> Option<Vec3>>(
    cross: C,
    ea: Seq<Vec3>,
    eb: Seq<Vec3>,
    out: Seq<Option<Vec3>>,
) -> bool {
    &&& out.len() == ea.len() * eb.len()
    &&& forall|i: int, j: int|
        0 <= i < ea.len() && 0 <= j < eb.len() ==> cross.ensures(
            (ea[i], eb[j]),
            #[trigger] out[place(i, j, eb.len() as int)],
        )
}

/// The place of the product of two edges.
pub open spec fn place(i: int, j: int, n: int) -> int {
    i * n + j
}

/// What the axes tell: each is listed with what was measured along it.
pub open spec fn axes_tested<T: Fn(Vec3) -> AxisGap>(
    test: T,
    axes: Seq<Vec3>,
    tests: Seq<AxisTest>,
) -> bool {
    &&& tests.len() == axes.len()
    &&& forall|k: int| 0 <= k < axes.len() ==> axis_tested(test, axes[k], #[trigger] tests[k])
}

/// The axis with what was measured along it.
pub open spec fn axis_tested<T: Fn(Vec3) -> AxisGap>(test: T, axis: Vec3, t: AxisTest) -> bool {
    exists|g: AxisGap| #[trigger] test.ensures((axis,), g) && t == AxisTest::of(axis, g)
}

/// The axes of two solids: the normals of the first, those of the second, and the
/// products of their edges.
pub open spec fn axes_of(a: &WorldPoly, b: &WorldPoly, crosses: Seq<Option<Vec3>>) -> Seq<Vec3> {
    a.face_normal@ + b.face_normal@ + somes(crosses)
}

/// What the tests say: nothing if an axis separates the solids or none says
/// anything, otherwise the axis of least penetration.
pub open spec fn sat_says(
    tests: Seq<AxisTest>,
    faces_a: int,
    faces_b: int,
    skin: Scalar,
    r: Option<SatHit>,
) -> bool {
    match r {
        Some(h) => {
            &&& !separated(tests, skin)
            &&& least_penetration(tests, h.index as int)
            &&& h.sep == gap(tests[h.index as int])
            &&& h.normal == towards_second(tests[h.index as int])
            &&& h.src == axis_source(h.index as int, faces_a, faces_b)
        },
        None => separated(tests, skin) || no_axis(tests),
    }
}

fn cross_all<C: Fn(Vec3, Vec3) -> Option<Vec3>>(
    cross: &C,
    ea: &Vec<Vec3>,
    eb: &Vec<Vec3>,
    axes: &mut Vec<Vec3>,
) -> (crosses: Ghost<Seq<Option<Vec3>>>)
    requires
        forall|v: Vec3, w: Vec3| #[trigger] cross.requires((v, w)),
    ensures
        crossed(*cross, ea@, eb@, crosses@),
        final(axes)@ == old(axes)@ + somes(crosses@),
{
    let ghost n = eb@.len() as int;
    let ghost mut crosses: Seq<Option<Vec3>> = Seq::empty();
    let ghost before = axes@;
    assert(axes@ =~= before + somes(crosses));
    let mut i: usize = 0;
    assert(0 * n == 0) by (nonlinear_arith);
    while i < ea.len()
        invariant
            i <= ea@.len(),
            n == eb@.len(),
            forall|v: Vec3, w: Vec3| #[trigger] cross.requires((v, w)),
            crosses.len() == i * n,
            axes@ == before + somes(crosses),
            forall|p: int, q: int|
                0 <= p < i && 0 <= q < n ==> cross.ensures(
                    (ea@[p], eb@[q]),
                    #[trigger] crosses[place(p, q, n)],
                ),
        decreases ea@.len() - i,
    {
        let mut j: usize = 0;
        while j < eb.len()
            invariant
                i < ea@.len(),
                j <= n,
                n == eb@.len(),
                forall|v: Vec3, w: Vec3| #[trigger] cross.requires((v, w)),
                crosses.len() == i * n + j,
                axes@ == before + somes(crosses),
                forall|p: int, q: int|
                    (0 <= p < i && 0 <= q < n) || (p == i && 0 <= q < j) ==> cross.ensures(
                        (ea@[p], eb@[q]),
                        #[trigger] crosses[place(p, q, n)],
                    ),
            decreases n - j,
        {
            let c = cross(ea[i], eb[j]);
            let ghost old_crosses = crosses;
            proof {
                crosses = crosses.push(c);
                assert(crosses.drop_last() =~= old_crosses);
                assert forall|p: int, q: int|
                    (0 <= p < i && 0 <= q < n) || (p == i && 0 <= q < j + 1) implies cross.ensures(
                    (ea@[p], eb@[q]),
                    #[trigger] crosses[place(p, q, n)],
                ) by {
                    if p == i && q == j {
                        assert(crosses[place(p, q, n)] == c);
                    } else {
                        assert(0 <= place(p, q, n) < old_crosses.len()) by (nonlinear_arith)
                            requires
                                (0 <= p < i && 0 <= q < n) || (p == i && 0 <= q < j),
                                old_crosses.len() == i * n + j,
                                j <= n,
                                place(p, q, n) == p * n + q,
                                0 <= i,
                                n >= 0,
                        ;
                        assert(crosses[place(p, q, n)] == old_crosses[place(p, q, n)]);
                    }
                }
            }
            match c {
                Some(v) => {
                    axes.push(v);
                },
                None => {},
            }
            assert(axes@ =~= before + somes(crosses));
            j += 1;
        }
        assert((i + 1) * n == i * n + n) by (nonlinear_arith);
        i += 1;
    }
    Ghost(crosses)
}

/// Looks for the axis of least penetration of two solids. `cross` gives the unit
/// product of two edges, or nothing if they are parallel, and `test` measures the
/// solids along an axis.
pub fn sat<C: Fn(Vec3, Vec3) -> Option<Vec3>, T: Fn(Vec3) -> AxisGap>(
    a: &WorldPoly,
    b: &WorldPoly,
    cross: &C,
    test: &T,
    skin: Scalar,
) -> (r: Option<SatHit>)
    requires
        a.face_normal@.len() + b.face_normal@.len() <= usize::MAX,
        forall|v: Vec3, w: Vec3| #[trigger] cross.requires((v, w)),
        forall|v: Vec3| #[trigger] test.requires((v,)),
    ensures
        exists|crosses: Seq<Option<Vec3>>, tests: Seq<AxisTest>|
            {
                &&& #[trigger] crossed(*cross, a.edge_dirs@, b.edge_dirs@, crosses)
                &&& #[trigger] axes_tested(*test, axes_of(a, b, crosses), tests)
                &&& sat_says(
                    tests,
                    a.face_normal@.len() as int,
                    b.face_normal@.len() as int,
                    skin,
                    r,
                )
            },
{
    let mut axes: Vec<Vec3> = Vec::new();
    append_copy(&mut axes, &a.face_normal);
    append_copy(&mut axes, &b.face_normal);
    assert(axes@ =~= a.face_normal@ + b.face_normal@);
    let Ghost(crosses) = cross_all(cross, &a.edge_dirs, &b.edge_dirs, &mut axes);
    assert(axes@ =~= axes_of(a, b, crosses));
    let mut tests: Vec<AxisTest> = Vec::new();
    let mut k: usize = 0;
    while k < axes.len()
        invariant
            k <= axes@.len(),
            tests@.len() == k,
            forall|v: Vec3| #[trigger] test.requires((v,)),
            forall|q: int| 0 <= q < k ==> axis_tested(*test, axes@[q], #[trigger] tests@[q]),
        decreases axes@.len() - k,
    {
        let axis = axes[k];
        let g = test(axis);
        tests.push(
            AxisTest { axis, degenerate: g.degenerate, ahead: g.ahead, behind: g.behind },
        );
        assert(axis_tested(*test, axis, tests@[k as int]));
        k += 1;
    }
    assert(axes_tested(*test, axes_of(a, b, crosses), tests@));
    let r = sat_scan(tests.as_slice(), a.face_normal.len(), b.face_normal.len(), skin);
    assert(sat_says(
        tests@,
        a.face_normal@.len() as int,
        b.face_normal@.len() as int,
        skin,
        r,
    ));
    r
}

/// The normal of a hit is one of the axes of the two solids, or its opposite: the axis
/// with the number of the hit.
pub proof fn hits_lie_along_an_axis<T: Fn(Vec3) -> AxisGap>(
    a: &WorldPoly,
    b: &WorldPoly,
    test: T,
    crosses: Seq<Option<Vec3>>,
    tests: Seq<AxisTest>,
    skin: Scalar,
    h: SatHit,
)
    requires
        axes_tested(test, axes_of(a, b, crosses), tests),
        sat_says(
            tests,
            a.face_normal@.len() as int,
            b.face_normal@.len() as int,
            skin,
            Some(h),
        ),
    ensures
        h.index < axes_of(a, b, crosses).len(),
        h.normal == axes_of(a, b, crosses)[h.index as int] || h.normal == axes_of(
            a,
            b,
            crosses,
        )[h.index as int].neg_spec(),
        h.src == axis_source(
            h.index as int,
            a.face_normal@.len() as int,
            b.face_normal@.len() as int,
        ),
{
    let axes = axes_of(a, b, crosses);
    assert(axis_tested(test, axes[h.index as int], tests[h.index as int]));
}

fn append_copy(to: &mut Vec<Vec3>, from: &Vec<Vec3>)
    ensures
        final(to)@ == old(to)@ + from@,
{
    let ghost before = to@;
    let mut i: usize = 0;
    assert(to@ =~= before + from@.take(0));
    while i < from.len()
        invariant
            i <= from@.len(),
            to@ == before + from@.take(i as int),
        decreases from@.len() - i,
    {
        to.push(from[i]);
        i += 1;
        assert(to@ =~= before + from@.take(i as int));
    }
    assert(from@.take(i as int) =~= from@);
}

/// The arithmetic of clipping: `dot` compares directions, `middle` gives the middle
/// of a ring, `side` the plane through an edge of the ring (or nothing if the edge
/// has no length), `cut` measures an edge of the polygon against a plane, and
/// `height` measures a point against the face.
pub struct ClipArith<D, M, P, C, H> {
    pub dot: D,
    pub middle: M,
    pub side: P,
    pub cut: C,
    pub height: H,
}

/// The arithmetic can be asked for anything.
pub open spec fn total_clip<
    D: Fn(Vec3, Vec3) -> Scalar,
    M: Fn(&Vec<Vec3>) -> Vec3,
    P: Fn(Vec3, Vec3, Vec3, Vec3) -> Option<Vec3>,
    C: Fn(Vec3, Vec3, Vec3, Vec3) -> ClipSide,
    H: Fn(Vec3, Vec3, Vec3) -> Scalar,
>(k: ClipArith<D, M, P, C, H>) -> bool {
    &&& forall|v: Vec3, w: Vec3| #[trigger] k.dot.requires((v, w))
    &&& forall|r: &Vec<Vec3>| #[trigger] k.middle.requires((r,))
    &&& forall|a: Vec3, b: Vec3, n: Vec3, m: Vec3| #[trigger] k.side.requires((a, b, n, m))
    &&& forall|a: Vec3, b: Vec3, w: Vec3, s: Vec3| #[trigger] k.cut.requires((a, b, w, s))
    &&& forall|v: Vec3, p: Vec3, n: Vec3| #[trigger] k.height.requires((v, p, n))
}

/// The products of the normals with a direction.
pub open spec fn dots_of<D: Fn(Vec3, Vec3) -> Scalar>(
    dot: D,
    normals: Seq<Vec3>,
    dir: Vec3,
    dots: Seq<Scalar>,
) -> bool {
    &&& dots.len() == normals.len()
    &&& forall|i: int|
        0 <= i < normals.len() ==> dot.ensures((normals[i], dir), #[trigger] dots[i])
}

/// The element after place `i` of a ring.
pub open spec fn after<A>(ring: Seq<A>, i: int) -> A {
    if i + 1 == ring.len() {
        ring[0]
    } else {
        ring[i + 1]
    }
}

/// The edges of the polygon against a plane.
pub open spec fn sides_measured<C: Fn(Vec3, Vec3, Vec3, Vec3) -> ClipSide>(
    cut: C,
    poly: Seq<ClipVertex>,
    w: Vec3,
    s: Vec3,
    sides: Seq<ClipSide>,
) -> bool {
    &&& sides.len() == poly.len()
    &&& forall|i: int|
        0 <= i < poly.len() ==> cut.ensures(
            (poly[i].point, after(poly, i).point, w, s),
            #[trigger] sides[i],
        )
}

/// The polygon between two cuts, and the counters.
pub struct ClipState {
    pub poly: Seq<ClipVertex>,
    pub probe: ClipProbe,
}

/// The polygon was cut by the plane through edge `k` of the ring.
pub open spec fn cut_by_edge<
    D: Fn(Vec3, Vec3) -> Scalar,
    M: Fn(&Vec<Vec3>) -> Vec3,
    P: Fn(Vec3, Vec3, Vec3, Vec3) -> Option<Vec3>,
    C: Fn(Vec3, Vec3, Vec3, Vec3) -> ClipSide,
    H: Fn(Vec3, Vec3, Vec3) -> Scalar,
>(
    arith: ClipArith<D, M, P, C, H>,
    ring: Seq<Vec3>,
    normal: Vec3,
    mid: Vec3,
    base: int,
    k: int,
    st: ClipState,
    next: ClipState,
) -> bool {
    exists|o: Option<Vec3>| #[trigger]
        arith.side.ensures((ring[k], after(ring, k), normal, mid), o) && match o {
            None => next == st,
            Some(s) => exists|sides: Seq<ClipSide>| #[trigger]
                sides_measured(arith.cut, st.poly, ring[k], s, sides) && next == (ClipState {
                    poly: clipped(st.poly, sides, (base + k) as u32, st.poly.len() as int),
                    probe: st.probe.after_plane(
                        st.poly.len() as u64,
                        crossings(sides, sides.len() as int) as u64,
                    ),
                }),
        }
}

/// The polygon after the cuts: it was cut by every edge of the ring in turn, until
/// nothing was left.
pub open spec fn cut_by_ring<
    D: Fn(Vec3, Vec3) -> Scalar,
    M: Fn(&Vec<Vec3>) -> Vec3,
    P: Fn(Vec3, Vec3, Vec3, Vec3) -> Option<Vec3>,
    C: Fn(Vec3, Vec3, Vec3, Vec3) -> ClipSide,
    H: Fn(Vec3, Vec3, Vec3) -> Scalar,
>(
    arith: ClipArith<D, M, P, C, H>,
    ring: Seq<Vec3>,
    normal: Vec3,
    mid: Vec3,
    base: int,
    polys: Seq<ClipState>,
) -> bool {
    &&& 1 <= polys.len() <= ring.len() + 1
    &&& forall|k: int|
        0 <= k < polys.len() - 1 ==> #[trigger] cut_by_edge(
            arith,
            ring,
            normal,
            mid,
            base,
            k,
            polys[k],
            polys[k + 1],
        )
    &&& polys.len() < ring.len() + 1 ==> polys.last().poly.len() == 0
}

/// The heights of the vertices over the face.
pub open spec fn heights_measured<H: Fn(Vec3, Vec3, Vec3) -> Scalar>(
    height: H,
    poly: Seq<ClipVertex>,
    origin: Vec3,
    normal: Vec3,
    dists: Seq<Scalar>,
) -> bool {
    &&& dists.len() == poly.len()
    &&& forall|i: int|
        0 <= i < poly.len() ==> height.ensures(
            (poly[i].point, origin, normal),
            #[trigger] dists[i],
        )
}

/// The contacts of the vertices that are low enough.
pub open spec fn low_contacts(
    poly: Seq<ClipVertex>,
    dists: Seq<Scalar>,
    limit: Scalar,
) -> Seq<ContactPoint> {
    indices_where(within_limit(dists, limit), poly.len()).map_values(
        |i: int|
            ContactPoint {
                point: poly[i].point,
                depth: dists[i].neg_spec(),
                feature: poly[i].feature,
            },
    )
}

/// The vertices of the incident face.
pub open spec fn incident_ring(inc: &WorldPoly, f: int, ref_is_a: bool) -> Seq<ClipVertex> {
    Seq::new(
        inc.face(f).len(),
        |i: int|
            ClipVertex {
                point: inc.face(f)[i],
                feature: vertex_feature((inc.face_start@[f] + i) as u32, ref_is_a),
            },
    )
}

/// The faces that meet: the one of the reference solid most along the direction,
/// and the one of the other solid most against its normal.
pub open spec fn faces_meet<D: Fn(Vec3, Vec3) -> Scalar>(
    dot: D,
    reference: &WorldPoly,
    incident: &WorldPoly,
    dir: Vec3,
    rf: int,
    f: int,
) -> bool {
    &&& 0 <= rf < reference.face_normal@.len()
    &&& 0 <= f < incident.face_normal@.len()
    &&& exists|dots: Seq<Scalar>| #[trigger]
        dots_of(dot, reference.face_normal@, dir, dots) && most_aligned_at(dots, rf)
    &&& exists|dots: Seq<Scalar>| #[trigger]
        dots_of(dot, incident.face_normal@, reference.face_normal@[rf], dots) && most_opposed_at(
            dots,
            f,
        )
}

/// The contacts are those of the polygon that is left of face `f` over the ring of
/// face `rf`.
pub open spec fn clip_gives<
    D: Fn(Vec3, Vec3) -> Scalar,
    M: Fn(&Vec<Vec3>) -> Vec3,
    P: Fn(Vec3, Vec3, Vec3, Vec3) -> Option<Vec3>,
    C: Fn(Vec3, Vec3, Vec3, Vec3) -> ClipSide,
    H: Fn(Vec3, Vec3, Vec3) -> Scalar,
>(
    arith: ClipArith<D, M, P, C, H>,
    reference: &WorldPoly,
    incident: &WorldPoly,
    ref_is_a: bool,
    limit: Scalar,
    rf: int,
    f: int,
    r: Seq<ContactPoint>,
    before: ClipProbe,
    counted: ClipProbe,
) -> bool {
    let ring = reference.face(rf);
    let normal = reference.face_normal@[rf];
    exists|v: Vec<Vec3>, mid: Vec3, polys: Seq<ClipState>, dists: Seq<Scalar>|
        {
            &&& v@ == ring
            &&& #[trigger] arith.middle.ensures((&v,), mid)
            &&& #[trigger] cut_by_ring(
                arith,
                ring,
                normal,
                mid,
                reference.face_start@[rf] as int,
                polys,
            )
            &&& polys[0] == (ClipState {
                poly: incident_ring(incident, f, ref_is_a),
                probe: before,
            })
            &&& #[trigger] heights_measured(
                arith.height,
                polys.last().poly,
                ring[0],
                normal,
                dists,
            )
            &&& r == low_contacts(polys.last().poly, dists, limit)
            &&& counted == if r.len() > 0 {
                polys.last().probe.after_call(r.len() as u64)
            } else {
                polys.last().probe
            }
        }
}

fn all_dots<D: Fn(Vec3, Vec3) -> Scalar>(dot: &D, normals: &Vec<Vec3>, dir: Vec3) -> (dots: Vec<
    Scalar,
>)
    requires
        forall|v: Vec3, w: Vec3| #[trigger] dot.requires((v, w)),
    ensures
        dots_of(*dot, normals@, dir, dots@),
{
    let mut dots: Vec<Scalar> = Vec::new();
    let mut i: usize = 0;
    while i < normals.len()
        invariant
            i <= normals@.len(),
            dots@.len() == i,
            forall|v: Vec3, w: Vec3| #[trigger] dot.requires((v, w)),
            forall|q: int|
                0 <= q < i ==> dot.ensures((normals@[q], dir), #[trigger] dots@[q]),
        decreases normals@.len() - i,
    {
        dots.push(dot(normals[i], dir));
        i += 1;
    }
    dots
}

fn measure_sides<C: Fn(Vec3, Vec3, Vec3, Vec3) -> ClipSide>(
    cut: &C,
    poly: &Vec<ClipVertex>,
    w: Vec3,
    s: Vec3,
) -> (sides: Vec<ClipSide>)
    requires
        forall|a: Vec3, b: Vec3, w: Vec3, s: Vec3| #[trigger] cut.requires((a, b, w, s)),
    ensures
        sides_measured(*cut, poly@, w, s, sides@),
{
    let m: usize = poly.len();
    let mut sides: Vec<ClipSide> = Vec::new();
    let mut i: usize = 0;
    while i < m
        invariant
            i <= m,
            m == poly@.len(),
            sides@.len() == i,
            forall|a: Vec3, b: Vec3, w: Vec3, s: Vec3| #[trigger] cut.requires((a, b, w, s)),
            forall|q: int|
                0 <= q < i ==> cut.ensures(
                    (poly@[q].point, after(poly@, q).point, w, s),
                    #[trigger] sides@[q],
                ),
        decreases m - i,
    {
        let next: usize = if i + 1 == m {
            0
        } else {
            i + 1
        };
        assert(poly@[next as int] == after(poly@, i as int));
        sides.push(cut(poly[i].point, poly[next].point, w, s));
        i += 1;
    }
    sides
}

fn count_crossings(sides: &Vec<ClipSide>) -> (n: usize)
    ensures
        n == crossings(sides@, sides@.len() as int),
        n <= sides@.len(),
{
    let mut n: usize = 0;
    let mut i: usize = 0;
    while i < sides.len()
        invariant
            i <= sides@.len(),
            n <= i,
            n == crossings(sides@, i as int),
        decreases sides@.len() - i,
    {
        if sides[i].crosses {
            n += 1;
        }
        i += 1;
    }
    n
}

fn clip_by_side_planes<
    D: Fn(Vec3, Vec3) -> Scalar,
    M: Fn(&Vec<Vec3>) -> Vec3,
    P: Fn(Vec3, Vec3, Vec3, Vec3) -> Option<Vec3>,
    C: Fn(Vec3, Vec3, Vec3, Vec3) -> ClipSide,
    H: Fn(Vec3, Vec3, Vec3) -> Scalar,
>(
    arith: &ClipArith<D, M, P, C, H>,
    ring: &Vec<Vec3>,
    normal: Vec3,
    mid: Vec3,
    base: u32,
    start: Vec<ClipVertex>,
    probe: &mut ClipProbe,
) -> (r: (Vec<ClipVertex>, Ghost<Seq<ClipState>>))
    requires
        total_clip(*arith),
        base + ring@.len() <= u32::MAX,
    ensures
        cut_by_ring(*arith, ring@, normal, mid, base as int, r.1@),
        r.1@[0] == (ClipState { poly: start@, probe: *old(probe) }),
        r.1@.last() == (ClipState { poly: r.0@, probe: *final(probe) }),
{
    let n: usize = ring.len();
    let ghost start0 = ClipState { poly: start@, probe: *probe };
    let mut poly: Vec<ClipVertex> = start;
    let ghost mut polys: Seq<ClipState> = seq![start0];
    let mut k: usize = 0;
    while k < n
        invariant
            k <= n,
            n == ring@.len(),
            total_clip(*arith),
            base + ring@.len() <= u32::MAX,
            polys.len() == k + 1,
            start0 == (ClipState { poly: start@, probe: *old(probe) }),
            polys[0] == start0,
            polys.last() == (ClipState { poly: poly@, probe: *probe }),
            forall|q: int|
                0 <= q < k ==> #[trigger] cut_by_edge(
                    *arith,
                    ring@,
                    normal,
                    mid,
                    base as int,
                    q,
                    polys[q],
                    polys[q + 1],
                ),
        decreases n - k,
    {
        let next: usize = if k + 1 == n {
            0
        } else {
            k + 1
        };
        assert(ring@[next as int] == after(ring@, k as int));
        let o = (arith.side)(ring[k], ring[next], normal, mid);
        let ghost before = ClipState { poly: poly@, probe: *probe };
        let ghost old_polys = polys;
        if let Some(s) = o {
            let sides = measure_sides(&arith.cut, &poly, ring[k], s);
            probe.count_plane(poly.len() as u64, count_crossings(&sides) as u64);
            poly = clip_by_side_plane(poly.as_slice(), sides.as_slice(), base + k as u32);
            assert(sides_measured(arith.cut, before.poly, ring@[k as int], s, sides@));
        }
        proof {
            assert(arith.side.ensures(
                (ring@[k as int], after(ring@, k as int), normal, mid),
                o,
            ));
            assert(cut_by_edge(
                *arith,
                ring@,
                normal,
                mid,
                base as int,
                k as int,
                before,
                ClipState { poly: poly@, probe: *probe },
            ));
            polys = polys.push(ClipState { poly: poly@, probe: *probe });
            assert forall|q: int| 0 <= q < k + 1 implies #[trigger] cut_by_edge(
                *arith,
                ring@,
                normal,
                mid,
                base as int,
                q,
                polys[q],
                polys[q + 1],
            ) by {
                assert(polys[q] == old_polys[q]);
                if q < k {
                    assert(polys[q + 1] == old_polys[q + 1]);
                    assert(cut_by_edge(
                        *arith,
                        ring@,
                        normal,
                        mid,
                        base as int,
                        q,
                        old_polys[q],
                        old_polys[q + 1],
                    ));
                }
            }
        }
        k += 1;
        if poly.len() == 0 {
            return (poly, Ghost(polys));
        }
    }
    (poly, Ghost(polys))
}

/// The contacts of the two faces that meet along a direction: the incident face is
/// cut to the ring of the reference face, and what is left and not higher than
/// `limit` over it makes the contacts.
pub fn clip<
    D: Fn(Vec3, Vec3) -> Scalar,
    M: Fn(&Vec<Vec3>) -> Vec3,
    P: Fn(Vec3, Vec3, Vec3, Vec3) -> Option<Vec3>,
    C: Fn(Vec3, Vec3, Vec3, Vec3) -> ClipSide,
    H: Fn(Vec3, Vec3, Vec3) -> Scalar,
>(
    arith: &ClipArith<D, M, P, C, H>,
    reference: &WorldPoly,
    incident: &WorldPoly,
    ref_is_a: bool,
    dir: Vec3,
    limit: Scalar,
    probe: &mut ClipProbe,
) -> (r: Vec<ContactPoint>)
    requires
        total_clip(*arith),
        reference.wf(),
        incident.wf(),
    ensures
        exists|rf: int, f: int|
            {
                &&& #[trigger] faces_meet(arith.dot, reference, incident, dir, rf, f)
                &&& clip_gives(
                    *arith,
                    reference,
                    incident,
                    ref_is_a,
                    limit,
                    rf,
                    f,
                    r@,
                    *old(probe),
                    *final(probe),
                )
            },
{
    let dots = all_dots(&arith.dot, &reference.face_normal, dir);
    let rf: usize = select_ref_face(dots.as_slice());
    assert(most_aligned_at(dots@, rf as int));
    let normal: Vec3 = reference.face_normal[rf];
    let ring = reference.face_points(rf);
    let inc_dots = all_dots(&arith.dot, &incident.face_normal, normal);
    let f: usize = select_incident_face(inc_dots.as_slice());
    assert(most_opposed_at(inc_dots@, f as int));
    assert(faces_meet(arith.dot, reference, incident, dir, rf as int, f as int));
    let points = incident.face_points(f);
    proof {
        incident.lemma_face(f as int);
        reference.lemma_face(rf as int);
    }
    let start = collect_incident(points.as_slice(), incident.face_start[f], ref_is_a);
    assert(start@ =~= incident_ring(incident, f as int, ref_is_a));
    let mid = (arith.middle)(&ring);
    let (poly, Ghost(polys)) = clip_by_side_planes(
        arith,
        &ring,
        normal,
        mid,
        reference.face_start[rf],
        start,
        probe,
    );
    let mut dists: Vec<Scalar> = Vec::new();
    let mut i: usize = 0;
    while i < poly.len()
        invariant
            i <= poly@.len(),
            dists@.len() == i,
            ring@.len() > 0,
            total_clip(*arith),
            forall|q: int|
                0 <= q < i ==> arith.height.ensures(
                    (poly@[q].point, ring@[0], normal),
                    #[trigger] dists@[q],
                ),
        decreases poly@.len() - i,
    {
        dists.push((arith.height)(poly[i].point, ring[0], normal));
        i += 1;
    }
    let r = clipped_contacts(poly.as_slice(), dists.as_slice(), limit);
    if r.len() > 0 {
        probe.count_call(r.len() as u64);
    }
    proof {
        assert(heights_measured(arith.height, polys.last().poly, ring@[0], normal, dists@));
        assert(arith.middle.ensures((&ring,), mid));
        assert(r@ =~= low_contacts(polys.last().poly, dists@, limit));
        assert(clip_gives(
            *arith,
            reference,
            incident,
            ref_is_a,
            limit,
            rf as int,
            f as int,
            r@,
            *old(probe),
            *probe,
        ));
    }
    r
}

} // verus!
