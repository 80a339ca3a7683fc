//! What the measures of stored shapes promise.

use crate::cut::{cell_chain, cell_of};
use crate::guarantees::cutting::cut_once;
use crate::mesh::TriMesh;
use crate::narrow::{approach, approach_ends, axis_reach, DefaultNarrowPhase};
use crate::polytope::{box_corner_point, face_normal_of, poly_key, rot_fp, ConvexPolytope};
use crate::rope::node_count;
use crate::scalar::{greatest_corner, least_corner, splat_spec, Quat, Scalar, Vec3};
use crate::schedule::{early_exit_eps, early_min_iters, point_reduce_after};
use crate::select::{indices_where, lemma_indices_where, lemma_indices_where_contains};
use crate::shape::Shape;
use crate::store::{highs, lows, simple, spans_of, sums_of, CompoundChild};
use crate::terrain::{HeightField, TerrainSet};
use crate::voxel::VoxelVolume;
use vstd::prelude::*;

verus! {

/// The box from `lo` to `hi` holds every point, and its corners are made of the points'
/// coordinates.
pub open spec fn tight_box(points: Seq<Vec3>, lo: Vec3, hi: Vec3) -> bool {
    &&& forall|k: int|
        0 <= k < points.len() ==> {
            let p = #[trigger] points[k];
            &&& lo.x.le_spec(p.x) && p.x.le_spec(hi.x)
            &&& lo.y.le_spec(p.y) && p.y.le_spec(hi.y)
            &&& lo.z.le_spec(p.z) && p.z.le_spec(hi.z)
        }
    &&& exists|i: int| 0 <= i < points.len() && (#[trigger] points[i]).x == lo.x
    &&& exists|i: int| 0 <= i < points.len() && (#[trigger] points[i]).y == lo.y
    &&& exists|i: int| 0 <= i < points.len() && (#[trigger] points[i]).z == lo.z
    &&& exists|i: int| 0 <= i < points.len() && (#[trigger] points[i]).x == hi.x
    &&& exists|i: int| 0 <= i < points.len() && (#[trigger] points[i]).y == hi.y
    &&& exists|i: int| 0 <= i < points.len() && (#[trigger] points[i]).z == hi.z
}

/// All coordinates are finite.
pub open spec fn all_finite(points: Seq<Vec3>) -> bool {
    forall|j: int|
        0 <= j < points.len() ==> (#[trigger] points[j]).x.is_finite_spec()
            && points[j].y.is_finite_spec() && points[j].z.is_finite_spec()
}

proof fn lemma_tight(points: Seq<Vec3>)
    requires
        all_finite(points),
        points.len() > 0,
    ensures
        tight_box(
            points,
            least_corner(points, splat_spec(Scalar { bits: 0x7f80_0000 })),
            greatest_corner(points, splat_spec(Scalar { bits: 0xff80_0000 })),
        ),
{
    let inf = splat_spec(Scalar { bits: 0x7f80_0000 });
    let neg = splat_spec(Scalar { bits: 0xff80_0000 });
    crate::guarantees::values::lemma_corner_taken(points, inf, neg);
    assert forall|k: int| 0 <= k < points.len() implies {
        let p = #[trigger] points[k];
        let lo = least_corner(points, inf);
        let hi = greatest_corner(points, neg);
        &&& lo.x.le_spec(p.x) && p.x.le_spec(hi.x)
        &&& lo.y.le_spec(p.y) && p.y.le_spec(hi.y)
        &&& lo.z.le_spec(p.z) && p.z.le_spec(hi.z)
    } by {
        crate::scalar::bounds_hold_every_point(points, k);
    }
    crate::scalar::bounds_hold_every_point(points, 0);
    assert(points[0] == points[0]);
}

/// A hull is measured by the least box round its points; an unknown or empty one has no
/// extent.
pub proof fn hulls_are_measured_by_their_box<F: Fn(Vec3, Vec3) -> Vec3>(
    np: &DefaultNarrowPhase,
    id: u32,
    half_of: F,
    r: Vec3,
    s: Vec3,
)
    requires
        call_ensures(DefaultNarrowPhase::hull_half_extents::<F>, (np, id, half_of), r),
        call_ensures(crate::store::HullStore::half_extents::<F>, (&np.hulls, id, half_of), s),
    ensures
        id >= np.hulls.hulls@.len() || np.hulls.hulls@[id as int].points@.len() == 0 ==> {
            &&& r.x.bits == 0 && r.y.bits == 0 && r.z.bits == 0
            &&& s.x.bits == 0 && s.y.bits == 0 && s.z.bits == 0
        },
        id < np.hulls.hulls@.len() && np.hulls.hulls@[id as int].points@.len() > 0 && all_finite(
            np.hulls.hulls@[id as int].points@,
        ) ==> exists|lo: Vec3, hi: Vec3| #[trigger]
            tight_box(np.hulls.hulls@[id as int].points@, lo, hi) && half_of.ensures((lo, hi), r)
                && half_of.ensures((lo, hi), s),
{
    if id < np.hulls.hulls@.len() && np.hulls.hulls@[id as int].points@.len() > 0 && all_finite(
        np.hulls.hulls@[id as int].points@,
    ) {
        lemma_tight(np.hulls.hulls@[id as int].points@);
    }
}

/// A compound is measured by the least box round the boxes of its children; an unknown or
/// empty one has no extent.
pub proof fn compounds_are_measured_by_their_box<
    S: Fn(CompoundChild) -> (Vec3, Vec3),
    F: Fn(Vec3, Vec3) -> Vec3,
>(np: &DefaultNarrowPhase, id: u32, span: S, half_of: F, r: Vec3)
    requires
        call_ensures(
            DefaultNarrowPhase::compound_half_extents::<S, F>,
            (np, id, span, half_of),
            r,
        ),
    ensures
        id >= np.compounds.items@.len() || np.compounds.items@[id as int]@.len() == 0 ==> r.x.bits
            == 0 && r.y.bits == 0 && r.z.bits == 0,
        id < np.compounds.items@.len() && np.compounds.items@[id as int]@.len() > 0 ==> exists|
            mins: Seq<Vec3>,
            maxs: Seq<Vec3>,
        |
            #![trigger mins.len(), maxs.len()]
            {
                let kids = np.compounds.items@[id as int]@;
                &&& mins.len() == kids.len()
                &&& maxs.len() == kids.len()
                &&& forall|i: int|
                    0 <= i < kids.len() ==> span.ensures((#[trigger] kids[i],), (mins[i], maxs[i]))
                &&& all_finite(mins) && all_finite(maxs) ==> exists|lo: Vec3, hi: Vec3, a: Vec3, b: Vec3|
                    #![trigger tight_box(mins, lo, a), tight_box(maxs, b, hi)]
                    tight_box(mins, lo, a) && tight_box(maxs, b, hi) && half_of.ensures((lo, hi), r)
            },
{
    if id < np.compounds.items@.len() && np.compounds.items@[id as int]@.len() > 0 {
        let kids = np.compounds.items@[id as int]@;
        let spans = choose|spans: Seq<(Vec3, Vec3)>| #[trigger]
            spans_of(span, kids, spans) && half_of.ensures(
                (
                    least_corner(lows(spans), splat_spec(Scalar { bits: 0x7f80_0000 })),
                    greatest_corner(highs(spans), splat_spec(Scalar { bits: 0xff80_0000 })),
                ),
                r,
            );
        let mins = lows(spans);
        let maxs = highs(spans);
        assert forall|i: int| 0 <= i < kids.len() implies span.ensures(
            (#[trigger] kids[i],),
            (mins[i], maxs[i]),
        ) by {
            assert(spans[i] == (mins[i], maxs[i]));
        }
        if all_finite(mins) && all_finite(maxs) {
            lemma_tight(mins);
            lemma_tight(maxs);
        }
        assert(mins.len() == maxs.len());
    }
}

/// A mesh is measured by the least box round its vertices; one without vertices has no
/// extent.
pub proof fn meshes_are_measured_by_their_box(m: &TriMesh, r: (Vec3, Vec3))
    requires
        call_ensures(TriMesh::world_bounds, (m,), r),
        all_finite(m.verts@),
    ensures
        m.verts@.len() > 0 ==> tight_box(m.verts@, r.0, r.1),
        m.verts@.len() == 0 ==> r.0.x.bits == 0 && r.0.y.bits == 0 && r.0.z.bits == 0 && r.1 == r.0,
{
    if m.verts@.len() > 0 {
        lemma_tight(m.verts@);
    }
}

/// Storing geometry in a narrow phase: the new hull has all its points, the new compound
/// exactly its children that are no compounds, in order; what was stored stays.
pub proof fn narrow_phases_store_geometry<A: Fn(Vec3, Vec3) -> Vec3, D: Fn(Vec3, usize) -> Vec3>(
    np: &mut DefaultNarrowPhase,
    points: Vec<Vec3>,
    plus: &A,
    over: &D,
    id: u32,
    nq: &mut DefaultNarrowPhase,
    children: Vec<CompoundChild>,
    kid: u32,
    j: int,
)
    requires
        old(np).hulls.hulls@.len() < u32::MAX,
        call_ensures(DefaultNarrowPhase::add_hull::<A, D>, (np, points, plus, over), id),
        old(nq).compounds.items@.len() < u32::MAX,
        call_ensures(DefaultNarrowPhase::add_compound, (nq, children), kid),
    ensures
        id == old(np).hulls.hulls@.len(),
        final(np).hulls.hulls@.len() == id + 1,
        0 <= j < id ==> final(np).hulls.hulls@[j] == old(np).hulls.hulls@[j],
        final(np).hulls.hulls@[id as int].points@ == points@,
        final(np).compounds == old(np).compounds,
        exists|sums: Seq<Vec3>|
            #![trigger sums.len()]
            {
                &&& sums.len() == points@.len() + 1
                &&& sums[0].x.bits == 0 && sums[0].y.bits == 0 && sums[0].z.bits == 0
                &&& forall|i: int|
                    #![trigger points@[i]]
                    0 <= i < points@.len() ==> plus.ensures((sums[i], points@[i]), sums[i + 1])
                &&& points@.len() > 0 ==> over.ensures(
                    (sums.last(), points@.len() as usize),
                    final(np).hulls.hulls@[id as int].centroid,
                )
            },
        kid == old(nq).compounds.items@.len(),
        final(nq).compounds.items@.len() == kid + 1,
        0 <= j < kid ==> final(nq).compounds.items@[j] == old(nq).compounds.items@[j],
        final(nq).hulls == old(nq).hulls,
        exists|from: Seq<int>|
            #![trigger from.len()]
            {
                let kids = final(nq).compounds.items@[kid as int]@;
                &&& from.len() == kids.len()
                &&& forall|x: int, y: int|
                    #![trigger from[x], from[y]]
                    0 <= x < y < from.len() ==> from[x] < from[y]
                &&& forall|x: int|
                    #![trigger from[x]]
                    0 <= x < from.len() ==> 0 <= from[x] < children@.len() && kids[x]
                        == children@[from[x]]
                &&& forall|i: int|
                    #![trigger children@[i]]
                    0 <= i < children@.len() ==> (from.contains(i) <==> !(
                    children@[i].shape is Compound))
            },
{
    if 0 <= j < id {
        assert(final(np).hulls.hulls@.drop_last()[j] == old(np).hulls.hulls@[j]);
    }
    if 0 <= j < kid {
        assert(final(nq).compounds.items@.drop_last()[j] == old(nq).compounds.items@[j]);
    }
    let sums = choose|sums: Seq<Vec3>| #[trigger]
        sums_of(*plus, points@, sums) && over.ensures(
            (
                sums[points@.len() as int],
                if points@.len() == 0 {
                    1usize
                } else {
                    points@.len() as usize
                },
            ),
            final(np).hulls.hulls@[id as int].centroid,
        );
    assert(sums.len() == points@.len() + 1);
    let p = simple(children@);
    let from = indices_where(p, children@.len());
    lemma_indices_where(p, children@.len());
    let kids = final(nq).compounds.items@[kid as int]@;
    assert(from.len() == kids.len());
    assert forall|i: int| #![trigger children@[i]] 0 <= i < children@.len() implies (from.contains(i)
        <==> !(children@[i].shape is Compound)) by {
        lemma_indices_where_contains(p, children@.len(), i);
        assert(p(i) == !(children@[i].shape is Compound));
    }
}

/// A stored hull breaks into one cell for every seed, each cut from all of its points by
/// every other seed in turn; an unknown one does not break.
pub proof fn stored_hulls_break_into_cells<
    C: Fn(usize, usize) -> bool,
    K: Fn(Vec<Vec3>, usize, usize) -> Vec<Vec3>,
>(
    np: &DefaultNarrowPhase,
    id: u32,
    seeds: usize,
    coincide: C,
    clip: K,
    r: Option<Vec<Vec<Vec3>>>,
    i: int,
)
    requires
        call_ensures(
            DefaultNarrowPhase::fracture_hull::<C, K>,
            (np, id, seeds, coincide, clip),
            r,
        ),
        0 <= i < seeds,
    ensures
        r is Some <==> id < np.hulls.hulls@.len(),
        r is Some ==> r.unwrap()@.len() == seeds && exists|steps: Seq<Seq<Vec3>>|
            #![trigger steps.len()]
            {
                &&& steps.len() == seeds + 1
                &&& steps[0] == np.hulls.hulls@[id as int].points@
                &&& steps.last() == r.unwrap()@[i]@
                &&& forall|j: int|
                    #![trigger steps[j]]
                    0 <= j < seeds ==> {
                        &&& j == i || steps[j].len() == 0 ==> steps[j + 1] == steps[j]
                        &&& j != i && steps[j].len() > 0 ==> cut_once(
                            coincide,
                            clip,
                            i as usize,
                            j as usize,
                            steps[j],
                            steps[j + 1],
                        )
                    }
            },
{
    if r is Some {
        let points = np.hulls.hulls@[id as int].points@;
        let cells = r.unwrap()@;
        assert(cell_of(points, coincide, clip, i as usize, seeds, cells[i]@));
        let chain = choose|chain: Seq<Seq<Vec3>>| #[trigger]
            cell_chain(points, coincide, clip, i as usize, seeds, chain) && cells[i]@
                == chain[seeds as int];
        assert(chain.len() == seeds + 1);
    }
}

/// The point of an axis is approached in at most four rounds, from the start, each round
/// from the point before; it stops after the first round that changes little.
pub proof fn axis_points_are_approached<N: Fn(Vec3) -> Vec3, D: Fn(Vec3, Vec3) -> bool>(
    start: Vec3,
    next: &N,
    alike: &D,
    p: Vec3,
)
    requires
        call_ensures(axis_reach::<N, D>, (start, next, alike), p),
    ensures
        exists|points: Seq<Vec3>|
            #![trigger points.len()]
            {
                let n = points.len() - 1;
                &&& 1 <= n <= 4
                &&& points[0] == start
                &&& points[n] == p
                &&& forall|k: int|
                    #![trigger points[k]]
                    0 <= k < n ==> next.ensures((points[k],), points[k + 1])
                &&& forall|k: int|
                    #![trigger points[k]]
                    0 <= k < n - 1 ==> alike.ensures((points[k], points[k + 1]), false)
                &&& n < 4 ==> alike.ensures((points[n - 1], points[n]), true)
            },
{
    let points = choose|points: Seq<Vec3>| #[trigger]
        approach(*next, *alike, points) && approach_ends(*alike, points) && points[0] == start
            && points.last() == p;
    assert(points.len() >= 2);
}

/// Cells of a grid have numbers of their own, counted along the first axis first; a cell
/// is in range if no coordinate is below zero or past the end.
pub proof fn cells_have_their_own_numbers(
    vol: &VoxelVolume,
    x: u32,
    y: u32,
    z: u32,
    i: usize,
    ix: i32,
    iy: i32,
    iz: i32,
    r: bool,
)
    requires
        vol.wf(),
        vol.in_grid(x as int, y as int, z as int),
        call_ensures(VoxelVolume::index, (vol, x, y, z), i),
        call_ensures(VoxelVolume::in_range, (vol, ix, iy, iz), r),
    ensures
        i == x + vol.nx * y + vol.nx * vol.ny * z,
        r <==> 0 <= ix < vol.nx && 0 <= iy < vol.ny && 0 <= iz < vol.nz,
{
    let (a, b, c, d) = (vol.nx as int, vol.ny as int, y as int, z as int);
    assert(a * (c + b * d) == a * c + a * b * d) by (nonlinear_arith);
}

/// A point lies over a field if it is past neither edge. All fields can be read, and a
/// known one written, which leaves the others.
pub proof fn fields_are_found_and_written(
    hf: &HeightField,
    x: Scalar,
    z: Scalar,
    end_x: Scalar,
    end_z: Scalar,
    over: bool,
    store: &mut TerrainSet,
    id: u32,
    w: Option<&mut HeightField>,
    all: &[HeightField],
    k: int,
)
    requires
        call_ensures(HeightField::contains, (hf, x, z, end_x, end_z), over),
        call_ensures(TerrainSet::get_mut, (store, id), w),
        call_ensures(TerrainSet::slice, (&*final(store),), all),
    ensures
        over <==> hf.origin_x.le_spec(x) && x.le_spec(end_x) && hf.origin_z.le_spec(z) && z.le_spec(
            end_z,
        ),
        w is Some <==> id < old(store).heightfields@.len(),
        all@.len() == old(store).heightfields@.len(),
        0 <= k < all@.len() && k != id ==> all@[k] == old(store).heightfields@[k],
{
}

/// A face of a box looks along its axis, the odd ones backwards; corner `c` is on the upper
/// side along those axes whose bit is set.
pub proof fn box_corners_follow_their_bits(axes: &[Vec3; 3], face: usize, n: Vec3, half: Vec3, c: u32, p: Vec3)
    requires
        face < 6,
        call_ensures(face_normal_of, (axes, face), n),
        c < 8,
        call_ensures(box_corner_point, (half, c), p),
    ensures
        face == 0 ==> n == axes@[0],
        face == 1 ==> n == axes@[0].neg_spec(),
        face == 2 ==> n == axes@[1],
        face == 3 ==> n == axes@[1].neg_spec(),
        face == 4 ==> n == axes@[2],
        face == 5 ==> n == axes@[2].neg_spec(),
        c == 1 || c == 3 || c == 5 || c == 7 ==> p.x == half.x,
        c == 0 || c == 2 || c == 4 || c == 6 ==> p.x == half.x.neg_spec(),
        c == 2 || c == 3 || c == 6 || c == 7 ==> p.y == half.y,
        c == 0 || c == 1 || c == 4 || c == 5 ==> p.y == half.y.neg_spec(),
        c >= 4 ==> p.z == half.z,
        c < 4 ==> p.z == half.z.neg_spec(),
{
}

/// The vertices of a face are those from its range's start up to its end, as many as it
/// says; the ranges of neighbouring faces meet.
pub proof fn faces_own_their_vertices(
    p: &ConvexPolytope,
    f: usize,
    g: usize,
    r: (usize, usize),
    s: (usize, usize),
    n: usize,
)
    requires
        p.wf(),
        g == f + 1,
        g < p.face_normal@.len(),
        call_ensures(ConvexPolytope::face_range, (p, f), r),
        call_ensures(ConvexPolytope::face_range, (p, g), s),
        call_ensures(ConvexPolytope::face_vert_count, (p, f), n),
    ensures
        n == r.1 - r.0,
        r.1 == s.0,
        s.1 <= p.verts@.len(),
        f == 0 ==> r.0 == 0,
        g + 1 == p.face_normal@.len() ==> s.1 == p.verts@.len(),
{
}

/// Boxes, cylinders and cones have a key that mixes all their measures; the other shapes
/// have none.
pub proof fn keys_mix_every_measure(shape: &Shape, k: u64)
    requires
        call_ensures(poly_key, (shape,), k),
    ensures
        !(*shape is Box) && !(*shape is Cylinder) && !(*shape is Cone) ==> k == 0,
        *shape matches Shape::Box { half } ==> k == stirred(
            stirred(stirred(0xcbf2_9ce4_8422_2324, half.x.bits), half.y.bits),
            half.z.bits,
        ),
        *shape matches Shape::Cylinder { half_height, radius } ==> k == stirred(
            stirred(stirred(0xcbf2_9ce4_8422_2327, half_height.bits), radius.bits),
            0x4180_0000,
        ),
        *shape matches Shape::Cone { half_height, radius } ==> k == stirred(
            stirred(stirred(0xcbf2_9ce4_8422_2326, half_height.bits), radius.bits),
            0x4180_0000,
        ),
{
    assert(0xcbf2_9ce4_8422_2325u64 ^ 1u64 == 0xcbf2_9ce4_8422_2324u64) by (bit_vector);
    assert(0xcbf2_9ce4_8422_2325u64 ^ 2u64 == 0xcbf2_9ce4_8422_2327u64) by (bit_vector);
    assert(0xcbf2_9ce4_8422_2325u64 ^ 3u64 == 0xcbf2_9ce4_8422_2326u64) by (bit_vector);
}

/// One pattern stirred into a key.
pub open spec fn stirred(h: u64, v: u32) -> u64 {
    ((h ^ ((v * 0x9e37_79b9_7f4a_7c15) % 0x1_0000_0000_0000_0000) as u64) * 0x100_0000_01b3
        % 0x1_0000_0000_0000_0000) as u64
}

/// The fingerprint of a rotation tells rotations apart that differ in one value only.
pub proof fn fingerprints_follow_every_value(r: Quat, s: Quat, f: u64, g: u64)
    requires
        call_ensures(rot_fp, (r,), f),
        call_ensures(rot_fp, (s,), g),
    ensures
        r.y == s.y && r.z == s.z && r.w == s.w ==> (f == g <==> r.x.bits == s.x.bits),
        r.x == s.x && r.z == s.z && r.w == s.w ==> (f == g <==> r.y.bits == s.y.bits),
        r.x == s.x && r.y == s.y && r.w == s.w ==> (f == g <==> r.z.bits == s.z.bits),
        r.x == s.x && r.y == s.y && r.z == s.z ==> (f == g <==> r.w.bits == s.w.bits),
        r.x.bits == 0 && r.y.bits == 0 && r.z.bits == 0 ==> f == r.w.bits,
{
    let (x, y, z, w) = (r.x.bits as u64, r.y.bits as u64, r.z.bits as u64, r.w.bits as u64);
    let (a, b, c, d) = (s.x.bits as u64, s.y.bits as u64, s.z.bits as u64, s.w.bits as u64);
    lemma_turns(x, a, y, y);
    lemma_turns(y, b, z, z);
    let h2 = crate::polytope::turned13(x) ^ y;
    let k2 = crate::polytope::turned13(a) ^ b;
    let h3 = crate::polytope::turned13(h2) ^ z;
    let k3 = crate::polytope::turned13(k2) ^ c;
    lemma_turns(x, a, y, b);
    lemma_turns(h2, k2, z, c);
    lemma_turns(h3, k3, w, d);
    lemma_turns(0, 0, 0, 0);
    lemma_turns(0, 0, w, w);
    assert(((0u64 << 13u64) | (0u64 >> 51u64)) ^ 0u64 == 0u64) by (bit_vector);
    assert(((0u64 << 13u64) | (0u64 >> 51u64)) ^ w == w) by (bit_vector);
}

proof fn lemma_turns(h: u64, k: u64, v: u64, u: u64)
    ensures
        v == u ==> (crate::polytope::turned13(h) ^ v == crate::polytope::turned13(k) ^ u <==> h == k),
        h == k ==> (crate::polytope::turned13(h) ^ v == crate::polytope::turned13(k) ^ u <==> v == u),
{
    assert((((h << 13u64) | (h >> 51u64)) ^ v == ((k << 13u64) | (k >> 51u64)) ^ v) ==> h == k)
        by (bit_vector);
    assert((((h << 13u64) | (h >> 51u64)) ^ v == ((h << 13u64) | (h >> 51u64)) ^ u) ==> v == u)
        by (bit_vector);
}

/// A rope has two particles at least; the bounds of the sweeps are as set.
pub proof fn small_bounds_hold(nodes: usize, n: usize, least: u32, after: u32, eps: Scalar)
    requires
        call_ensures(node_count, (nodes,), n),
        call_ensures(early_min_iters, (), least),
        call_ensures(point_reduce_after, (), after),
        call_ensures(early_exit_eps, (), eps),
    ensures
        n >= 2,
        n >= nodes,
        n == nodes || n == 2,
        least == 4,
        after == 3,
        eps.bits == 0x3b03_126f,
{
}

} // verus!
