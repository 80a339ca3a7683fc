//! What triangle meshes promise.

use crate::extract::accepts;
use crate::mesh::{
    bin_count, bin_index, closest, corners_exist, in_band, in_dims, quad_tris, reaching, tri_region,
    walk_bin, walk_tris, walked, wrapped, BinQuery, BinSpan, MeshGrid, TriMesh, TriProducts, TriRegion,
};
use crate::scalar::{Scalar, Vec3};
use crate::select::{indices_where, lemma_indices_where};
use vstd::prelude::*;

verus! {

/// A mesh keeps exactly the triangles whose corners exist, in their order, with the
/// normal of the three corners each, and all vertices.
pub proof fn meshes_keep_whole_triangles<N: Fn(Vec3, Vec3, Vec3) -> Vec3>(
    verts: Vec<Vec3>,
    tris: Vec<[u32; 3]>,
    normal_of: N,
    r: TriMesh,
)
    requires
        call_ensures(TriMesh::new::<N>, (verts, tris, normal_of), r),
    ensures
        r.verts@ == verts@,
        r.grid is None,
        r.normals@.len() == r.tris@.len(),
        exists|from: Seq<int>|
            #![trigger from.len()]
            {
                &&& from.len() == r.tris@.len()
                &&& forall|x: int, y: int|
                    0 <= x < y < from.len() ==> #[trigger] from[x] < #[trigger] from[y]
                &&& forall|x: int|
                    #![trigger from[x]]
                    0 <= x < from.len() ==> 0 <= from[x] < tris@.len() && r.tris@[x] == tris@[from[x]]
                &&& forall|t: int|
                    #![trigger tris@[t]]
                    0 <= t < tris@.len() ==> (from.contains(t) <==> tris@[t]@[0] < verts@.len()
                        && tris@[t]@[1] < verts@.len() && tris@[t]@[2] < verts@.len())
            },
        forall|k: int|
            #![trigger r.normals@[k]]
            0 <= k < r.tris@.len() ==> normal_of.ensures(
                (
                    verts@[r.tris@[k]@[0] as int],
                    verts@[r.tris@[k]@[1] as int],
                    verts@[r.tris@[k]@[2] as int],
                ),
                r.normals@[k],
            ),
{
    let p = corners_exist(tris@, verts@.len());
    let from = indices_where(p, tris@.len());
    lemma_indices_where(p, tris@.len());
    assert(from.len() == r.tris@.len());
    assert forall|t: int|
        #![trigger tris@[t]]
        0 <= t < tris@.len() implies (from.contains(t) <==> tris@[t]@[0] < verts@.len()
        && tris@[t]@[1] < verts@.len() && tris@[t]@[2] < verts@.len()) by {
        crate::select::lemma_indices_where_contains(p, tris@.len(), t);
        assert(p(t) == (tris@[t]@[0] < verts@.len() && tris@[t]@[1] < verts@.len() && tris@[t]@[2]
            < verts@.len()));
    }
}

/// The bin of a place: planes of constant first coordinate, rows of constant second.
pub open spec fn bin_at(dims: (u32, u32, u32), x: int, y: int, z: int) -> int {
    z + dims.2 * (y + dims.1 * x)
}

/// A grid is built exactly for a mesh with triangles and a number of bins that is
/// neither zero nor over two million; each bin lists exactly the triangles whose span
/// reaches it, in order; the mesh itself stays.
pub proof fn bins_list_what_reaches_them(
    mesh: &mut TriMesh,
    origin: Vec3,
    bin: Scalar,
    dims: (u32, u32, u32),
    spans: &[BinSpan],
    x: int,
    y: int,
    z: int,
    t: u32,
)
    requires
        old(mesh).wf(),
        spans@.len() == old(mesh).tris@.len(),
        call_ensures(TriMesh::build_grid, (mesh, origin, bin, dims, spans), ()),
    ensures
        final(mesh).verts@ == old(mesh).verts@,
        final(mesh).tris@ == old(mesh).tris@,
        final(mesh).normals@ == old(mesh).normals@,
        final(mesh).grid is Some <==> old(mesh).tris@.len() > 0 && 0 < dims.0 * dims.1 * dims.2
            <= 0x20_0000,
        final(mesh).grid is Some ==> {
            let g = final(mesh).grid.unwrap();
            &&& g.origin == origin
            &&& g.bin == bin
            &&& g.dims == dims
            &&& g.bins@.len() == dims.0 * dims.1 * dims.2
        },
        final(mesh).grid is Some && 0 <= x < dims.0 && 0 <= y < dims.1 && 0 <= z < dims.2 ==> {
            let list = final(mesh).grid.unwrap().bins@[bin_at(dims, x, y, z)]@;
            &&& list.contains(t) <==> t < spans@.len() && spans@[t as int].first.0 <= x
                <= spans@[t as int].last.0 && spans@[t as int].first.1 <= y
                <= spans@[t as int].last.1 && spans@[t as int].first.2 <= z
                <= spans@[t as int].last.2
            &&& forall|i: int, j: int| 0 <= i < j < list.len() ==> #[trigger] list[i] < #[trigger] list[j]
        },
{
    if final(mesh).grid is Some && 0 <= x < dims.0 && 0 <= y < dims.1 && 0 <= z < dims.2 {
        let g = final(mesh).grid.unwrap();
        let n = old(mesh).tris@.len();
        assert(g.lists(spans@, n));
        assert(in_dims(g.dims, x, y, z));
        let list = g.bins@[bin_index(g.dims, x, y, z)]@;
        let ints = list.map_values(|t: u32| t as int);
        let p = reaching(spans@, x, y, z);
        assert(ints == indices_where(p, n));
        lemma_indices_where(p, n);
        crate::select::lemma_indices_where_contains(p, n, t as int);
        if list.contains(t) {
            let i = choose|i: int| 0 <= i < list.len() && list[i] == t;
            assert(ints[i] == t);
        }
        if ints.contains(t as int) {
            let i = choose|i: int| 0 <= i < ints.len() && ints[i] == t as int;
            assert(list[i] == t);
        }
        assert forall|i: int, j: int| 0 <= i < j < list.len() implies #[trigger] list[i]
            < #[trigger] list[j] by {
            assert(ints[i] < ints[j]);
        }
    }
}

/// Bin `(x, y, z)` is considered: it is at most one step from the cell along each axis,
/// it is in the grid, and the question keeps it.
pub open spec fn near_bin<F: Fn(i32, i32, i32) -> bool>(
    dims: (u32, u32, u32),
    cell: (i64, i64, i64),
    keep: F,
    x: int,
    y: int,
    z: int,
) -> bool {
    &&& 0 <= x < dims.0 && 0 <= y < dims.1 && 0 <= z < dims.2
    &&& -1 <= x - cell.0 <= 1 && -1 <= y - cell.1 <= 1 && -1 <= z - cell.2 <= 1
    &&& keep.ensures((x as i32, y as i32, z as i32), true)
}

proof fn lemma_walked(
    mesh: &TriMesh,
    cell: (i64, i64, i64),
    keep: spec_fn(int, int, int) -> bool,
    o: int,
    t: u32,
)
    requires
        mesh.grid is Some,
        0 <= o <= 27,
    ensures
        walked(&mesh.grid.unwrap(), cell, keep, o).contains(t) <==> exists|q: int|
            0 <= q < o && #[trigger] walk_tris(&mesh.grid.unwrap(), cell, keep, q).contains(t),
    decreases o,
{
    let g = mesh.grid.unwrap();
    if o > 0 {
        lemma_walked(mesh, cell, keep, o - 1, t);
        let before = walked(&g, cell, keep, o - 1);
        let here = walk_tris(&g, cell, keep, o - 1);
        let all = walked(&g, cell, keep, o);
        assert(all == before + here);
        if all.contains(t) {
            let i = choose|i: int| 0 <= i < all.len() && all[i] == t;
            if i < before.len() {
                assert(before[i] == t);
                assert(before.contains(t));
            } else {
                assert(here[i - before.len()] == t);
                assert(walk_tris(&g, cell, keep, o - 1).contains(t));
            }
        }
        if exists|q: int| 0 <= q < o && #[trigger] walk_tris(&g, cell, keep, q).contains(t) {
            let q = choose|q: int| 0 <= q < o && #[trigger] walk_tris(&g, cell, keep, q).contains(t);
            if q < o - 1 {
                assert(before.contains(t));
                let i = choose|i: int| 0 <= i < before.len() && before[i] == t;
                assert(all[i] == t);
            } else {
                let i = choose|i: int| 0 <= i < here.len() && here[i] == t;
                assert(all[before.len() + i] == t);
            }
        }
    }
}

/// A considered bin lists the triangle.
pub open spec fn listed_near<F: Fn(i32, i32, i32) -> bool>(
    g: MeshGrid,
    cell: (i64, i64, i64),
    keep: F,
    x: int,
    y: int,
    z: int,
    t: u32,
) -> bool {
    near_bin(g.dims, cell, keep, x, y, z) && g.bins@[bin_at(g.dims, x, y, z)]@.contains(t)
}

proof fn lemma_offsets(cell: (i64, i64, i64), x: int, y: int, z: int) -> (o: int)
    requires
        -1 <= x - cell.0 <= 1,
        -1 <= y - cell.1 <= 1,
        -1 <= z - cell.2 <= 1,
    ensures
        0 <= o < 27,
        walk_bin(cell, o) == (x, y, z),
{
    let (i, j, k) = (x - cell.0 + 1, y - cell.1 + 1, z - cell.2 + 1);
    let o = 9 * i + 3 * j + k;
    assert(o / 9 == i && (o / 3) % 3 == j && o % 3 == k) by {
        assert(i == 0 || i == 1 || i == 2);
        assert(j == 0 || j == 1 || j == 2);
        assert(k == 0 || k == 1 || k == 2);
    }
    o
}

proof fn lemma_small(v: int)
    requires
        0 <= v < 0x1_0000_0000,
    ensures
        wrapped(v) == v,
{
}

proof fn lemma_near_is_walked<F: Fn(i32, i32, i32) -> bool>(
    g: MeshGrid,
    cell: (i64, i64, i64),
    keep: F,
    x: int,
    y: int,
    z: int,
    t: u32,
)
    requires
        listed_near(g, cell, keep, x, y, z, t),
    ensures
        exists|q: int| 0 <= q < 27 && #[trigger] walk_tris(&g, cell, accepts(keep), q).contains(t),
{
    let o = lemma_offsets(cell, x, y, z);
    lemma_small(x);
    lemma_small(y);
    lemma_small(z);
    assert(accepts(keep)(x, y, z));
    assert(walk_tris(&g, cell, accepts(keep), o).contains(t));
}

proof fn lemma_walked_is_near<F: Fn(i32, i32, i32) -> bool>(
    g: MeshGrid,
    cell: (i64, i64, i64),
    keep: F,
    o: int,
    t: u32,
)
    requires
        -1 <= cell.0 <= 0x7fff_ffff,
        -1 <= cell.1 <= 0x7fff_ffff,
        -1 <= cell.2 <= 0x7fff_ffff,
        0 <= o < 27,
        walk_tris(&g, cell, accepts(keep), o).contains(t),
    ensures
        exists|x: int, y: int, z: int| #[trigger] listed_near(g, cell, keep, x, y, z, t),
{
    let w = walk_bin(cell, o);
    assert(0 <= o / 9 <= 2 && 0 <= (o / 3) % 3 <= 2 && 0 <= o % 3 <= 2);
    lemma_small(w.0);
    lemma_small(w.1);
    lemma_small(w.2);
    assert(accepts(keep)(w.0, w.1, w.2));
    assert(listed_near(g, cell, keep, w.0, w.1, w.2, t));
}

/// The triangles to look at near a place are exactly those that a bin at most one step
/// away lists, among the bins that are kept; far from the grid, or without one, they
/// are all triangles.
pub proof fn candidates_are_those_of_the_near_bins<F: Fn(i32, i32, i32) -> bool>(
    mesh: &TriMesh,
    query: BinQuery,
    keep: F,
    r: Vec<u32>,
    t: u32,
)
    requires
        mesh.wf(),
        !query.far ==> -1 <= query.cell.0 <= 0x7fff_ffff && -1 <= query.cell.1 <= 0x7fff_ffff && -1
            <= query.cell.2 <= 0x7fff_ffff,
        call_ensures(TriMesh::candidates::<F>, (mesh, query, keep), r),
    ensures
        query.far || mesh.grid is None ==> r@.len() == mesh.tris@.len() && (r@.contains(t) <==> t
            < mesh.tris@.len()),
        !query.far && mesh.grid is Some ==> (r@.contains(t) <==> exists|x: int, y: int, z: int|
            #[trigger] listed_near(mesh.grid.unwrap(), query.cell, keep, x, y, z, t)),
{
    if query.far || mesh.grid is None {
        assert(r@ == Seq::new(mesh.tris@.len(), |t: int| t as u32));
        if t < mesh.tris@.len() {
            assert(r@[t as int] == t);
        }
    } else {
        let g = mesh.grid.unwrap();
        let p = accepts(keep);
        lemma_walked(mesh, query.cell, p, 27, t);
        if r@.contains(t) {
            let o = choose|q: int|
                0 <= q < 27 && #[trigger] walk_tris(&g, query.cell, p, q).contains(t);
            lemma_walked_is_near(g, query.cell, keep, o, t);
        }
        if exists|x: int, y: int, z: int| #[trigger]
            listed_near(g, query.cell, keep, x, y, z, t) {
            let (x, y, z) = choose|x: int, y: int, z: int| #[trigger]
                listed_near(g, query.cell, keep, x, y, z, t);
            lemma_near_is_walked(g, query.cell, keep, x, y, z, t);
        }
    }
}

/// The closest of several is the first of the smallest numbers.
pub proof fn the_first_of_the_smallest_is_closest(d: &[Scalar], r: Option<usize>, j: int)
    requires
        call_ensures(closest, (d,), r),
        0 <= j < d@.len(),
    ensures
        r is Some,
        r.unwrap() < d@.len(),
        !d@[0].is_nan_spec() && !d@[j].is_nan_spec() ==> d@[r.unwrap() as int].le_spec(d@[j]),
        !d@[0].is_nan_spec() && !d@[j].is_nan_spec() && j < r.unwrap()
            ==> d@[r.unwrap() as int].lt_spec(d@[j]),
{
    assert(d@[j] == d@[j]);
    assert(d@[0] == d@[0]);
}

/// Number zero or below.
pub open spec fn low(v: Scalar) -> bool {
    v.bits == 0 || (0x8000_0000 <= v.bits <= 0xff80_0000)
}

/// Number zero or above.
pub open spec fn high(v: Scalar) -> bool {
    v.bits <= 0x7f80_0000 || v.bits == 0x8000_0000
}

/// Which feature of a triangle is closest to a place: a corner where the place lies
/// behind it on both of its edges, an edge where the place lies outside of it and
/// between its corners, and the inside where neither holds; corners and edges are
/// looked at in the order A, B, AB, C, AC, BC.
pub proof fn the_closest_feature_is_found(t: &TriProducts, r: TriRegion)
    requires
        call_ensures(tri_region, (t,), r),
    ensures
        ({
            let a = low(t.ab_from_a) && low(t.ac_from_a);
            let b = high(t.ab_from_b) && t.ac_from_b.le_spec(t.ab_from_b);
            let c = high(t.ac_from_c) && t.ab_from_c.le_spec(t.ac_from_c);
            let ab = low(t.area_ab) && high(t.ab_from_a) && low(t.ab_from_b);
            let ac = low(t.area_ac) && high(t.ac_from_a) && low(t.ac_from_c);
            let bc = low(t.area_bc) && high(t.bc_from_b) && high(t.bc_from_c);
            &&& r == TriRegion::CornerA <==> a
            &&& r == TriRegion::CornerB <==> !a && b
            &&& r == TriRegion::EdgeAb <==> !a && !b && ab
            &&& r == TriRegion::CornerC <==> !a && !b && !ab && c
            &&& r == TriRegion::EdgeAc <==> !a && !b && !ab && !c && ac
            &&& r == TriRegion::EdgeBc <==> !a && !b && !ab && !c && !ac && bc
            &&& r == TriRegion::Inside <==> !a && !b && !ab && !c && !ac && !bc
        }),
{
}

/// A contact counts exactly unless it is farther out than the skin.
pub proof fn the_skin_bounds_contacts(depth: Scalar, skin: Scalar, r: bool)
    requires
        call_ensures(in_band, (depth, skin), r),
        !depth.is_nan_spec(),
        !skin.is_nan_spec(),
    ensures
        r <==> -skin.rank() <= depth.rank(),
{
}

/// The two triangles of a quad cover its four corners and share the diagonal from the
/// first to the third; the back has them the other way round.
pub proof fn quads_are_two_triangles(front: bool, r: Vec<[u32; 3]>)
    requires
        call_ensures(quad_tris, (front,), r),
    ensures
        r@.len() == 2,
        r@[0]@[0] == 0 && r@[1]@[0] == 0,
        front ==> r@[0]@[1] == 1 && r@[0]@[2] == 2 && r@[1]@[1] == 2 && r@[1]@[2] == 3,
        !front ==> r@[0]@[1] == 2 && r@[0]@[2] == 1 && r@[1]@[1] == 3 && r@[1]@[2] == 2,
{
}

} // verus!
