//! Triangle meshes, with a grid of bins to find triangles near a point.

use crate::extract::{accepts, consistent};
use crate::scalar::{bounds_of, greatest_corner, least_corner, splat_spec, Scalar, Vec3};
use crate::select::indices_where;
use crate::voxel::{cell_index, lemma_cell_index};
use vstd::prelude::*;

verus! {

/// More bins than this are not made.
pub const GRID_MAX_BINS: u64 = 0x20_0000;

/// The bins that a triangle reaches, before the far end is cut at the grid.
#[derive(Clone, Copy, Debug, PartialEq, Eq)]
pub struct BinSpan {
    pub first: (u32, u32, u32),
    pub last: (u32, u32, u32),
}

/// A grid of bins; each bin lists the triangles that reach it, in order.
pub struct MeshGrid {
    pub origin: Vec3,
    pub bin: Scalar,
    pub dims: (u32, u32, u32),
    pub bins: Vec<Vec<u32>>,
}

/// A triangle mesh.
pub struct TriMesh {
    pub verts: Vec<Vec3>,
    pub tris: Vec<[u32; 3]>,
    pub normals: Vec<Vec3>,
    pub grid: Option<MeshGrid>,
}

/// The corners of the triangle exist.
pub open spec fn corners_exist(tris: Seq<[u32; 3]>, n: nat) -> spec_fn(int) -> bool {
    |k: int| tris[k]@[0] < n && tris[k]@[1] < n && tris[k]@[2] < n
}

/// The place of a bin.
pub open spec fn bin_index(dims: (u32, u32, u32), x: int, y: int, z: int) -> int {
    cell_index(dims.2 as int, dims.1 as int, z, y, x)
}

/// The bin is in the grid.
pub open spec fn in_dims(dims: (u32, u32, u32), x: int, y: int, z: int) -> bool {
    0 <= x < dims.0 && 0 <= y < dims.1 && 0 <= z < dims.2
}

/// The triangle reaches the bin.
pub open spec fn reaches(s: BinSpan, x: int, y: int, z: int) -> bool {
    s.first.0 <= x <= s.last.0 && s.first.1 <= y <= s.last.1 && s.first.2 <= z <= s.last.2
}

/// The triangles that reach the bin.
pub open spec fn reaching(spans: Seq<BinSpan>, x: int, y: int, z: int) -> spec_fn(int) -> bool {
    |t: int| reaches(spans[t], x, y, z)
}

/// How many bins a grid has.
pub open spec fn bin_count(dims: (u32, u32, u32)) -> int {
    dims.0 * dims.1 * dims.2
}

/// The grid is made: it has bins, and not too many.
pub open spec fn grid_fits(dims: (u32, u32, u32)) -> bool {
    0 < bin_count(dims) <= GRID_MAX_BINS
}

impl MeshGrid {
    /// Every bin lists, in ascending order, the first `n` triangles that reach it.
    pub open spec fn lists(&self, spans: Seq<BinSpan>, n: nat) -> bool {
        &&& grid_fits(self.dims)
        &&& self.bins@.len() == bin_count(self.dims)
        &&& forall|x: int, y: int, z: int|
            in_dims(self.dims, x, y, z) ==> (#[trigger] self.bins@[bin_index(
                self.dims,
                x,
                y,
                z,
            )])@.map_values(|t: u32| t as int) == indices_where(reaching(spans, x, y, z), n)
    }

    /// The bins are those of the grid, and list only triangles below `n`.
    pub open spec fn wf(&self, n: nat) -> bool {
        &&& grid_fits(self.dims)
        &&& self.bins@.len() == bin_count(self.dims)
        &&& forall|i: int, k: int|
            0 <= i < self.bins@.len() && 0 <= k < self.bins@[i]@.len()
                ==> #[trigger] self.bins@[i]@[k] < n
    }
}

impl TriMesh {
    /// Triangles name existing corners and have a normal each; the bins list
    /// existing triangles.
    pub open spec fn wf(&self) -> bool {
        &&& self.verts@.len() <= u32::MAX
        &&& self.tris@.len() <= u32::MAX
        &&& self.normals@.len() == self.tris@.len()
        &&& forall|k: int|
            0 <= k < self.tris@.len() ==> #[trigger] corners_exist(
                self.tris@,
                self.verts@.len(),
            )(k)
        &&& self.grid matches Some(g) ==> g.wf(self.tris@.len())
    }

    /// A mesh without grid. Triangles that name a missing corner are dropped, the
    /// others keep their order; `normal_of` gives the normal of three corners.
    pub fn new<N: Fn(Vec3, Vec3, Vec3) -> Vec3>(
        verts: Vec<Vec3>,
        tris: Vec<[u32; 3]>,
        normal_of: N,
    ) -> (r: TriMesh)
        requires
            verts@.len() <= u32::MAX,
            tris@.len() <= u32::MAX,
            forall|a: Vec3, b: Vec3, c: Vec3| #[trigger] normal_of.requires((a, b, c)),
        ensures
            r.wf(),
            r.verts@ == verts@,
            r.grid is None,
            r.tris@ == indices_where(
                corners_exist(tris@, verts@.len()),
                tris@.len(),
            ).map_values(|k: int| tris@[k]),
            forall|k: int|
                0 <= k < r.tris@.len() ==> normal_of.ensures(
                    (
                        verts@[r.tris@[k]@[0] as int],
                        verts@[r.tris@[k]@[1] as int],
                        verts@[r.tris@[k]@[2] as int],
                    ),
                    #[trigger] r.normals@[k],
                ),
    {
        let n: u32 = verts.len() as u32;
        let ghost p = corners_exist(tris@, verts@.len());
        let mut kept: Vec<[u32; 3]> = Vec::new();
        let mut normals: Vec<Vec3> = Vec::new();
        let mut i: usize = 0;
        assert(kept@ =~= indices_where(p, 0).map_values(|k: int| tris@[k]));
        while i < tris.len()
            invariant
                i <= tris@.len(),
                tris@.len() <= u32::MAX,
                n == verts@.len(),
                p == corners_exist(tris@, verts@.len()),
                forall|a: Vec3, b: Vec3, c: Vec3| #[trigger] normal_of.requires((a, b, c)),
                kept@ == indices_where(p, i as nat).map_values(|k: int| tris@[k]),
                kept@.len() <= i,
                normals@.len() == kept@.len(),
                forall|k: int|
                    0 <= k < kept@.len() ==> #[trigger] corners_exist(kept@, verts@.len())(k),
                forall|k: int|
                    0 <= k < kept@.len() ==> normal_of.ensures(
                        (
                            verts@[kept@[k]@[0] as int],
                            verts@[kept@[k]@[1] as int],
                            verts@[kept@[k]@[2] as int],
                        ),
                        #[trigger] normals@[k],
                    ),
            decreases tris@.len() - i,
        {
            let t = tris[i];
            let ghost before = kept@;
            let ghost normals_before = normals@;
            if t[0] < n && t[1] < n && t[2] < n {
                let nrm = normal_of(verts[t[0] as usize], verts[t[1] as usize], verts[t[2] as usize]);
                kept.push(t);
                normals.push(nrm);
                proof {
                    assert(p(i as int));
                    assert(kept@ =~= indices_where(p, (i + 1) as nat).map_values(
                        |k: int| tris@[k],
                    ));
                    assert forall|k: int| 0 <= k < kept@.len() implies #[trigger] corners_exist(
                        kept@,
                        verts@.len(),
                    )(k) by {
                        if k < before.len() {
                            assert(corners_exist(before, verts@.len())(k));
                            assert(kept@[k] == before[k]);
                        }
                    }
                    assert forall|k: int| 0 <= k < kept@.len() implies normal_of.ensures(
                        (
                            verts@[kept@[k]@[0] as int],
                            verts@[kept@[k]@[1] as int],
                            verts@[kept@[k]@[2] as int],
                        ),
                        #[trigger] normals@[k],
                    ) by {
                        if k < before.len() {
                            assert(kept@[k] == before[k]);
                            assert(normals@[k] == normals_before[k]);
                        }
                    }
                }
            } else {
                assert(!p(i as int));
            }
            i += 1;
        }
        TriMesh { verts, tris: kept, normals, grid: None }
    }

    /// The corners.
    pub fn verts(&self) -> (r: &Vec<Vec3>)
        ensures
            r@ == self.verts@,
    {
        &self.verts
    }

    /// The triangles.
    pub fn tris(&self) -> (r: &Vec<[u32; 3]>)
        ensures
            r@ == self.tris@,
    {
        &self.tris
    }

    /// Whether there is no triangle.
    pub fn is_empty(&self) -> (r: bool)
        ensures
            r == (self.tris@.len() == 0),
    {
        self.tris.len() == 0
    }

    /// The corners of the box around the mesh; without corners the point zero.
    pub fn world_bounds(&self) -> (r: (Vec3, Vec3))
        ensures
            r == if self.verts@.len() == 0 {
                (Vec3::zero_spec(), Vec3::zero_spec())
            } else {
                (
                    least_corner(self.verts@, splat_spec(Scalar { bits: 0x7f80_0000 })),
                    greatest_corner(self.verts@, splat_spec(Scalar { bits: 0xff80_0000 })),
                )
            },
    {
        match bounds_of(self.verts.as_slice()) {
            Some(b) => b,
            None => (Vec3::zero(), Vec3::zero()),
        }
    }
}

/// The two triangles of a quad with corners counted round its edge, facing the
/// wanted side: `front` tells whether counting on gives that side.
pub fn quad_tris(front: bool) -> (r: Vec<[u32; 3]>)
    ensures
        r@.len() == 2,
        front ==> r@[0]@ == seq![0u32, 1, 2] && r@[1]@ == seq![0u32, 2, 3],
        !front ==> r@[0]@ == seq![0u32, 2, 1] && r@[1]@ == seq![0u32, 3, 2],
{
    let mut r: Vec<[u32; 3]> = Vec::new();
    if front {
        r.push([0, 1, 2]);
        r.push([0, 2, 3]);
        assert(r@[0]@ =~= seq![0u32, 1, 2]);
        assert(r@[1]@ =~= seq![0u32, 2, 3]);
    } else {
        r.push([0, 2, 1]);
        r.push([0, 3, 2]);
        assert(r@[0]@ =~= seq![0u32, 2, 1]);
        assert(r@[1]@ =~= seq![0u32, 3, 2]);
    }
    r
}

/// The number of bins, if the grid is to be made.
fn bins_wanted(dims: (u32, u32, u32)) -> (r: Option<usize>)
    ensures
        r is Some <==> grid_fits(dims),
        r matches Some(n) ==> n == bin_count(dims),
{
    proof {
        let (a, b, c) = (dims.0 as int, dims.1 as int, dims.2 as int);
        assert(0 <= a * b <= 0xffff_ffff * 0xffff_ffff) by (nonlinear_arith)
            requires
                0 <= a <= 0xffff_ffff,
                0 <= b <= 0xffff_ffff,
        ;
        assert(0 <= (a * b) * c <= 0xffff_ffff * 0xffff_ffff * 0xffff_ffff) by (nonlinear_arith)
            requires
                0 <= a * b <= 0xffff_ffff * 0xffff_ffff,
                0 <= c <= 0xffff_ffff,
        ;
    }
    let n: u128 = dims.0 as u128 * dims.1 as u128;
    let total: u128 = n * dims.2 as u128;
    if total == 0 || total > GRID_MAX_BINS as u128 {
        None
    } else {
        Some(total as usize)
    }
}

/// Lists triangle `t` in every bin it reaches.
fn register(bins: &mut Vec<Vec<u32>>, dims: (u32, u32, u32), t: u32, span: BinSpan)
    requires
        grid_fits(dims),
        old(bins)@.len() == bin_count(dims),
    ensures
        final(bins)@.len() == old(bins)@.len(),
        forall|x: int, y: int, z: int|
            in_dims(dims, x, y, z) ==> (#[trigger] final(bins)@[bin_index(dims, x, y, z)])@
                == if reaches(span, x, y, z) {
                old(bins)@[bin_index(dims, x, y, z)]@.push(t)
            } else {
                old(bins)@[bin_index(dims, x, y, z)]@
            },
{
    let ghost before = bins@;
    proof {
        lemma_dims_positive(dims);
    }
    let x1: u32 = if span.last.0 < dims.0 - 1 {
        span.last.0
    } else {
        dims.0 - 1
    };
    let y1: u32 = if span.last.1 < dims.1 - 1 {
        span.last.1
    } else {
        dims.1 - 1
    };
    let z1: u32 = if span.last.2 < dims.2 - 1 {
        span.last.2
    } else {
        dims.2 - 1
    };
    let mut x: u32 = span.first.0;
    while x <= x1
        invariant
            grid_fits(dims),
            dims.0 > 0 && dims.1 > 0 && dims.2 > 0,
            bins@.len() == bin_count(dims),
            x1 < dims.0 && y1 < dims.1 && z1 < dims.2,
            x1 == span.last.0 || x1 == dims.0 - 1,
            y1 == span.last.1 || y1 == dims.1 - 1,
            z1 == span.last.2 || z1 == dims.2 - 1,
            x1 <= span.last.0 && y1 <= span.last.1 && z1 <= span.last.2,
            span.first.0 <= x,
            forall|u: int, v: int, w: int|
                in_dims(dims, u, v, w) ==> (#[trigger] bins@[bin_index(dims, u, v, w)])@
                    == if reaches(span, u, v, w) && u < x {
                    before[bin_index(dims, u, v, w)]@.push(t)
                } else {
                    before[bin_index(dims, u, v, w)]@
                },
        decreases x1 + 1 - x,
    {
        let mut y: u32 = span.first.1;
        while y <= y1
            invariant
                grid_fits(dims),
                dims.0 > 0 && dims.1 > 0 && dims.2 > 0,
                bins@.len() == bin_count(dims),
                x <= x1,
                x1 < dims.0 && y1 < dims.1 && z1 < dims.2,
                y1 == span.last.1 || y1 == dims.1 - 1,
                z1 == span.last.2 || z1 == dims.2 - 1,
                x1 <= span.last.0 && y1 <= span.last.1 && z1 <= span.last.2,
                span.first.0 <= x,
                span.first.1 <= y,
                forall|u: int, v: int, w: int|
                    in_dims(dims, u, v, w) ==> (#[trigger] bins@[bin_index(dims, u, v, w)])@
                        == if reaches(span, u, v, w) && (u < x || (u == x && v < y)) {
                        before[bin_index(dims, u, v, w)]@.push(t)
                    } else {
                        before[bin_index(dims, u, v, w)]@
                    },
            decreases y1 + 1 - y,
        {
            let mut z: u32 = span.first.2;
            while z <= z1
                invariant
                    grid_fits(dims),
                    dims.0 > 0 && dims.1 > 0 && dims.2 > 0,
                    bins@.len() == bin_count(dims),
                    x <= x1,
                    y <= y1,
                    x1 < dims.0 && y1 < dims.1 && z1 < dims.2,
                    z1 == span.last.2 || z1 == dims.2 - 1,
                    x1 <= span.last.0 && y1 <= span.last.1 && z1 <= span.last.2,
                    span.first.0 <= x,
                    span.first.1 <= y,
                    span.first.2 <= z,
                    forall|u: int, v: int, w: int|
                        in_dims(dims, u, v, w) ==> (#[trigger] bins@[bin_index(dims, u, v, w)])@
                            == if reaches(span, u, v, w) && (u < x || (u == x && (v < y || (v == y
                            && w < z)))) {
                            before[bin_index(dims, u, v, w)]@.push(t)
                        } else {
                            before[bin_index(dims, u, v, w)]@
                        },
                decreases z1 + 1 - z,
            {
                let i: usize = bin_place(dims, x, y, z);
                let ghost mid = bins@;
                bins[i].push(t);
                proof {
                    assert forall|u: int, v: int, w: int|
                        in_dims(dims, u, v, w) implies (#[trigger] bins@[bin_index(
                        dims,
                        u,
                        v,
                        w,
                    )])@ == if reaches(span, u, v, w) && (u < x || (u == x && (v < y || (v == y && w
                        < z + 1)))) {
                        before[bin_index(dims, u, v, w)]@.push(t)
                    } else {
                        before[bin_index(dims, u, v, w)]@
                    } by {
                        lemma_dims_positive(dims);
                        lemma_cell_index(
                            dims.2 as int,
                            dims.1 as int,
                            dims.0 as int,
                            w,
                            v,
                            u,
                            z as int,
                            y as int,
                            x as int,
                        );
                        assert(mid[bin_index(dims, u, v, w)]@ == if reaches(span, u, v, w) && (u < x
                            || (u == x && (v < y || (v == y && w < z)))) {
                            before[bin_index(dims, u, v, w)]@.push(t)
                        } else {
                            before[bin_index(dims, u, v, w)]@
                        });
                        if bin_index(dims, u, v, w) == i {
                            assert(u == x && v == y && w == z);
                        }
                    }
                }
                z += 1;
            }
            y += 1;
        }
        x += 1;
    }
}

proof fn lemma_dims_positive(dims: (u32, u32, u32))
    requires
        grid_fits(dims),
    ensures
        0 < dims.0 <= GRID_MAX_BINS,
        0 < dims.1 <= GRID_MAX_BINS,
        0 < dims.2 <= GRID_MAX_BINS,
        dims.2 * dims.1 * dims.0 == bin_count(dims),
{
    let (a, b, c) = (dims.0 as int, dims.1 as int, dims.2 as int);
    let m = GRID_MAX_BINS as int;
    assert(c * b * a == a * b * c) by (nonlinear_arith);
    assert(a > 0 && b > 0 && c > 0) by (nonlinear_arith)
        requires
            a >= 0,
            b >= 0,
            c >= 0,
            a * b * c > 0,
    ;
    assert(a <= a * b * c && b <= a * b * c && c <= a * b * c) by (nonlinear_arith)
        requires
            a >= 1,
            b >= 1,
            c >= 1,
    ;
}

/// The place of a bin of the grid.
fn bin_place(dims: (u32, u32, u32), x: u32, y: u32, z: u32) -> (i: usize)
    requires
        grid_fits(dims),
        in_dims(dims, x as int, y as int, z as int),
    ensures
        i == bin_index(dims, x as int, y as int, z as int),
        i < bin_count(dims),
{
    proof {
        lemma_dims_positive(dims);
        lemma_cell_index(
            dims.2 as int,
            dims.1 as int,
            dims.0 as int,
            z as int,
            y as int,
            x as int,
            z as int,
            y as int,
            x as int,
        );
        let (a, b, c) = (x as int, dims.1 as int, dims.2 as int);
        let d0 = dims.0 as int;
        assert(b * d0 <= c * b * d0) by (nonlinear_arith)
            requires
                c >= 1,
                b >= 1,
                d0 >= 1,
        ;
        assert(a * b == b * a) by (nonlinear_arith);
        assert((y + b * a) * c == c * (y + b * a)) by (nonlinear_arith);
        assert(0 <= b * a) by (nonlinear_arith)
            requires
                b >= 0,
                a >= 0,
        ;
        assert(0 <= c * (y + b * a)) by (nonlinear_arith)
            requires
                c >= 0,
                y + b * a >= 0,
        ;
    }
    ((x * dims.1 + y) * dims.2 + z) as usize
}

impl TriMesh {
    /// Sorts the triangles into bins. `spans` tells which bins each triangle
    /// reaches. A mesh without triangles, or one that would need too many bins,
    /// gets no grid.
    pub fn build_grid(
        &mut self,
        origin: Vec3,
        bin: Scalar,
        dims: (u32, u32, u32),
        spans: &[BinSpan],
    )
        requires
            old(self).wf(),
            spans@.len() == old(self).tris@.len(),
        ensures
            final(self).wf(),
            final(self).verts == old(self).verts,
            final(self).tris == old(self).tris,
            final(self).normals == old(self).normals,
            final(self).grid is Some <==> old(self).tris@.len() > 0 && grid_fits(dims),
            final(self).grid matches Some(g) ==> g.origin == origin && g.bin == bin && g.dims == dims
                && g.lists(spans@, old(self).tris@.len()),
    {
        self.grid = None;
        if self.tris.len() == 0 {
            return;
        }
        let wanted = bins_wanted(dims);
        if let Some(total) = wanted {
            let mut bins: Vec<Vec<u32>> = Vec::new();
            let mut i: usize = 0;
            while i < total
                invariant
                    i <= total,
                    bins@.len() == i,
                    forall|j: int| 0 <= j < i ==> (#[trigger] bins@[j])@.len() == 0,
                decreases total - i,
            {
                bins.push(Vec::new());
                i += 1;
            }
            let ghost n = self.tris@.len();
            let mut grid = MeshGrid { origin, bin, dims, bins };
            proof {
                lemma_dims_positive(dims);
                assert forall|x: int, y: int, z: int| in_dims(dims, x, y, z) implies (
                #[trigger] grid.bins@[bin_index(dims, x, y, z)])@.map_values(|t: u32| t as int)
                    == indices_where(reaching(spans@, x, y, z), 0) by {
                    lemma_cell_index(
                        dims.2 as int,
                        dims.1 as int,
                        dims.0 as int,
                        z,
                        y,
                        x,
                        z,
                        y,
                        x,
                    );
                    assert(grid.bins@[bin_index(dims, x, y, z)]@.map_values(|t: u32| t as int)
                        =~= Seq::<int>::empty());
                }
            }
            let mut t: usize = 0;
            while t < self.tris.len()
                invariant
                    n == self.tris@.len(),
                    n <= u32::MAX,
                    t <= n,
                    spans@.len() == n,
                    grid.origin == origin,
                    grid.bin == bin,
                    grid.dims == dims,
                    grid.lists(spans@, t as nat),
                decreases n - t,
            {
                let ghost before = grid.bins@;
                register(&mut grid.bins, dims, t as u32, spans[t]);
                proof {
                    assert forall|x: int, y: int, z: int| in_dims(dims, x, y, z) implies (
                    #[trigger] grid.bins@[bin_index(dims, x, y, z)])@.map_values(|t: u32| t as int)
                        == indices_where(reaching(spans@, x, y, z), (t + 1) as nat) by {
                        let old_list = before[bin_index(dims, x, y, z)]@;
                        let new_list = grid.bins@[bin_index(dims, x, y, z)]@;
                        assert(old_list.map_values(|t: u32| t as int) == indices_where(
                            reaching(spans@, x, y, z),
                            t as nat,
                        ));
                        if reaches(spans@[t as int], x, y, z) {
                            assert(new_list.map_values(|t: u32| t as int) =~= old_list.map_values(
                                |t: u32| t as int,
                            ).push(t as int));
                        }
                    }
                }
                t += 1;
            }
            proof {
                lemma_lists_is_wf(&grid, spans@, n);
            }
            self.grid = Some(grid);
        }
    }
}

/// A grid that lists the triangles lists only existing ones.
proof fn lemma_lists_is_wf(grid: &MeshGrid, spans: Seq<BinSpan>, n: nat)
    requires
        grid.lists(spans, n),
    ensures
        grid.wf(n),
{
    let dims = grid.dims;
    lemma_dims_positive(dims);
    assert forall|i: int, k: int|
        0 <= i < grid.bins@.len() && 0 <= k < grid.bins@[i]@.len() implies (
    #[trigger] grid.bins@[i]@[k]) < n by {
        lemma_bin_of_place(dims, i);
        let (x, y, z) = choose|x: int, y: int, z: int|
            in_dims(dims, x, y, z) && #[trigger] bin_index(dims, x, y, z) == i;
        let list = grid.bins@[bin_index(dims, x, y, z)]@;
        crate::select::lemma_indices_where(reaching(spans, x, y, z), n);
        assert(list.map_values(|t: u32| t as int)[k] == list[k]);
        assert(list.map_values(|t: u32| t as int).len() == list.len());
    }
}

/// Every place is that of a bin.
proof fn lemma_bin_of_place(dims: (u32, u32, u32), i: int)
    requires
        grid_fits(dims),
        0 <= i < bin_count(dims),
    ensures
        exists|x: int, y: int, z: int|
            in_dims(dims, x, y, z) && #[trigger] bin_index(dims, x, y, z) == i,
{
    lemma_dims_positive(dims);
    let (a, b, c) = (dims.0 as int, dims.1 as int, dims.2 as int);
    let z = i % c;
    let r = i / c;
    let y = r % b;
    let x = r / b;
    vstd::arithmetic::div_mod::lemma_fundamental_div_mod(i, c);
    vstd::arithmetic::div_mod::lemma_fundamental_div_mod(r, b);
    assert(i == c * r + z);
    assert(r == b * x + y);
    assert(0 <= z < c && 0 <= y < b);
    assert(r >= 0 && x >= 0) by (nonlinear_arith)
        requires
            i == c * r + z,
            r == b * x + y,
            0 <= z < c,
            0 <= y < b,
            i >= 0,
    ;
    assert(x < a) by (nonlinear_arith)
        requires
            i == c * r + z,
            r == b * x + y,
            0 <= z,
            0 <= y,
            i < a * b * c,
            b > 0,
            c > 0,
    ;
    assert(bin_index(dims, x, y, z) == i);
}

/// Where a point lies relative to the bins.
#[derive(Clone, Copy, Debug, PartialEq, Eq)]
pub struct BinQuery {
    /// More than one bin in front of the grid along some axis.
    pub far: bool,
    /// The bin of the point, which may lie outside the grid.
    pub cell: (i64, i64, i64),
}

/// A coordinate reduced to the range of bin numbers.
pub open spec fn wrapped(v: int) -> int {
    v % 0x1_0000_0000
}

/// The bin at place `o` of the walk round the bin of the point.
pub open spec fn walk_bin(cell: (i64, i64, i64), o: int) -> (int, int, int) {
    (cell.0 + o / 9 - 1, cell.1 + (o / 3) % 3 - 1, cell.2 + o % 3 - 1)
}

/// The triangles looked at for place `o` of the walk: those of the bin, if it is
/// part of the grid and `keep` accepts it.
pub open spec fn walk_tris(grid: &MeshGrid, cell: (i64, i64, i64), keep: spec_fn(int, int, int) -> bool, o: int) -> Seq<
    u32,
> {
    let w = walk_bin(cell, o);
    if w.0 < 0 || w.1 < 0 || w.2 < 0 {
        Seq::empty()
    } else {
        let (x, y, z) = (wrapped(w.0), wrapped(w.1), wrapped(w.2));
        if in_dims(grid.dims, x, y, z) && keep(x, y, z) {
            grid.bins@[bin_index(grid.dims, x, y, z)]@
        } else {
            Seq::empty()
        }
    }
}

/// The triangles looked at for the first `o` places of the walk.
pub open spec fn walked(
    grid: &MeshGrid,
    cell: (i64, i64, i64),
    keep: spec_fn(int, int, int) -> bool,
    o: int,
) -> Seq<u32>
    decreases o,
{
    if o <= 0 {
        Seq::empty()
    } else {
        walked(grid, cell, keep, o - 1) + walk_tris(grid, cell, keep, o - 1)
    }
}

/// The triangles in which the closest one is looked for.
pub open spec fn considered(
    mesh: &TriMesh,
    query: BinQuery,
    keep: spec_fn(int, int, int) -> bool,
) -> Seq<u32> {
    match mesh.grid {
        Some(g) if !query.far => walked(&g, query.cell, keep, 27),
        _ => Seq::new(mesh.tris@.len(), |t: int| t as u32),
    }
}

impl TriMesh {
    /// The triangles in which the closest one to a point is looked for: those of
    /// the 27 bins round it that `keep` accepts, or all if there is no grid or
    /// the point is far in front of it.
    pub fn candidates<F: Fn(i32, i32, i32) -> bool>(&self, query: BinQuery, keep: F) -> (r: Vec<
        u32,
    >)
        requires
            self.wf(),
            consistent(keep),
            !query.far ==> -1 <= query.cell.0 < i64::MAX && -1 <= query.cell.1 < i64::MAX && -1
                <= query.cell.2 < i64::MAX,
        ensures
            r@ == considered(self, query, accepts(keep)),
            forall|k: int| 0 <= k < r@.len() ==> #[trigger] r@[k] < self.tris@.len(),
    {
        let mut r: Vec<u32> = Vec::new();
        match &self.grid {
            Some(g) if !query.far => {
                let ghost p = accepts(keep);
                proof {
                    lemma_dims_positive(g.dims);
                }
                let mut o: i64 = 0;
                while o < 27
                    invariant
                        0 <= o <= 27,
                        g.wf(self.tris@.len()),
                        consistent(keep),
                        p == accepts(keep),
                        -1 <= query.cell.0 < i64::MAX && -1 <= query.cell.1 < i64::MAX && -1
                            <= query.cell.2 < i64::MAX,
                        r@ == walked(g, query.cell, p, o as int),
                        forall|k: int| 0 <= k < r@.len() ==> #[trigger] r@[k] < self.tris@.len(),
                    decreases 27 - o,
                {
                    let ghost before = r@;
                    let x: i64 = query.cell.0 + (o / 9 - 1);
                    let y: i64 = query.cell.1 + ((o / 3) % 3 - 1);
                    let z: i64 = query.cell.2 + (o % 3 - 1);
                    assert(walk_bin(query.cell, o as int) == (x as int, y as int, z as int));
                    if x >= 0 && y >= 0 && z >= 0 {
                        let bx: u32 = (x % 0x1_0000_0000) as u32;
                        let by: u32 = (y % 0x1_0000_0000) as u32;
                        let bz: u32 = (z % 0x1_0000_0000) as u32;
                        if bx < g.dims.0 && by < g.dims.1 && bz < g.dims.2 {
                            proof {
                                lemma_dims_positive(g.dims);
                            }
                            if keep(bx as i32, by as i32, bz as i32) {
                                let i: usize = bin_place(g.dims, bx, by, bz);
                                let list = &g.bins[i];
                                let mut k: usize = 0;
                                while k < list.len()
                                    invariant
                                        k <= list@.len(),
                                        i < g.bins@.len(),
                                        *list == g.bins@[i as int],
                                        g.wf(self.tris@.len()),
                                        r@ == before + list@.take(k as int),
                                        forall|q: int|
                                            0 <= q < r@.len() ==> #[trigger] r@[q]
                                                < self.tris@.len(),
                                    decreases list@.len() - k,
                                {
                                    assert(g.bins@[i as int]@[k as int] < self.tris@.len());
                                    r.push(list[k]);
                                    assert(r@ =~= before + list@.take(k + 1));
                                    k += 1;
                                }
                                assert(list@.take(k as int) =~= list@);
                            }
                        }
                    }
                    assert(r@ =~= before + walk_tris(g, query.cell, p, o as int));
                    o += 1;
                }
            },
            _ => {
                let mut t: usize = 0;
                while t < self.tris.len()
                    invariant
                        t <= self.tris@.len(),
                        self.tris@.len() <= u32::MAX,
                        r@.len() == t,
                        forall|k: int| 0 <= k < t ==> #[trigger] r@[k] == k,
                    decreases self.tris@.len() - t,
                {
                    r.push(t as u32);
                    t += 1;
                }
                assert(r@ =~= Seq::new(self.tris@.len(), |t: int| t as u32));
            },
        }
        r
    }
}

/// `k` is where a scan for the smallest value ends: the first value stands until
/// a smaller one comes.
pub open spec fn scan_ends_at(d: Seq<Scalar>, k: int) -> bool {
    &&& 0 <= k < d.len()
    &&& d[0].is_nan_spec() ==> k == 0
    &&& k != 0 ==> !d[k].is_nan_spec()
    &&& forall|j: int| 0 <= j < d.len() ==> !(#[trigger] d[j]).lt_spec(d[k])
    &&& forall|j: int| 0 <= j < k ==> !(#[trigger] d[j]).le_spec(d[k])
}

/// Finds the first of the smallest distances; `None` without any.
pub fn closest(d: &[Scalar]) -> (r: Option<usize>)
    ensures
        match r {
            Some(k) => scan_ends_at(d@, k as int),
            None => d@.len() == 0,
        },
{
    if d.len() == 0 {
        return None;
    }
    let mut best: usize = 0;
    let mut i: usize = 1;
    while i < d.len()
        invariant
            1 <= i <= d@.len(),
            best < i,
            scan_ends_at(d@.take(i as int), best as int),
        decreases d@.len() - i,
    {
        let ghost seen = d@.take(i as int);
        let ghost next = d@.take(i + 1);
        let ghost old_best = best;
        assert(next =~= seen.push(d@[i as int]));
        assert(seen[old_best as int] == d@[old_best as int]);
        if d[i].lt(d[best]) {
            best = i;
        }
        proof {
            assert(next[best as int] == d@[best as int]);
            assert(next[0] == seen[0]);
            assert forall|j: int| 0 <= j < next.len() implies !(#[trigger] next[j]).lt_spec(
                next[best as int],
            ) by {
                if j < i {
                    assert(seen[j] == next[j]);
                }
            }
            assert forall|j: int| 0 <= j < best implies !(#[trigger] next[j]).le_spec(
                next[best as int],
            ) by {
                assert(seen[j] == next[j]);
            }
        }
        i += 1;
    }
    assert(d@.take(i as int) =~= d@);
    Some(best)
}

/// The scan for the smallest value has one end.
pub proof fn scan_end_is_unique(d: Seq<Scalar>, j: int, k: int)
    requires
        scan_ends_at(d, j),
        scan_ends_at(d, k),
    ensures
        j == k,
{
    if j < k {
        assert(!d[j].le_spec(d[k]));
        assert(!d[k].lt_spec(d[j]));
    } else if k < j {
        assert(!d[k].le_spec(d[j]));
        assert(!d[j].lt_spec(d[k]));
    }
}

/// A triangle that reaches a bin next to that of the point is looked at, unless
/// the bin is passed over.
pub proof fn nearby_triangles_are_considered(
    mesh: &TriMesh,
    spans: Seq<BinSpan>,
    query: BinQuery,
    keep: spec_fn(int, int, int) -> bool,
    t: int,
    x: int,
    y: int,
    z: int,
)
    requires
        mesh.wf(),
        mesh.grid matches Some(g) && g.lists(spans, mesh.tris@.len()) && in_dims(
            g.dims,
            x,
            y,
            z,
        ),
        !query.far,
        0 <= t < mesh.tris@.len(),
        reaches(spans[t], x, y, z),
        keep(x, y, z),
        -1 <= x - query.cell.0 <= 1,
        -1 <= y - query.cell.1 <= 1,
        -1 <= z - query.cell.2 <= 1,
    ensures
        considered(mesh, query, keep).contains(t as u32),
{
    let g = mesh.grid->0;
    let o = (x - query.cell.0 + 1) * 9 + (y - query.cell.1 + 1) * 3 + (z - query.cell.2 + 1);
    assert(walk_bin(query.cell, o) == (x, y, z));
    let list = g.bins@[bin_index(g.dims, x, y, z)]@;
    let p = reaching(spans, x, y, z);
    let wide = list.map_values(|t: u32| t as int);
    assert(wide == indices_where(p, mesh.tris@.len()));
    crate::select::lemma_indices_where_contains(p, mesh.tris@.len(), t);
    let k = choose|k: int| 0 <= k < wide.len() && wide[k] == t;
    assert(list[k] == t as u32);
    assert(walk_tris(&g, query.cell, keep, o) == list);
    lemma_walked_contains(&g, query.cell, keep, o, 27, k);
    let q = choose|q: int|
        0 <= q < walked(&g, query.cell, keep, 27).len() && walked(&g, query.cell, keep, 27)[q]
            == t as u32;
    assert(considered(mesh, query, keep)[q] == t as u32);
}

proof fn lemma_walked_contains(
    grid: &MeshGrid,
    cell: (i64, i64, i64),
    keep: spec_fn(int, int, int) -> bool,
    o: int,
    hi: int,
    k: int,
)
    requires
        0 <= o < hi,
        0 <= k < walk_tris(grid, cell, keep, o).len(),
    ensures
        walked(grid, cell, keep, hi).contains(walk_tris(grid, cell, keep, o)[k]),
    decreases hi,
{
    let v = walk_tris(grid, cell, keep, o)[k];
    let before = walked(grid, cell, keep, hi - 1);
    let here = walk_tris(grid, cell, keep, hi - 1);
    let all = walked(grid, cell, keep, hi);
    assert(all == before + here);
    if o == hi - 1 {
        assert(all[before.len() + k] == v);
    } else {
        lemma_walked_contains(grid, cell, keep, o, hi - 1, k);
        let q = choose|q: int| 0 <= q < before.len() && before[q] == v;
        assert(all[q] == v);
    }
}

/// The part of a triangle that is nearest to a point.
#[derive(Clone, Copy, Debug, PartialEq, Eq, Structural)]
pub enum TriRegion {
    CornerA,
    CornerB,
    CornerC,
    EdgeAb,
    EdgeAc,
    EdgeBc,
    Inside,
}

/// What tells where a point lies to the triangle `a b c`: its products with the
/// sides from `a`, as seen from each corner, the areas of the three triangles it
/// spans, and how far it lies along `b c` from either end.
#[derive(Clone, Copy, Debug, PartialEq, Eq, Structural)]
pub struct TriProducts {
    pub ab_from_a: Scalar,
    pub ac_from_a: Scalar,
    pub ab_from_b: Scalar,
    pub ac_from_b: Scalar,
    pub ab_from_c: Scalar,
    pub ac_from_c: Scalar,
    pub area_ab: Scalar,
    pub area_ac: Scalar,
    pub area_bc: Scalar,
    pub bc_from_b: Scalar,
    pub bc_from_c: Scalar,
}

/// The value is not positive.
pub open spec fn at_most_zero(v: Scalar) -> bool {
    v.le_spec(Scalar::zero_spec())
}

/// The value is not negative.
pub open spec fn at_least_zero(v: Scalar) -> bool {
    Scalar::zero_spec().le_spec(v)
}

/// The first region, in the order corner `a`, corner `b`, edge `a b`, corner `c`,
/// edge `a c`, edge `b c`, whose conditions hold; the inside if none do.
pub open spec fn tri_region_spec(t: TriProducts) -> TriRegion {
    if at_most_zero(t.ab_from_a) && at_most_zero(t.ac_from_a) {
        TriRegion::CornerA
    } else if at_least_zero(t.ab_from_b) && t.ac_from_b.le_spec(t.ab_from_b) {
        TriRegion::CornerB
    } else if at_most_zero(t.area_ab) && at_least_zero(t.ab_from_a) && at_most_zero(t.ab_from_b) {
        TriRegion::EdgeAb
    } else if at_least_zero(t.ac_from_c) && t.ab_from_c.le_spec(t.ac_from_c) {
        TriRegion::CornerC
    } else if at_most_zero(t.area_ac) && at_least_zero(t.ac_from_a) && at_most_zero(t.ac_from_c) {
        TriRegion::EdgeAc
    } else if at_most_zero(t.area_bc) && at_least_zero(t.bc_from_b) && at_least_zero(t.bc_from_c) {
        TriRegion::EdgeBc
    } else {
        TriRegion::Inside
    }
}

/// The part of the triangle nearest to the point.
pub fn tri_region(t: &TriProducts) -> (r: TriRegion)
    ensures
        r == tri_region_spec(*t),
{
    let zero = Scalar::zero();
    if t.ab_from_a.le(zero) && t.ac_from_a.le(zero) {
        TriRegion::CornerA
    } else if zero.le(t.ab_from_b) && t.ac_from_b.le(t.ab_from_b) {
        TriRegion::CornerB
    } else if t.area_ab.le(zero) && zero.le(t.ab_from_a) && t.ab_from_b.le(zero) {
        TriRegion::EdgeAb
    } else if zero.le(t.ac_from_c) && t.ab_from_c.le(t.ac_from_c) {
        TriRegion::CornerC
    } else if t.area_ac.le(zero) && zero.le(t.ac_from_a) && t.ac_from_c.le(zero) {
        TriRegion::EdgeAc
    } else if t.area_bc.le(zero) && zero.le(t.bc_from_b) && zero.le(t.bc_from_c) {
        TriRegion::EdgeBc
    } else {
        TriRegion::Inside
    }
}

/// Whether a contact counts: it is a penetration, or at most the skin away.
pub fn in_band(depth: Scalar, skin: Scalar) -> (r: bool)
    ensures
        r == !depth.lt_spec(skin.neg_spec()),
{
    !depth.lt(skin.neg())
}

} // verus!
