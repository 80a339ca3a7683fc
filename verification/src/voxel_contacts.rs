//! Contacts with a voxel volume: which cells, samples and faces take part.

use crate::extract::between;
use crate::scalar::Scalar;
use crate::select::{
    find_first_least, first_least, indices_where, none_below,
};
use crate::voxel::{scanned_before, VoxelVolume};
use vstd::prelude::*;

verus! {

/// Cell `a` comes before cell `b` in the scan.
pub open spec fn earlier(a: (i32, i32, i32), b: (i32, i32, i32)) -> bool {
    scanned_before(a.0 as int, a.1 as int, a.2 as int, b.0 as int, b.1 as int, b.2 as int)
}

/// The list holds exactly the filled cells between the corners, in scan order.
pub open spec fn filled_between(
    vol: &VoxelVolume,
    lo: (i32, i32, i32),
    hi: (i32, i32, i32),
    cells: Seq<(i32, i32, i32)>,
) -> bool {
    &&& forall|k: int|
        0 <= k < cells.len() ==> between(
            lo,
            hi,
            (#[trigger] cells[k]).0 as int,
            cells[k].1 as int,
            cells[k].2 as int,
        ) && vol.occupied(cells[k].0 as int, cells[k].1 as int, cells[k].2 as int)
    &&& forall|j: int, k: int|
        0 <= j < k < cells.len() ==> earlier(#[trigger] cells[j], #[trigger] cells[k])
    &&& forall|x: i32, y: i32, z: i32|
        between(lo, hi, x as int, y as int, z as int) && #[trigger] vol.occupied(
            x as int,
            y as int,
            z as int,
        ) ==> cells.contains((x, y, z))
}

/// The scan has listed the filled cells that come before a cell.
spec fn listed_to(
    vol: &VoxelVolume,
    lo: (i32, i32, i32),
    hi: (i32, i32, i32),
    cells: Seq<(i32, i32, i32)>,
    px: int,
    py: int,
    pz: int,
) -> bool {
    &&& forall|k: int|
        0 <= k < cells.len() ==> between(
            lo,
            hi,
            (#[trigger] cells[k]).0 as int,
            cells[k].1 as int,
            cells[k].2 as int,
        ) && vol.occupied(cells[k].0 as int, cells[k].1 as int, cells[k].2 as int)
            && scanned_before(
            cells[k].0 as int,
            cells[k].1 as int,
            cells[k].2 as int,
            px,
            py,
            pz,
        )
    &&& forall|j: int, k: int|
        0 <= j < k < cells.len() ==> earlier(#[trigger] cells[j], #[trigger] cells[k])
    &&& forall|x: i32, y: i32, z: i32|
        between(lo, hi, x as int, y as int, z as int) && #[trigger] vol.occupied(
            x as int,
            y as int,
            z as int,
        ) && scanned_before(x as int, y as int, z as int, px, py, pz) ==> cells.contains((x, y, z))
}

impl VoxelVolume {
    /// The filled cells between `lo` and `hi`, corners included, in scan order.
    pub fn occupied_cells(&self, lo: (i32, i32, i32), hi: (i32, i32, i32)) -> (cells: Vec<
        (i32, i32, i32),
    >)
        requires
            self.wf(),
        ensures
            filled_between(self, lo, hi, cells@),
    {
        let mut cells: Vec<(i32, i32, i32)> = Vec::new();
        let x0: i32 = if lo.0 > 0 {
            lo.0
        } else {
            0
        };
        let y0: i32 = if lo.1 > 0 {
            lo.1
        } else {
            0
        };
        let z0: i32 = if lo.2 > 0 {
            lo.2
        } else {
            0
        };
        let x1: i32 = if hi.0 < self.nx as i32 - 1 {
            hi.0
        } else {
            self.nx as i32 - 1
        };
        let y1: i32 = if hi.1 < self.ny as i32 - 1 {
            hi.1
        } else {
            self.ny as i32 - 1
        };
        let z1: i32 = if hi.2 < self.nz as i32 - 1 {
            hi.2
        } else {
            self.nz as i32 - 1
        };
        if x0 > x1 || y0 > y1 || z0 > z1 {
            return cells;
        }
        let mut iz: i32 = z0;
        while iz <= z1
            invariant
                self.wf(),
                0 <= x0 <= x1 < i32::MAX && 0 <= y0 <= y1 < i32::MAX && 0 <= z0 <= iz <= z1 + 1,
                z1 < i32::MAX,
                x1 == hi.0 || x1 == self.nx - 1,
                y1 == hi.1 || y1 == self.ny - 1,
                z1 == hi.2 || z1 == self.nz - 1,
                x1 <= hi.0 && y1 <= hi.1 && z1 <= hi.2,
                lo.0 <= x0 && lo.1 <= y0 && lo.2 <= z0,
                x0 == lo.0 || x0 == 0,
                y0 == lo.1 || y0 == 0,
                z0 == lo.2 || z0 == 0,
                listed_to(self, lo, hi, cells@, x0 as int, y0 as int, iz as int),
            decreases z1 + 1 - iz,
        {
            let mut iy: i32 = y0;
            while iy <= y1
                invariant
                    self.wf(),
                    0 <= x0 <= x1 < i32::MAX && 0 <= y0 <= iy <= y1 + 1 && 0 <= z0 <= iz <= z1,
                    y1 < i32::MAX,
                    z1 < i32::MAX,
                    x1 == hi.0 || x1 == self.nx - 1,
                    y1 == hi.1 || y1 == self.ny - 1,
                    z1 == hi.2 || z1 == self.nz - 1,
                    x1 <= hi.0 && y1 <= hi.1 && z1 <= hi.2,
                    lo.0 <= x0 && lo.1 <= y0 && lo.2 <= z0,
                    x0 == lo.0 || x0 == 0,
                    y0 == lo.1 || y0 == 0,
                    z0 == lo.2 || z0 == 0,
                    listed_to(self, lo, hi, cells@, x0 as int, iy as int, iz as int),
                decreases y1 + 1 - iy,
            {
                let mut ix: i32 = x0;
                while ix <= x1
                    invariant
                        self.wf(),
                        0 <= x0 <= ix <= x1 + 1 && 0 <= y0 <= iy <= y1 && 0 <= z0 <= iz <= z1,
                        x1 < i32::MAX,
                        y1 < i32::MAX,
                        z1 < i32::MAX,
                        x1 <= hi.0 && y1 <= hi.1 && z1 <= hi.2,
                        lo.0 <= x0 && lo.1 <= y0 && lo.2 <= z0,
                        listed_to(self, lo, hi, cells@, ix as int, iy as int, iz as int),
                    decreases x1 + 1 - ix,
                {
                    let ghost before = cells@;
                    if self.get(ix as u32, iy as u32, iz as u32) {
                        cells.push((ix, iy, iz));
                    }
                    proof {
                        assert forall|x: i32, y: i32, z: i32|
                            between(lo, hi, x as int, y as int, z as int)
                                && #[trigger] self.occupied(x as int, y as int, z as int)
                                && scanned_before(
                                x as int,
                                y as int,
                                z as int,
                                ix + 1,
                                iy as int,
                                iz as int,
                            ) implies cells@.contains((x, y, z)) by {
                            if x == ix && y == iy && z == iz {
                                assert(cells@[cells@.len() - 1] == (ix, iy, iz));
                            } else {
                                assert(before.contains((x, y, z)));
                                let k = choose|k: int|
                                    0 <= k < before.len() && before[k] == (x, y, z);
                                assert(cells@[k] == (x, y, z));
                            }
                        }
                        assert forall|j: int, k: int| 0 <= j < k < cells@.len() implies earlier(
                            #[trigger] cells@[j],
                            #[trigger] cells@[k],
                        ) by {
                            assert(cells@[j] == before[j]);
                        }
                    }
                    ix += 1;
                }
                iy += 1;
            }
            iz += 1;
        }
        cells
    }
}

/// Two lists of the same cells in scan order are equal.
pub proof fn filled_cells_are_determined(
    vol: &VoxelVolume,
    lo: (i32, i32, i32),
    hi: (i32, i32, i32),
    r: Seq<(i32, i32, i32)>,
    s: Seq<(i32, i32, i32)>,
)
    requires
        filled_between(vol, lo, hi, r),
        filled_between(vol, lo, hi, s),
    ensures
        r == s,
{
    let m = if r.len() < s.len() {
        r.len() as int
    } else {
        s.len() as int
    };
    lemma_same_cells(vol, lo, hi, r, s, m);
    if r.len() > m {
        lemma_next_cell(vol, lo, hi, r, s, m);
    }
    if s.len() > m {
        lemma_next_cell(vol, lo, hi, s, r, m);
    }
    assert(r =~= s);
}

proof fn lemma_same_cells(
    vol: &VoxelVolume,
    lo: (i32, i32, i32),
    hi: (i32, i32, i32),
    r: Seq<(i32, i32, i32)>,
    s: Seq<(i32, i32, i32)>,
    k: int,
)
    requires
        filled_between(vol, lo, hi, r),
        filled_between(vol, lo, hi, s),
        0 <= k <= r.len(),
        k <= s.len(),
    ensures
        forall|j: int| 0 <= j < k ==> #[trigger] r[j] == s[j],
    decreases k,
{
    if k > 0 {
        lemma_same_cells(vol, lo, hi, r, s, k - 1);
        lemma_next_cell(vol, lo, hi, r, s, k - 1);
        assert forall|j: int| 0 <= j < k - 1 implies #[trigger] s[j] == r[j] by {
        }
        lemma_next_cell(vol, lo, hi, s, r, k - 1);
        assert(!earlier(r[k - 1], s[k - 1]) || !earlier(s[k - 1], r[k - 1]));
    }
}

/// With equal beginnings, the next cell of one list is in the other, not before
/// its next place.
proof fn lemma_next_cell(
    vol: &VoxelVolume,
    lo: (i32, i32, i32),
    hi: (i32, i32, i32),
    r: Seq<(i32, i32, i32)>,
    s: Seq<(i32, i32, i32)>,
    k: int,
)
    requires
        filled_between(vol, lo, hi, r),
        filled_between(vol, lo, hi, s),
        0 <= k < r.len(),
        k <= s.len(),
        forall|j: int| 0 <= j < k ==> #[trigger] r[j] == s[j],
    ensures
        k < s.len(),
        s[k] == r[k] || earlier(s[k], r[k]),
{
    let c = r[k];
    assert(vol.occupied(c.0 as int, c.1 as int, c.2 as int));
    assert(s.contains((c.0, c.1, c.2)));
    let q = choose|q: int| 0 <= q < s.len() && s[q] == (c.0, c.1, c.2);
    if q < k {
        assert(r[q] == s[q]);
        assert(earlier(r[q], r[k]));
    }
    if q > k {
        assert(earlier(s[k], s[q]));
    }
}

/// The sample points of a face, as multiples of the half extents: the centre,
/// then the four corners.
pub open spec fn sample_sign(face: int, sample: int, axis: int) -> int {
    if axis == face / 2 {
        if face % 2 == 0 {
            -1
        } else {
            1
        }
    } else if sample == 0 {
        0
    } else {
        let first = (axis == 0 || (axis == 1 && face / 2 == 0));
        if first {
            if sample <= 2 {
                -1
            } else {
                1
            }
        } else {
            if sample % 2 == 1 {
                -1
            } else {
                1
            }
        }
    }
}

/// Where sample `sample` of face `face` lies, as multiples of the half extents.
/// Faces come in pairs, the negative one first.
pub fn box_sample(face: usize, sample: usize) -> (r: (i8, i8, i8))
    requires
        face < 6,
        sample < 5,
    ensures
        r.0 == sample_sign(face as int, sample as int, 0),
        r.1 == sample_sign(face as int, sample as int, 1),
        r.2 == sample_sign(face as int, sample as int, 2),
{
    let out: i8 = if face % 2 == 0 {
        -1
    } else {
        1
    };
    let u: i8 = if sample == 0 {
        0
    } else if sample <= 2 {
        -1
    } else {
        1
    };
    let v: i8 = if sample == 0 {
        0
    } else if sample % 2 == 1 {
        -1
    } else {
        1
    };
    if face < 2 {
        (out, u, v)
    } else if face < 4 {
        (u, out, v)
    } else {
        (u, v, out)
    }
}

/// The name of a sample: sixteen names for each face, counted from one.
pub open spec fn sample_feature(face: int, sample: int) -> int {
    (face + 1) * 16 + sample
}

/// Different samples have different names, and the name tells face and sample.
pub proof fn sample_names_are_distinct(face: int, sample: int)
    requires
        0 <= face < 6,
        0 <= sample < 5,
    ensures
        sample_feature(face, sample) / 16 == face + 1,
        sample_feature(face, sample) % 16 == sample,
        sample_feature(face, sample) != 0,
{
}

/// A sample of the box that touches the volume.
#[derive(Clone, Copy, Debug, PartialEq, Eq, Structural)]
pub struct BoxHit {
    pub face: usize,
    pub sample: usize,
    pub feature: u32,
}

/// Some sample of the face is closer than `skin`.
pub open spec fn face_touches(dist: Seq<Scalar>, skin: Scalar, face: int) -> bool {
    exists|c: int| 0 <= c < 5 && (#[trigger] dist[face * 5 + c]).lt_spec(skin)
}

/// Sample number `t` makes a contact: its face touches, and it is not itself
/// beyond `skin`.
pub open spec fn sample_hits(dist: Seq<Scalar>, skin: Scalar) -> spec_fn(int) -> bool {
    |t: int| face_touches(dist, skin, t / 5) && !skin.le_spec(dist[t])
}

/// The contact of sample number `t`.
pub open spec fn hit_at(t: int) -> BoxHit {
    BoxHit {
        face: (t / 5) as usize,
        sample: (t % 5) as usize,
        feature: sample_feature(t / 5, t % 5) as u32,
    }
}

/// The contacts of a box whose thirty samples have the given distances from the
/// volume. Every face that touches contributes, not only the deepest.
pub fn box_hits(dist: &[Scalar], skin: Scalar) -> (hits: Vec<BoxHit>)
    requires
        dist@.len() == 30,
    ensures
        hits@ == indices_where(sample_hits(dist@, skin), 30).map_values(|t: int| hit_at(t)),
{
    let ghost p = sample_hits(dist@, skin);
    let mut hits: Vec<BoxHit> = Vec::new();
    assert(hits@ =~= indices_where(p, 0).map_values(|t: int| hit_at(t)));
    let mut face: usize = 0;
    while face < 6
        invariant
            dist@.len() == 30,
            p == sample_hits(dist@, skin),
            face <= 6,
            hits@ == indices_where(p, (face * 5) as nat).map_values(|t: int| hit_at(t)),
        decreases 6 - face,
    {
        let mut touches: bool = false;
        let mut c: usize = 0;
        while c < 5
            invariant
                dist@.len() == 30,
                face < 6,
                c <= 5,
                touches == (exists|q: int|
                    0 <= q < c && (#[trigger] dist@[face * 5 + q]).lt_spec(skin)),
            decreases 5 - c,
        {
            if dist[face * 5 + c].lt(skin) {
                assert(dist@[face * 5 + c as int].lt_spec(skin));
                touches = true;
            }
            c += 1;
        }
        assert(touches == face_touches(dist@, skin, face as int));
        let mut ci: usize = 0;
        while ci < 5
            invariant
                dist@.len() == 30,
                p == sample_hits(dist@, skin),
                face < 6,
                ci <= 5,
                touches == face_touches(dist@, skin, face as int),
                hits@ == indices_where(p, (face * 5 + ci) as nat).map_values(|t: int| hit_at(t)),
            decreases 5 - ci,
        {
            let ghost before = hits@;
            let t: usize = face * 5 + ci;
            assert(t as int / 5 == face && t as int % 5 == ci);
            if touches && !skin.le(dist[t]) {
                hits.push(
                    BoxHit {
                        face,
                        sample: ci,
                        feature: (face as u32 + 1) * 16 + ci as u32,
                    },
                );
                assert(p(t as int));
                assert(hits@ =~= indices_where(p, (t + 1) as nat).map_values(
                    |t: int| hit_at(t),
                ));
            } else {
                assert(!p(t as int));
            }
            ci += 1;
        }
        face += 1;
    }
    hits
}

/// A face of a filled cell whose neighbour is empty or outside the grid.
#[derive(Clone, Copy, Debug, PartialEq, Eq)]
pub struct SurfaceFace {
    pub cell: (i32, i32, i32),
    /// Zero to five: negative and positive side of each axis in turn.
    pub face: u8,
    /// Whether the neighbour lies in the grid.
    pub open: bool,
}

/// The step to the neighbour behind a face, along one axis.
pub open spec fn face_step(face: int, axis: int) -> int {
    if axis == face / 2 {
        if face % 2 == 0 {
            -1
        } else {
            1
        }
    } else {
        0
    }
}

/// The cell of place `t` in the walk over the neighbourhood of a cell: 27 cells
/// in scan order, six faces each.
pub open spec fn walk_cell(c: (i32, i32, i32), t: int) -> (int, int, int) {
    (c.0 + (t / 6) % 3 - 1, c.1 + (t / 18) % 3 - 1, c.2 + (t / 54) - 1)
}

/// The neighbour behind the face of place `t`.
pub open spec fn walk_behind(c: (i32, i32, i32), t: int) -> (int, int, int) {
    let w = walk_cell(c, t);
    (w.0 + face_step(t % 6, 0), w.1 + face_step(t % 6, 1), w.2 + face_step(t % 6, 2))
}

/// The face of place `t` is part of the surface.
pub open spec fn on_surface(vol: &VoxelVolume, c: (i32, i32, i32)) -> spec_fn(int) -> bool {
    |t: int|
        {
            let w = walk_cell(c, t);
            let b = walk_behind(c, t);
            vol.occupied(w.0, w.1, w.2) && !vol.occupied(b.0, b.1, b.2)
        }
}

/// The surface face of place `t`.
pub open spec fn surface_at(vol: &VoxelVolume, c: (i32, i32, i32), t: int) -> SurfaceFace {
    let w = walk_cell(c, t);
    let b = walk_behind(c, t);
    SurfaceFace {
        cell: (w.0 as i32, w.1 as i32, w.2 as i32),
        face: (t % 6) as u8,
        open: vol.in_grid(b.0, b.1, b.2),
    }
}

/// The surface faces around a filled cell, in the order of the walk; `None` if
/// the cell is empty or outside the grid.
pub fn surface_faces(vol: &VoxelVolume, c: (i32, i32, i32)) -> (r: Option<Vec<SurfaceFace>>)
    requires
        vol.wf(),
    ensures
        r is Some <==> vol.occupied(c.0 as int, c.1 as int, c.2 as int),
        r matches Some(faces) ==> faces@ == indices_where(on_surface(vol, c), 162).map_values(
            |t: int| surface_at(vol, c, t),
        ),
{
    if !vol.in_range(c.0, c.1, c.2) || !vol.get(c.0 as u32, c.1 as u32, c.2 as u32) {
        return None;
    }
    let ghost p = on_surface(vol, c);
    let mut faces: Vec<SurfaceFace> = Vec::new();
    assert(faces@ =~= indices_where(p, 0).map_values(|t: int| surface_at(vol, c, t)));
    let mut t: u32 = 0;
    while t < 162
        invariant
            vol.wf(),
            vol.in_grid(c.0 as int, c.1 as int, c.2 as int),
            p == on_surface(vol, c),
            t <= 162,
            faces@ == indices_where(p, t as nat).map_values(|t: int| surface_at(vol, c, t)),
        decreases 162 - t,
    {
        let ghost before = faces@;
        let x: i32 = c.0 - 1 + ((t / 6) % 3) as i32;
        let y: i32 = c.1 - 1 + ((t / 18) % 3) as i32;
        let z: i32 = c.2 - 1 + (t / 54) as i32;
        let face: u32 = t % 6;
        let s: i32 = if face % 2 == 0 {
            -1
        } else {
            1
        };
        let filled: bool = vol.in_range(x, y, z) && vol.get(x as u32, y as u32, z as u32);
        if filled {
            let bx: i32 = if face / 2 == 0 {
                x + s
            } else {
                x
            };
            let by: i32 = if face / 2 == 1 {
                y + s
            } else {
                y
            };
            let bz: i32 = if face / 2 == 2 {
                z + s
            } else {
                z
            };
            let open: bool = vol.in_range(bx, by, bz);
            let inner: bool = open && vol.get(bx as u32, by as u32, bz as u32);
            assert(walk_cell(c, t as int) == (x as int, y as int, z as int));
            assert(walk_behind(c, t as int) == (bx as int, by as int, bz as int));
            if !inner {
                faces.push(SurfaceFace { cell: (x, y, z), face: face as u8, open });
                assert(p(t as int));
                assert(faces@ =~= indices_where(p, (t + 1) as nat).map_values(
                    |t: int| surface_at(vol, c, t),
                ));
            } else {
                assert(!p(t as int));
            }
        } else {
            assert(walk_cell(c, t as int) == (x as int, y as int, z as int));
            assert(!p(t as int));
        }
        t += 1;
    }
    Some(faces)
}

/// Positive infinity.
pub open spec fn unbounded_spec() -> Scalar {
    Scalar { bits: 0x7f80_0000 }
}

/// The faces towards cells of the grid.
pub open spec fn opens(faces: Seq<SurfaceFace>) -> spec_fn(int) -> bool {
    |i: int| faces[i].open
}

/// The faces towards the outside of the grid.
pub open spec fn shells(faces: Seq<SurfaceFace>) -> spec_fn(int) -> bool {
    |i: int| !faces[i].open
}

/// The face through which a point in the solid leaves: the closest one towards a
/// cell of the grid, else the closest towards the outside, else none.
pub open spec fn leaves_by(
    faces: Seq<SurfaceFace>,
    d2: Seq<Scalar>,
    r: Option<int>,
) -> bool {
    let inf = unbounded_spec();
    match r {
        Some(k) => {
            ||| first_least(d2, opens(faces), inf, k) && d2[k].is_finite_spec()
            ||| {
                &&& first_least(d2, shells(faces), inf, k) && d2[k].is_finite_spec()
                &&& none_below(d2, opens(faces), inf) || exists|j: int|
                    first_least(d2, opens(faces), inf, j) && !d2[j].is_finite_spec()
            }
        },
        None => {
            &&& none_below(d2, opens(faces), inf) || exists|j: int|
                first_least(d2, opens(faces), inf, j) && !d2[j].is_finite_spec()
            &&& none_below(d2, shells(faces), inf) || exists|j: int|
                first_least(d2, shells(faces), inf, j) && !d2[j].is_finite_spec()
        },
    }
}

/// Chooses the face through which a point in the solid is pushed out, given the
/// squared distances of the faces.
pub fn leaving_face(faces: &Vec<SurfaceFace>, d2: &[Scalar]) -> (r: Option<usize>)
    requires
        d2@.len() == faces@.len(),
    ensures
        leaves_by(
            faces@,
            d2@,
            match r {
                Some(k) => Some(k as int),
                None => None,
            },
        ),
{
    let inf = Scalar { bits: 0x7f80_0000 };
    let mut open_flags: Vec<bool> = Vec::new();
    let mut shell_flags: Vec<bool> = Vec::new();
    let mut i: usize = 0;
    while i < faces.len()
        invariant
            i <= faces@.len(),
            open_flags@.len() == i,
            shell_flags@.len() == i,
            forall|j: int| 0 <= j < i ==> open_flags@[j] == faces@[j].open,
            forall|j: int| 0 <= j < i ==> shell_flags@[j] == !faces@[j].open,
        decreases faces@.len() - i,
    {
        open_flags.push(faces[i].open);
        shell_flags.push(!faces[i].open);
        i += 1;
    }
    let open = find_first_least(d2, open_flags.as_slice(), inf);
    let shell = find_first_least(d2, shell_flags.as_slice(), inf);
    proof {
        if let Some(k) = open {
            assert(first_least(d2@, opens(faces@), inf, k as int));
        } else {
            assert(none_below(d2@, opens(faces@), inf));
        }
        if let Some(k) = shell {
            assert(first_least(d2@, shells(faces@), inf, k as int));
        } else {
            assert(none_below(d2@, shells(faces@), inf));
        }
    }
    if let Some(k) = open {
        if d2[k].is_finite() {
            return Some(k);
        }
    }
    if let Some(k) = shell {
        if d2[k].is_finite() {
            return Some(k);
        }
    }
    None
}

} // verus!
