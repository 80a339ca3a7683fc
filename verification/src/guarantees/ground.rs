//! What height fields and planes promise.

use crate::planes::{corner_signs, deepest_corner, HalfSpaceSet};
use crate::scalar::{Scalar, Vec3};
use crate::select::{indices_where, lemma_indices_where};
use crate::terrain::{highest, lowest, walk_node, HeightField, TerrainSet};
use vstd::prelude::*;

verus! {

/// The place of a grid node in the list of heights.
pub open spec fn place(hf: &HeightField, x: int, z: int) -> int {
    z * hf.nx + x
}

/// The number between the two bounds that is closest.
pub open spec fn nearest(v: int, lo: int, hi: int, r: int) -> bool {
    &&& lo <= r <= hi
    &&& lo <= v <= hi ==> r == v
    &&& v < lo ==> r == lo
    &&& v > hi ==> r == hi
}

/// Two nodes of a field have different places, below the number of heights.
proof fn lemma_places(nx: int, nz: int, x: int, z: int, u: int, w: int)
    requires
        0 <= x < nx,
        0 <= z < nz,
        0 <= u < nx,
        0 <= w < nz,
    ensures
        0 <= z * nx + x < nx * nz,
        z * nx + x == w * nx + u ==> x == u && z == w,
{
    assert(0 <= z * nx + x < nx * nz) by (nonlinear_arith)
        requires
            0 <= x < nx,
            0 <= z < nz,
    ;
    if z * nx + x == w * nx + u {
        if z < w {
            assert(w * nx >= z * nx + nx) by (nonlinear_arith)
                requires
                    z + 1 <= w,
                    nx > 0,
            ;
        } else if w < z {
            assert(z * nx >= w * nx + nx) by (nonlinear_arith)
                requires
                    w + 1 <= z,
                    nx > 0,
            ;
        }
    }
}

/// A flat field has one height everywhere.
pub proof fn flat_fields_are_flat(
    origin_x: Scalar,
    origin_z: Scalar,
    nx: u32,
    nz: u32,
    spacing: Scalar,
    height: Scalar,
    r: HeightField,
    i: int,
)
    requires
        call_ensures(HeightField::flat, (origin_x, origin_z, nx, nz, spacing, height), r),
        0 <= i < nx * nz,
    ensures
        r.heights@.len() == nx * nz,
        r.heights@[i] == height,
        r.nx == nx && r.nz == nz && r.spacing == spacing,
        r.origin_x == origin_x && r.origin_z == origin_z,
{
}

/// A height that was set is read back, and the heights of all other nodes stay.
pub proof fn heights_are_read_back(
    hf: &mut HeightField,
    ix: u32,
    iz: u32,
    h: Scalar,
    jx: u32,
    jz: u32,
    before: Scalar,
    after: Scalar,
)
    requires
        old(hf).wf(),
        ix < old(hf).nx && iz < old(hf).nz,
        jx < old(hf).nx && jz < old(hf).nz,
        call_ensures(HeightField::set_height, (hf, ix, iz, h), ()),
        call_ensures(HeightField::height_ix, (&*old(hf), jx, jz), before),
        call_ensures(HeightField::height_ix, (&*final(hf), jx, jz), after),
    ensures
        ix == jx && iz == jz ==> after == h,
        ix != jx || iz != jz ==> after == before,
        final(hf).nx == old(hf).nx && final(hf).nz == old(hf).nz,
        before == old(hf).heights@[place(&*old(hf), jx as int, jz as int)],
{
    lemma_places(
        old(hf).nx as int,
        old(hf).nz as int,
        ix as int,
        iz as int,
        jx as int,
        jz as int,
    );
    lemma_places(
        old(hf).nx as int,
        old(hf).nz as int,
        jx as int,
        jz as int,
        ix as int,
        iz as int,
    );
}

/// A sample reads the four corners of the cell that holds the place, or of the nearest
/// cell for a place outside.
pub proof fn samples_read_the_cell(
    hf: &HeightField,
    fx: i32,
    fz: i32,
    r: ((u32, u32), [Scalar; 4]),
)
    requires
        hf.wf(),
        call_ensures(HeightField::sample_cell, (hf, fx, fz), r),
    ensures
        nearest(fx as int, 0, hf.nx - 2, r.0.0 as int),
        nearest(fz as int, 0, hf.nz - 2, r.0.1 as int),
        r.1@[0] == hf.heights@[place(hf, r.0.0 as int, r.0.1 as int)],
        r.1@[1] == hf.heights@[place(hf, r.0.0 + 1, r.0.1 as int)],
        r.1@[2] == hf.heights@[place(hf, r.0.0 as int, r.0.1 + 1)],
        r.1@[3] == hf.heights@[place(hf, r.0.0 + 1, r.0.1 + 1)],
{
}

/// Digging lowers the nearest node, and that one alone; away from the field it does
/// nothing and says so.
pub proof fn digging_lowers_one_node<F: Fn(Scalar) -> Scalar>(
    hf: &mut HeightField,
    over: bool,
    fx: i32,
    fz: i32,
    lowered: F,
    r: bool,
    x: int,
    z: int,
)
    requires
        old(hf).wf(),
        call_ensures(HeightField::dig_column::<F>, (hf, over, fx, fz, lowered), r),
        0 <= x < old(hf).nx,
        0 <= z < old(hf).nz,
    ensures
        r == over,
        !over ==> final(hf).heights@ == old(hf).heights@,
        over && nearest(fx as int, 0, old(hf).nx - 1, x) && nearest(fz as int, 0, old(hf).nz - 1, z)
            ==> lowered.ensures(
            (old(hf).heights@[place(&*old(hf), x, z)],),
            final(hf).heights@[place(&*old(hf), x, z)],
        ),
        !(nearest(fx as int, 0, old(hf).nx - 1, x) && nearest(fz as int, 0, old(hf).nz - 1, z))
            ==> final(hf).heights@[place(&*old(hf), x, z)]
            == old(hf).heights@[place(&*old(hf), x, z)],
        final(hf).nx == old(hf).nx && final(hf).nz == old(hf).nz,
        final(hf).spacing == old(hf).spacing,
{
    let u = crate::terrain::clamped(fx as int, 0, old(hf).nx - 1);
    let w = crate::terrain::clamped(fz as int, 0, old(hf).nz - 1);
    lemma_places(old(hf).nx as int, old(hf).nz as int, x, z, u, w);
    lemma_places(old(hf).nx as int, old(hf).nz as int, u, w, x, z);
}

/// Digging in a set of fields changes one node of the named field, and no other field.
pub proof fn digging_lowers_one_field<F: Fn(Scalar) -> Scalar>(
    set: &mut TerrainSet,
    id: u32,
    over: bool,
    fx: i32,
    fz: i32,
    lowered: F,
    r: bool,
    k: int,
)
    requires
        old(set).wf(),
        call_ensures(TerrainSet::dig::<F>, (set, id, over, fx, fz, lowered), r),
        0 <= k < old(set).heightfields@.len(),
    ensures
        r <==> over && id < old(set).heightfields@.len(),
        final(set).heightfields@.len() == old(set).heightfields@.len(),
        k != id || !over ==> final(set).heightfields@[k].heights@
            == old(set).heightfields@[k].heights@,
        k == id && over ==> exists|i: int| #[trigger]
            lowered.ensures(
                (old(set).heightfields@[k].heights@[i],),
                final(set).heightfields@[k].heights@[i],
            ) && final(set).heightfields@[k].heights@ == old(set).heightfields@[k].heights@.update(
                i,
                final(set).heightfields@[k].heights@[i],
            ) && exists|x: int, z: int|
                nearest(fx as int, 0, old(set).heightfields@[k].nx - 1, x) && nearest(
                    fz as int,
                    0,
                    old(set).heightfields@[k].nz - 1,
                    z,
                ) && i == #[trigger] place(&old(set).heightfields@[k], x, z),
{
    if k == id && over {
        let hf = old(set).heightfields@[k];
        assert(hf.wf());
        let x = crate::terrain::clamped(fx as int, 0, hf.nx - 1);
        let z = crate::terrain::clamped(fz as int, 0, hf.nz - 1);
        let i = place(&hf, x, z);
        assert(nearest(fx as int, 0, hf.nx - 1, x));
        assert(nearest(fz as int, 0, hf.nz - 1, z));
        assert(lowered.ensures((hf.heights@[i],), final(set).heightfields@[k].heights@[i]));
    }
}

/// The nodes near a place are exactly the nodes of the field that are at most one step
/// away along each axis, each once.
pub proof fn near_nodes_are_one_step_away(
    hf: &HeightField,
    ix0: i64,
    iz0: i64,
    r: Vec<(u32, u32)>,
    x: u32,
    z: u32,
)
    requires
        hf.wf(),
        call_ensures(HeightField::nodes_near, (hf, ix0, iz0), r),
    ensures
        r@.contains((x, z)) <==> x < hf.nx && z < hf.nz && -1 <= x - ix0 <= 1 && -1 <= z - iz0 <= 1,
        r@.no_duplicates(),
{
    let p = |t: int|
        hf.has_node(
            walk_node(ix0 as int, iz0 as int, t).0,
            walk_node(ix0 as int, iz0 as int, t).1,
        );
    let list = indices_where(p, 9);
    lemma_indices_where(p, 9);
    assert(r@ == list.map_values(
        |t: int|
            (
                walk_node(ix0 as int, iz0 as int, t).0 as u32,
                walk_node(ix0 as int, iz0 as int, t).1 as u32,
            ),
    ));
    if r@.contains((x, z)) {
        let k = choose|k: int| 0 <= k < r@.len() && r@[k] == (x, z);
        assert(p(list[k]));
    }
    if x < hf.nx && z < hf.nz && -1 <= x - ix0 <= 1 && -1 <= z - iz0 <= 1 {
        let t = 3 * (x - ix0 + 1) + (z - iz0 + 1);
        assert(t / 3 == x - ix0 + 1 && t % 3 == z - iz0 + 1);
        assert(p(t));
        assert(list.contains(t));
        let k = choose|k: int| 0 <= k < list.len() && list[k] == t;
        assert(r@[k] == (x, z));
    }
    assert forall|j: int, k: int| 0 <= j < r@.len() && 0 <= k < r@.len() && j != k implies r@[j]
        != r@[k] by {
        assert(p(list[j]) && p(list[k]));
        assert(list[j] != list[k]) by {
            if j < k {
                assert(list[j] < list[k]);
            } else {
                assert(list[k] < list[j]);
            }
        }
    }
}

proof fn lemma_lowest(heights: Seq<Scalar>, start: Scalar)
    requires
        !start.is_nan_spec(),
    ensures
        ({
            let lo = lowest(heights, start);
            &&& !lo.is_nan_spec()
            &&& lo.le_spec(start)
            &&& forall|i: int|
                0 <= i < heights.len() && !(#[trigger] heights[i]).is_nan_spec() ==> lo.le_spec(
                    heights[i],
                )
            &&& lo == start || heights.contains(lo)
        }),
    decreases heights.len(),
{
    if heights.len() > 0 {
        let rest = heights.drop_last();
        lemma_lowest(rest, start);
        let lo = lowest(heights, start);
        assert forall|i: int| 0 <= i < heights.len() && !(#[trigger] heights[i]).is_nan_spec() implies lo.le_spec(
            heights[i],
        ) by {
            if i < rest.len() {
                assert(rest[i] == heights[i]);
            }
        }
        if lowest(rest, start) == lo && rest.contains(lo) {
            let i = choose|i: int| 0 <= i < rest.len() && rest[i] == lo;
            assert(heights[i] == lo);
        } else if lo == heights.last() {
            assert(heights[heights.len() - 1] == lo);
        }
    }
}

proof fn lemma_highest(heights: Seq<Scalar>, start: Scalar)
    requires
        !start.is_nan_spec(),
    ensures
        ({
            let hi = highest(heights, start);
            &&& !hi.is_nan_spec()
            &&& start.le_spec(hi)
            &&& forall|i: int|
                0 <= i < heights.len() && !(#[trigger] heights[i]).is_nan_spec()
                    ==> heights[i].le_spec(hi)
            &&& hi == start || heights.contains(hi)
        }),
    decreases heights.len(),
{
    if heights.len() > 0 {
        let rest = heights.drop_last();
        lemma_highest(rest, start);
        let hi = highest(heights, start);
        assert forall|i: int| 0 <= i < heights.len() && !(#[trigger] heights[i]).is_nan_spec() implies heights[i].le_spec(
            hi,
        ) by {
            if i < rest.len() {
                assert(rest[i] == heights[i]);
            }
        }
        if highest(rest, start) == hi && rest.contains(hi) {
            let i = choose|i: int| 0 <= i < rest.len() && rest[i] == hi;
            assert(heights[i] == hi);
        } else if hi == heights.last() {
            assert(heights[heights.len() - 1] == hi);
        }
    }
}

/// The bounds of a field hold every height that is a number and are heights themselves;
/// a field without a finite height counts as flat at zero.
pub proof fn bounds_hold_every_height(hf: &HeightField, r: (Scalar, Scalar), i: int)
    requires
        call_ensures(HeightField::bounds, (hf,), r),
        0 <= i < hf.heights@.len(),
        !hf.heights@[i].is_nan_spec(),
    ensures
        r.0.le_spec(hf.heights@[i]) && hf.heights@[i].le_spec(r.1) || (r.0.bits == 0 && r.1.bits == 0),
        hf.heights@[i].is_finite_spec() && (forall|j: int|
            0 <= j < hf.heights@.len() ==> #[trigger] hf.heights@[j].is_finite_spec()) ==> {
            &&& r.0.le_spec(hf.heights@[i])
            &&& hf.heights@[i].le_spec(r.1)
            &&& hf.heights@.contains(r.0)
            &&& hf.heights@.contains(r.1)
        },
{
    lemma_lowest(hf.heights@, Scalar { bits: 0x7f80_0000 });
    lemma_highest(hf.heights@, Scalar { bits: 0xff80_0000 });
    let lo = lowest(hf.heights@, Scalar { bits: 0x7f80_0000 });
    if hf.heights@.contains(lo) {
        let k = choose|k: int| 0 <= k < hf.heights@.len() && hf.heights@[k] == lo;
        assert(hf.heights@[k] == lo);
    }
}

/// The bounds of a stored field hold every height that is a number; an unknown field has
/// none.
pub proof fn stored_bounds_hold_every_height(
    set: &TerrainSet,
    id: u32,
    r: Option<(Scalar, Scalar)>,
    i: int,
)
    requires
        call_ensures(TerrainSet::bounds, (set, id), r),
    ensures
        r is Some <==> id < set.heightfields@.len(),
        r is Some && 0 <= i < set.heightfields@[id as int].heights@.len()
            && !set.heightfields@[id as int].heights@[i].is_nan_spec() ==> {
            let h = set.heightfields@[id as int].heights@[i];
            r.unwrap().0.le_spec(h) && h.le_spec(r.unwrap().1)
        },
        r is Some ==> {
            let hs = set.heightfields@[id as int].heights@;
            &&& r.unwrap().0.bits == 0x7f7f_ffff || hs.contains(r.unwrap().0)
            &&& r.unwrap().1.bits == 0xff7f_ffff || hs.contains(r.unwrap().1)
        },
{
    if id < set.heightfields@.len() {
        lemma_lowest(set.heightfields@[id as int].heights@, Scalar { bits: 0x7f7f_ffff });
        lemma_highest(set.heightfields@[id as int].heights@, Scalar { bits: 0xff7f_ffff });
    }
}

/// A plane is kept exactly if its normal has a length that is finite and more than the
/// smallest normal number; it goes last, and the others stay.
pub proof fn usable_planes_are_kept(
    set: &mut HalfSpaceSet,
    unit: Vec3,
    offset: Scalar,
    len: Scalar,
    r: bool,
)
    requires
        call_ensures(HalfSpaceSet::push, (set, unit, offset, len), r),
    ensures
        r <==> 0x0080_0000 < len.bits < 0x7f80_0000,
        r ==> final(set).planes@ == old(set).planes@.push((unit, offset)),
        !r ==> final(set).planes@ == old(set).planes@,
        final(set).bound == old(set).bound,
{
}

/// The signed distance of a set of planes is the largest of the distances, and the plane
/// that decides is the first one that has it; without a number above minus infinity it
/// is minus infinity.
pub proof fn the_largest_distance_decides(
    set: &HalfSpaceSet,
    s: &[Scalar],
    r: (Scalar, usize),
    j: int,
)
    requires
        call_ensures(HalfSpaceSet::signed, (set, s), r),
        0 <= j < s@.len(),
    ensures
        !s@[j].is_nan_spec() ==> s@[j].le_spec(r.0),
        r.0.bits == 0xff80_0000 || (r.1 < s@.len() && s@[r.1 as int] == r.0),
        j < r.1 && !s@[j].is_nan_spec() ==> s@[j].lt_spec(r.0),
{
    let floor = Scalar { bits: 0xff80_0000u32 };
    assert(s@[j] == s@[j]);
    if forall|q: int| 0 <= q < s@.len() ==> !floor.lt_spec(#[trigger] s@[q]) {
        assert(!floor.lt_spec(s@[j]));
    }
}

/// A contact touches a plane alone exactly if it is beyond that plane and no other.
pub proof fn only_one_plane_is_touched(
    set: &HalfSpaceSet,
    outer: &[Scalar],
    r: Option<usize>,
    j: int,
)
    requires
        call_ensures(HalfSpaceSet::touching_plane, (set, outer), r),
        0 <= j < set.planes@.len(),
    ensures
        r is Some ==> r.unwrap() < set.planes@.len() && (set.planes@[j].1.lt_spec(outer@[j]) <==> j
            == r.unwrap()),
        r is None && set.planes@[j].1.lt_spec(outer@[j]) ==> exists|k: int|
            0 <= k < set.planes@.len() && k != j && (#[trigger] set.planes@[k]).1.lt_spec(outer@[k]),
{
    match r {
        Some(k) => {
            assert(crate::planes::only_beyond(set.planes@, outer@, k as int));
            if j != k {
                assert(!crate::planes::beyond(set.planes@, outer@, j));
            }
        },
        None => {
            assert(!crate::planes::only_beyond(set.planes@, outer@, j));
            if crate::planes::beyond(set.planes@, outer@, j) {
                let k = choose|k: int|
                    0 <= k < set.planes@.len() && k != j && #[trigger] crate::planes::beyond(
                        set.planes@,
                        outer@,
                        k,
                    );
                assert(set.planes@[k].1.lt_spec(outer@[k]));
            }
        },
    }
}

/// The deepest corner is the first of the smallest distances; there is one exactly if any
/// distance is a number below infinity.
pub proof fn the_smallest_distance_is_deepest(s: &[Scalar], r: Option<usize>, j: int)
    requires
        call_ensures(deepest_corner, (s,), r),
        0 <= j < s@.len(),
        !s@[j].is_nan_spec(),
    ensures
        r is None ==> s@[j].bits == 0x7f80_0000,
        r is Some ==> r.unwrap() < s@.len() && s@[r.unwrap() as int].le_spec(s@[j]),
        r is Some && j < r.unwrap() ==> s@[r.unwrap() as int].lt_spec(s@[j]),
{
    assert(s@[j] == s@[j]);
}

/// The eight corners have the eight combinations of signs.
pub proof fn corners_have_all_signs(c: usize, d: usize, r: (i8, i8, i8), t: (i8, i8, i8))
    requires
        c < 8,
        d < 8,
        call_ensures(corner_signs, (c,), r),
        call_ensures(corner_signs, (d,), t),
    ensures
        r.0 == 1 || r.0 == -1,
        r.1 == 1 || r.1 == -1,
        r.2 == 1 || r.2 == -1,
        r == t ==> c == d,
        c >= 4 <==> r.0 == 1,
        c % 2 == 1 <==> r.2 == 1,
{
}

} // verus!
