//! What voxel volumes promise.

use crate::extract::{
    accepts, any_cell, between, consistent, covered, emptied, extraction_takes_each_cell_once, free,
    greedy_cover, in_box, rejects, total_volume, CellBox,
};
use crate::fracture::{
    distance, distances, fractured, owner, pieces, region, regions, seed_side, seeds_jittered,
    some_seed_owns_each_cell, steady, takers, SeedCell,
};
use crate::scalar::{Scalar, Vec3};
use crate::select::{indices_where, lemma_indices_where};
use crate::voxel::{bit_at, cell_index, count_set, lemma_cell_index, VoxelVolume};
use crate::voxel_contacts::{
    box_hits, box_sample, hit_at, leaving_face, on_surface, sample_hits, surface_at, surface_faces,
    walk_behind, walk_cell, BoxHit, SurfaceFace,
};
use vstd::prelude::*;

verus! {

/// Cell `(x, y, z)` is in the grid and its bit is set.
pub open spec fn filled(vol: &VoxelVolume, x: int, y: int, z: int) -> bool {
    let i = x + vol.nx * (y + vol.ny * z);
    &&& 0 <= x < vol.nx && 0 <= y < vol.ny && 0 <= z < vol.nz
    &&& (vol.bits@[i / 64] >> ((i % 64) as u64)) & 1 == 1
}

/// The cell lies in the range, both ends included.
pub open spec fn within_range(lo: (i32, i32, i32), hi: (i32, i32, i32), x: int, y: int, z: int) -> bool {
    lo.0 <= x <= hi.0 && lo.1 <= y <= hi.1 && lo.2 <= z <= hi.2
}

/// The box holds the cell.
pub open spec fn holds(b: CellBox, x: int, y: int, z: int) -> bool {
    within_range(b.lo, b.hi, x, y, z)
}

proof fn lemma_filled(vol: &VoxelVolume, x: int, y: int, z: int)
    requires
        vol.wf(),
    ensures
        vol.occupied(x, y, z) <==> filled(vol, x, y, z),
{
    if vol.in_grid(x, y, z) {
        lemma_cell_index(
            vol.nx as int,
            vol.ny as int,
            vol.nz as int,
            x,
            y,
            z,
            x,
            y,
            z,
        );
        assert(vol.cells()[cell_index(vol.nx as int, vol.ny as int, x, y, z)] == bit_at(
            vol.bits@,
            cell_index(vol.nx as int, vol.ny as int, x, y, z),
        ));
    }
}

/// A new volume is empty; a cell that was set or cleared is so, and every other cell of
/// the grid stays; cells outside the grid are empty.
pub proof fn cells_are_read_back(
    vol: &mut VoxelVolume,
    ix: u32,
    iy: u32,
    iz: u32,
    on: bool,
    jx: u32,
    jy: u32,
    jz: u32,
    before: bool,
    after: bool,
)
    requires
        old(vol).wf(),
        call_ensures(VoxelVolume::set, (vol, ix, iy, iz, on), ()),
        call_ensures(VoxelVolume::get, (&*old(vol), jx, jy, jz), before),
        call_ensures(VoxelVolume::get, (&*final(vol), jx, jy, jz), after),
    ensures
        before <==> filled(&*old(vol), jx as int, jy as int, jz as int),
        after <==> filled(&*final(vol), jx as int, jy as int, jz as int),
        (ix, iy, iz) == (jx, jy, jz) && ix < old(vol).nx && iy < old(vol).ny && iz < old(vol).nz
            ==> after == on,
        (ix, iy, iz) != (jx, jy, jz) ==> after == before,
        jx >= old(vol).nx || jy >= old(vol).ny || jz >= old(vol).nz ==> !after,
        final(vol).filled - old(vol).filled == if (ix < old(vol).nx && iy < old(vol).ny && iz
            < old(vol).nz) {
            (if on {
                1int
            } else {
                0
            }) - (if filled(&*old(vol), ix as int, iy as int, iz as int) {
                1int
            } else {
                0
            })
        } else {
            0
        },
{
    lemma_filled(&*old(vol), jx as int, jy as int, jz as int);
    lemma_filled(&*final(vol), jx as int, jy as int, jz as int);
    lemma_filled(&*old(vol), ix as int, iy as int, iz as int);
}

/// Filling a span fills exactly its cells that are in the grid, and the others stay; the
/// bounds afterwards hold every filled cell, and grow no farther than the cells that were
/// filled.
pub proof fn spans_are_filled(
    vol: &mut VoxelVolume,
    lo: (i32, i32, i32),
    end: (i32, i32, i32),
    x: int,
    y: int,
    z: int,
    r: Option<((u32, u32, u32), (u32, u32, u32))>,
)
    requires
        old(vol).wf(),
        call_ensures(VoxelVolume::fill_box, (vol, lo, end), ()),
        call_ensures(VoxelVolume::occupied_bounds, (&*final(vol),), r),
    ensures
        filled(&*final(vol), x, y, z) <==> filled(&*old(vol), x, y, z) || (0 <= x < old(vol).nx && 0
            <= y < old(vol).ny && 0 <= z < old(vol).nz && lo.0 <= x < end.0 && lo.1 <= y < end.1
            && lo.2 <= z < end.2),
        filled(&*final(vol), x, y, z) ==> r is Some && r.unwrap().0.0 <= x <= r.unwrap().1.0
            && r.unwrap().0.1 <= y <= r.unwrap().1.1 && r.unwrap().0.2 <= z <= r.unwrap().1.2,
        !old(vol).any && r is Some ==> exists|u: int, v: int, w: int|
            #[trigger] filled(&*final(vol), u, v, w) && u == r.unwrap().0.0,
        !old(vol).any && r is Some ==> exists|u: int, v: int, w: int|
            #[trigger] filled(&*final(vol), u, v, w) && v == r.unwrap().0.1,
        !old(vol).any && r is Some ==> exists|u: int, v: int, w: int|
            #[trigger] filled(&*final(vol), u, v, w) && w == r.unwrap().0.2,
{
    lemma_filled(&*old(vol), x, y, z);
    lemma_filled(&*final(vol), x, y, z);
    if !old(vol).any && r is Some {
        let lo1 = final(vol).occ_min;
        let (a, b, c) = choose|a: int, b: int, c: int| #[trigger]
            crate::voxel::newly_filled(&*old(vol), &*final(vol), a, b, c) && a == lo1.0;
        lemma_filled(&*final(vol), a, b, c);
        let (a2, b2, c2) = choose|a: int, b: int, c: int| #[trigger]
            crate::voxel::newly_filled(&*old(vol), &*final(vol), a, b, c) && b == lo1.1;
        lemma_filled(&*final(vol), a2, b2, c2);
        let (a3, b3, c3) = choose|a: int, b: int, c: int| #[trigger]
            crate::voxel::newly_filled(&*old(vol), &*final(vol), a, b, c) && c == lo1.2;
        lemma_filled(&*final(vol), a3, b3, c3);
    }
}

/// The count is the number of cells whose bit is set.
pub proof fn the_count_is_of_filled_cells(vol: &VoxelVolume, n: usize)
    requires
        vol.wf(),
        call_ensures(VoxelVolume::filled_count, (vol,), n),
    ensures
        n == Seq::new(
            (vol.nx * vol.ny * vol.nz) as nat,
            |i: int| (vol.bits@[i / 64] >> ((i % 64) as u64)) & 1 == 1,
        ).filter(|b: bool| b).len(),
{
    let cells = Seq::new(
        (vol.nx * vol.ny * vol.nz) as nat,
        |i: int| (vol.bits@[i / 64] >> ((i % 64) as u64)) & 1 == 1,
    );
    assert(vol.cells() =~= cells);
    lemma_count(cells);
}

proof fn lemma_count(cells: Seq<bool>)
    ensures
        count_set(cells) == cells.filter(|b: bool| b).len(),
    decreases cells.len(),
{
    reveal(Seq::filter);
    if cells.len() > 0 {
        lemma_count(cells.drop_last());
    }
}

/// The listed cells of a range are exactly the filled ones, each once.
pub proof fn filled_cells_are_listed(
    vol: &VoxelVolume,
    lo: (i32, i32, i32),
    hi: (i32, i32, i32),
    cells: Vec<(i32, i32, i32)>,
    x: i32,
    y: i32,
    z: i32,
)
    requires
        vol.wf(),
        call_ensures(VoxelVolume::occupied_cells, (vol, lo, hi), cells),
    ensures
        cells@.contains((x, y, z)) <==> within_range(lo, hi, x as int, y as int, z as int) && filled(
            vol,
            x as int,
            y as int,
            z as int,
        ),
        cells@.no_duplicates(),
        forall|j: int, k: int|
            #![trigger cells@[j], cells@[k]]
            0 <= j < k < cells@.len() ==> cells@[j].2 < cells@[k].2 || (cells@[j].2 == cells@[k].2 && (
            cells@[j].1 < cells@[k].1 || (cells@[j].1 == cells@[k].1 && cells@[j].0 < cells@[k].0))),
{
    lemma_filled(vol, x as int, y as int, z as int);
    assert(crate::voxel_contacts::filled_between(vol, lo, hi, cells@));
    if cells@.contains((x, y, z)) {
        let k = choose|k: int| 0 <= k < cells@.len() && cells@[k] == (x, y, z);
        assert(cells@[k] == (x, y, z));
    }
    assert forall|j: int, k: int|
        #![trigger cells@[j], cells@[k]]
        0 <= j < k < cells@.len() implies cells@[j].2 < cells@[k].2 || (cells@[j].2 == cells@[k].2 && (
    cells@[j].1 < cells@[k].1 || (cells@[j].1 == cells@[k].1 && cells@[j].0 < cells@[k].0))) by {
        assert(crate::voxel_contacts::earlier(cells@[j], cells@[k]));
    }
}

/// How many cells a box has.
pub open spec fn size(b: CellBox) -> int {
    (b.hi.0 - b.lo.0 + 1) * (b.hi.1 - b.lo.1 + 1) * (b.hi.2 - b.lo.2 + 1)
}

proof fn lemma_sizes(boxes: Seq<CellBox>)
    ensures
        total_volume(boxes) == boxes.fold_left(0int, |n: int, b: CellBox| n + size(b)),
    decreases boxes.len(),
{
    if boxes.len() > 0 {
        lemma_sizes(boxes.drop_last());
    }
}

proof fn lemma_covered(boxes: Seq<CellBox>, x: int, y: int, z: int)
    ensures
        covered(boxes, boxes.len() as int, x, y, z) <==> exists|k: int|
            0 <= k < boxes.len() && holds(#[trigger] boxes[k], x, y, z),
{
    if covered(boxes, boxes.len() as int, x, y, z) {
        let j = choose|j: int| 0 <= j < boxes.len() && in_box(#[trigger] boxes[j], x, y, z);
        assert(holds(boxes[j], x, y, z));
    }
    if exists|k: int| 0 <= k < boxes.len() && holds(#[trigger] boxes[k], x, y, z) {
        let k = choose|k: int| 0 <= k < boxes.len() && holds(#[trigger] boxes[k], x, y, z);
        assert(in_box(boxes[k], x, y, z));
    }
}

/// Extraction takes exactly the filled cells of the range that the question accepts: they
/// are empty afterwards and no other cell changes, each is in exactly one box, and no
/// box holds anything else.
pub proof fn extraction_takes_what_is_asked<F: Fn(i32, i32, i32) -> bool>(
    vol: &mut VoxelVolume,
    lo: (i32, i32, i32),
    hi: (i32, i32, i32),
    inside: F,
    out: Vec<CellBox>,
    x: i32,
    y: i32,
    z: i32,
    j: int,
    k: int,
)
    requires
        old(vol).wf(),
        consistent(inside),
        call_ensures(VoxelVolume::extract_where::<F>, (vol, lo, hi, inside), out),
    ensures
        ({
            let was = filled(&*old(vol), x as int, y as int, z as int);
            let stays = filled(&*final(vol), x as int, y as int, z as int);
            let ranged = within_range(lo, hi, x as int, y as int, z as int);
            let boxed = exists|q: int|
                0 <= q < out@.len() && holds(#[trigger] out@[q], x as int, y as int, z as int);
            &&& stays ==> was
            &&& was && !ranged ==> stays
            &&& was && ranged && inside.ensures((x, y, z), true) ==> !stays
            &&& stays && ranged ==> inside.ensures((x, y, z), false)
            &&& was && !stays ==> inside.ensures((x, y, z), true) && ranged
            &&& boxed <==> was && !stays
        }),
        0 <= j < out@.len() && 0 <= k < out@.len() && holds(out@[j], x as int, y as int, z as int)
            && holds(out@[k], x as int, y as int, z as int) ==> j == k,
        old(vol).filled == final(vol).filled + out@.fold_left(0int, |n: int, b: CellBox| n + size(b)),
        final(vol).nx == old(vol).nx && final(vol).ny == old(vol).ny && final(vol).nz == old(vol).nz,
{
    let (u, v, w) = (x as int, y as int, z as int);
    lemma_filled(&*old(vol), u, v, w);
    lemma_filled(&*final(vol), u, v, w);
    lemma_sizes(out@);
    lemma_covered(out@, u, v, w);
    extraction_takes_each_cell_once(&*old(vol), lo, hi, accepts(inside), out@, u, v, w);
    assert(accepts(inside)(u, v, w) == inside.ensures((x, y, z), true));
    if between(lo, hi, u, v, w) && final(vol).occupied(u, v, w) {
        assert(rejects(inside)(u, v, w));
    }
    if 0 <= j < out@.len() && 0 <= k < out@.len() && holds(out@[j], u, v, w) && holds(out@[k], u, v, w) {
        assert(in_box(out@[j], u, v, w) && in_box(out@[k], u, v, w));
    }
}

/// Extracting a range takes all of its filled cells; a sphere of no size takes none, and
/// any other one takes what is inside.
pub proof fn ranges_and_spheres_are_taken<F: Fn(i32, i32, i32) -> bool>(
    vol: &mut VoxelVolume,
    ball: &mut VoxelVolume,
    lo: (i32, i32, i32),
    hi: (i32, i32, i32),
    radius: Scalar,
    inside: F,
    out: Vec<CellBox>,
    bits: Vec<CellBox>,
    x: i32,
    y: i32,
    z: i32,
)
    requires
        old(vol).wf(),
        old(ball).wf(),
        consistent(inside),
        call_ensures(VoxelVolume::extract_boxes, (vol, lo, hi), out),
        call_ensures(VoxelVolume::extract_sphere::<F>, (ball, lo, hi, radius, inside), bits),
    ensures
        filled(&*final(vol), x as int, y as int, z as int) <==> filled(
            &*old(vol),
            x as int,
            y as int,
            z as int,
        ) && !within_range(lo, hi, x as int, y as int, z as int),
        (exists|q: int| 0 <= q < out@.len() && holds(#[trigger] out@[q], x as int, y as int, z as int))
            <==> filled(&*old(vol), x as int, y as int, z as int) && within_range(
            lo,
            hi,
            x as int,
            y as int,
            z as int,
        ),
        radius.le_spec(Scalar { bits: 0 }) ==> bits@.len() == 0 && (filled(
            &*final(ball),
            x as int,
            y as int,
            z as int,
        ) <==> filled(&*old(ball), x as int, y as int, z as int)),
        !radius.le_spec(Scalar { bits: 0 }) ==> (filled(
            &*final(ball),
            x as int,
            y as int,
            z as int,
        ) <==> filled(&*old(ball), x as int, y as int, z as int) && !(within_range(
            lo,
            hi,
            x as int,
            y as int,
            z as int,
        ) && inside.ensures((x, y, z), true))),
        old(vol).filled == final(vol).filled + out@.fold_left(0int, |n: int, b: CellBox| n + size(b)),
{
    let (u, v, w) = (x as int, y as int, z as int);
    lemma_filled(&*old(vol), u, v, w);
    lemma_filled(&*final(vol), u, v, w);
    lemma_filled(&*old(ball), u, v, w);
    lemma_filled(&*final(ball), u, v, w);
    lemma_sizes(out@);
    lemma_covered(out@, u, v, w);
    lemma_covered(bits@, u, v, w);
    extraction_takes_each_cell_once(&*old(vol), lo, hi, any_cell(), out@, u, v, w);
    assert(any_cell()(u, v, w));
    if !radius.le_spec(Scalar::zero_spec()) {
        extraction_takes_each_cell_once(&*old(ball), lo, hi, accepts(inside), bits@, u, v, w);
        assert(accepts(inside)(u, v, w) == inside.ensures((x, y, z), true));
    }
}

/// The seed's distance to the cell is beaten by none: no other is smaller, and none with
/// a lower number is equal.
pub open spec fn closest_seed<D: Fn(usize, i32, i32, i32) -> Scalar>(
    d: D,
    seeds: usize,
    s: usize,
    x: i32,
    y: i32,
    z: i32,
) -> bool {
    s < seeds && forall|j: usize, own: Scalar, other: Scalar|
        #![trigger d.ensures((s, x, y, z), own), d.ensures((j, x, y, z), other)]
        j < seeds && d.ensures((s, x, y, z), own) && d.ensures((j, x, y, z), other)
            ==> !other.lt_spec(own) && (j < s ==> !other.same_spec(own))
}

proof fn lemma_closest<D: Fn(usize, i32, i32, i32) -> Scalar>(
    d: D,
    seeds: usize,
    s: usize,
    x: i32,
    y: i32,
    z: i32,
)
    requires
        steady(d),
        s < seeds,
        region(d, seeds as nat, s as int)(x as int, y as int, z as int),
    ensures
        closest_seed(d, seeds, s, x, y, z),
{
    let dist = distances(d, seeds as nat, x as int, y as int, z as int);
    assert(owner(dist, s as int));
    assert forall|j: usize, own: Scalar, other: Scalar|
        #![trigger d.ensures((s, x, y, z), own), d.ensures((j, x, y, z), other)]
        j < seeds && d.ensures((s, x, y, z), own) && d.ensures((j, x, y, z), other) implies !other.lt_spec(
        own,
    ) && (j < s ==> !other.same_spec(own)) by {
        assert(dist[s as int] == distance(d, s as int, x as int, y as int, z as int));
        assert(dist[j as int] == distance(d, j as int, x as int, y as int, z as int));
        assert(distance(d, s as int, x as int, y as int, z as int) == own);
        assert(distance(d, j as int, x as int, y as int, z as int) == other);
        if j != s {
            assert(!crate::fracture::preferred(dist[j as int], j as int, own, s as int));
        }
    }
}

/// Breaking a range apart empties it; every filled cell of it is in a piece, every piece
/// belongs to the seed that is closest to each of its cells, the first of several, no
/// piece is empty, and the pieces come in the order of their seeds. Cells outside the
/// range stay.
pub proof fn cells_go_to_their_closest_seed<D: Fn(usize, i32, i32, i32) -> Scalar>(
    vol: &mut VoxelVolume,
    lo: (i32, i32, i32),
    hi: (i32, i32, i32),
    seeds: usize,
    dist2: D,
    out: Vec<(usize, Vec<CellBox>)>,
    x: i32,
    y: i32,
    z: i32,
    p: int,
    q: int,
)
    requires
        old(vol).wf(),
        steady(dist2),
        seeds > 0,
        call_ensures(VoxelVolume::fracture_voronoi::<D>, (vol, lo, hi, seeds, dist2), out),
    ensures
        filled(&*final(vol), x as int, y as int, z as int) <==> filled(
            &*old(vol),
            x as int,
            y as int,
            z as int,
        ) && !within_range(lo, hi, x as int, y as int, z as int),
        filled(&*old(vol), x as int, y as int, z as int) && within_range(
            lo,
            hi,
            x as int,
            y as int,
            z as int,
        ) ==> exists|e: int, k: int|
            0 <= e < out@.len() && 0 <= k < out@[e].1@.len() && holds(
                #[trigger] out@[e].1@[k],
                x as int,
                y as int,
                z as int,
            ),
        0 <= p < out@.len() ==> out@[p].0 < seeds && out@[p].1@.len() > 0,
        0 <= p < q < out@.len() ==> out@[p].0 < out@[q].0,
        0 <= p < out@.len() && 0 <= q < out@[p].1@.len() && holds(
            out@[p].1@[q],
            x as int,
            y as int,
            z as int,
        ) ==> filled(&*old(vol), x as int, y as int, z as int) && closest_seed(
            dist2,
            seeds,
            out@[p].0,
            x,
            y,
            z,
        ),
{
    let (u, v, w) = (x as int, y as int, z as int);
    let n = seeds as nat;
    let (vols, boxes) = choose|vols: Seq<VoxelVolume>, boxes: Seq<Seq<CellBox>>|
        #![trigger vols.len(), boxes.len()]
        fractured(old(vol), final(vol), lo, hi, regions(dist2, n), vols, boxes) && pieces(out@)
            == takers(boxes, seeds as int);
    lemma_filled(&*old(vol), u, v, w);
    lemma_filled(&*final(vol), u, v, w);
    crate::fracture::fracture_conserves_cells(
        &*old(vol),
        &*final(vol),
        lo,
        hi,
        dist2,
        n,
        vols,
        boxes,
        u,
        v,
        w,
    );
    let all = takers(boxes, seeds as int);
    lemma_takers(boxes, seeds as int);
    if old(vol).occupied(u, v, w) && between(lo, hi, u, v, w) {
        let (s, j) = choose|s: int, j: int|
            0 <= s < boxes.len() && 0 <= j < boxes[s].len() && in_box(#[trigger] boxes[s][j], u, v, w);
        assert(boxes[s].len() > 0);
        let e = choose|e: int| 0 <= e < all.len() && #[trigger] all[e] == (s, boxes[s]);
        assert(pieces(out@)[e] == (out@[e].0 as int, out@[e].1@));
        assert(holds(out@[e].1@[j], u, v, w));
    }
    if 0 <= p < out@.len() {
        assert(pieces(out@)[p] == (out@[p].0 as int, out@[p].1@));
        let s = all[p].0;
        assert(all[p] == (s, boxes[s]));
        if p < q < out@.len() {
            assert(pieces(out@)[q] == (out@[q].0 as int, out@[q].1@));
            assert(all[p].0 < all[q].0);
        }
        if 0 <= q < out@[p].1@.len() && holds(out@[p].1@[q], u, v, w) {
            assert(boxes[s] == out@[p].1@);
            assert(in_box(boxes[s][q], u, v, w));
            extraction_takes_each_cell_once(
                &vols[s],
                lo,
                hi,
                regions(dist2, n)[s],
                boxes[s],
                u,
                v,
                w,
            );
            assert(covered(boxes[s], boxes[s].len() as int, u, v, w));
            assert(regions(dist2, n)[s](u, v, w));
            lemma_closest(dist2, seeds, s as usize, x, y, z);
        }
    }
}

proof fn lemma_takers(boxes: Seq<Seq<CellBox>>, n: int)
    requires
        0 <= n <= boxes.len(),
    ensures
        ({
            let all = takers(boxes, n);
            &&& forall|e: int|
                #![trigger all[e]]
                0 <= e < all.len() ==> 0 <= all[e].0 < n && all[e].1 == boxes[all[e].0]
                    && boxes[all[e].0].len() > 0
            &&& forall|d: int, e: int|
                #![trigger all[d], all[e]]
                0 <= d < e < all.len() ==> all[d].0 < all[e].0
            &&& forall|s: int|
                #![trigger boxes[s]]
                0 <= s < n && boxes[s].len() > 0 ==> exists|e: int|
                    0 <= e < all.len() && #[trigger] all[e] == (s, boxes[s])
        }),
    decreases n,
{
    if n > 0 {
        lemma_takers(boxes, n - 1);
        let before = takers(boxes, n - 1);
        let all = takers(boxes, n);
        assert forall|s: int| #![trigger boxes[s]] 0 <= s < n && boxes[s].len() > 0 implies exists|e: int|
            0 <= e < all.len() && #[trigger] all[e] == (s, boxes[s]) by {
            if s < n - 1 {
                let e = choose|e: int| 0 <= e < before.len() && #[trigger] before[e] == (s, boxes[s]);
                assert(all[e] == before[e]);
            } else {
                assert(all[all.len() - 1] == (s, boxes[s]));
            }
        }
    }
}

/// The lattice of seeds is the smallest cube that has room for all of them, and every
/// seed has its own cell of it, row after row.
pub proof fn seeds_have_their_own_cells(n: usize, side: usize, out: Vec<SeedCell>, k: int, m: usize)
    requires
        1 <= n <= usize::MAX / 8,
        call_ensures(seed_side, (n,), side),
        call_ensures(seeds_jittered, (n,), out),
        0 <= k < n,
    ensures
        side >= 1,
        n <= side * side * side,
        1 <= m < side ==> m * m * m < n,
        out@.len() == n,
        out@[k].ix < side && out@[k].iy < side && out@[k].iz < side,
        out@[k].ix + side * (out@[k].iy + side * out@[k].iz) == k,
{
    let s2 = choose|s2: int| #[trigger]
        crate::fracture::lattice_side(s2, crate::fracture::seed_count(n as int)) && forall|q: int|
            0 <= q < out@.len() ==> crate::fracture::seed_at(#[trigger] out@[q], s2, q);
    crate::fracture::lattice_side_is_unique(side as int, s2, n as int);
    assert(crate::fracture::seed_at(out@[k], s2, k));
    if 1 <= m < side {
        let t = side - 1;
        assert(m * m * m <= t * t * t) by (nonlinear_arith)
            requires
                1 <= m <= t,
        ;
    }
}

/// The samples of a box face lie on that face: its centre first, then its four corners.
pub proof fn samples_lie_on_their_face(
    face: usize,
    s: usize,
    t: usize,
    r: (i8, i8, i8),
    q: (i8, i8, i8),
)
    requires
        face < 6,
        s < 5,
        t < 5,
        call_ensures(box_sample, (face, s), r),
        call_ensures(box_sample, (face, t), q),
    ensures
        ({
            let side: int = if face % 2 == 0 {
                -1
            } else {
                1
            };
            &&& face < 2 ==> r.0 == side
            &&& 2 <= face < 4 ==> r.1 == side
            &&& 4 <= face ==> r.2 == side
            &&& s == 0 ==> (face < 2 ==> r.1 == 0 && r.2 == 0) && (2 <= face < 4 ==> r.0 == 0 && r.2
                == 0) && (4 <= face ==> r.0 == 0 && r.1 == 0)
            &&& s > 0 ==> (r.0 == 1 || r.0 == -1) && (r.1 == 1 || r.1 == -1) && (r.2 == 1 || r.2
                == -1)
            &&& r == q ==> s == t
        }),
{
}

/// A sample of a box is a hit exactly if any sample of its face is closer than the skin
/// and it is not at least the skin away itself; hits are named by face and sample and
/// come in order.
pub proof fn close_faces_give_hits(
    dist: &[Scalar],
    skin: Scalar,
    hits: Vec<BoxHit>,
    face: usize,
    sample: usize,
)
    requires
        dist@.len() == 30,
        call_ensures(box_hits, (dist, skin), hits),
        face < 6,
        sample < 5,
    ensures
        (exists|k: int|
            0 <= k < hits@.len() && (#[trigger] hits@[k]).face == face && hits@[k].sample == sample)
            <==> (dist@[face * 5].lt_spec(skin) || dist@[face * 5 + 1].lt_spec(skin) || dist@[face * 5
            + 2].lt_spec(skin) || dist@[face * 5 + 3].lt_spec(skin) || dist@[face * 5 + 4].lt_spec(
            skin,
        )) && !skin.le_spec(dist@[face * 5 + sample]),
        forall|k: int|
            #![trigger hits@[k]]
            0 <= k < hits@.len() ==> hits@[k].feature == (hits@[k].face + 1) * 16 + hits@[k].sample
                && hits@[k].face < 6 && hits@[k].sample < 5,
        forall|j: int, k: int|
            #![trigger hits@[j], hits@[k]]
            0 <= j < k < hits@.len() ==> hits@[j].face * 5 + hits@[j].sample < hits@[k].face * 5
                + hits@[k].sample,
{
    let p = sample_hits(dist@, skin);
    let list = indices_where(p, 30);
    lemma_indices_where(p, 30);
    let t = face * 5 + sample;
    assert(t / 5 == face && t % 5 == sample);
    assert(hits@ == list.map_values(|t: int| hit_at(t)));
    assert forall|k: int| #![trigger hits@[k]] 0 <= k < hits@.len() implies hits@[k].feature == (
    hits@[k].face + 1) * 16 + hits@[k].sample && hits@[k].face < 6 && hits@[k].sample < 5
        && hits@[k].face * 5 + hits@[k].sample == list[k] by {
        assert(0 <= list[k] < 30);
    }
    assert forall|j: int, k: int| #![trigger hits@[j], hits@[k]] 0 <= j < k < hits@.len() implies hits@[j].face
        * 5 + hits@[j].sample < hits@[k].face * 5 + hits@[k].sample by {
        assert(list[j] < list[k]);
    }
    if exists|k: int|
        0 <= k < hits@.len() && (#[trigger] hits@[k]).face == face && hits@[k].sample == sample {
        let k = choose|k: int|
            0 <= k < hits@.len() && (#[trigger] hits@[k]).face == face && hits@[k].sample == sample;
        assert(list[k] == t);
        assert(p(t));
        let c = choose|c: int| 0 <= c < 5 && (#[trigger] dist@[t as int / 5 * 5 + c]).lt_spec(skin);
        assert(c == 0 || c == 1 || c == 2 || c == 3 || c == 4);
    }
    if p(t as int) {
        assert(list.contains(t as int));
        let k = choose|k: int| 0 <= k < list.len() && list[k] == t;
        assert(hits@[k].face == face && hits@[k].sample == sample);
    }
    let f = face as int;
    assert(dist@[f * 5 + 0] == dist@[face * 5]);
    assert(dist@[f * 5 + 1] == dist@[face * 5 + 1]);
    assert(dist@[f * 5 + 2] == dist@[face * 5 + 2]);
    assert(dist@[f * 5 + 3] == dist@[face * 5 + 3]);
    assert(dist@[f * 5 + 4] == dist@[face * 5 + 4]);
}

/// The cell on the other side of face `f`: faces come in pairs, low side first.
pub open spec fn across(x: int, y: int, z: int, f: int) -> (int, int, int) {
    (
        if f == 0 {
            x - 1
        } else if f == 1 {
            x + 1
        } else {
            x
        },
        if f == 2 {
            y - 1
        } else if f == 3 {
            y + 1
        } else {
            y
        },
        if f == 4 {
            z - 1
        } else if f == 5 {
            z + 1
        } else {
            z
        },
    )
}

/// The faces round a cell are asked for exactly if it is filled; a face of a cell at most
/// one step away is on the surface exactly if that cell is filled and the one across is
/// not, and it is open exactly if the one across is in the grid.
pub proof fn surfaces_are_between_filled_and_empty(
    vol: &VoxelVolume,
    c: (i32, i32, i32),
    r: Option<Vec<SurfaceFace>>,
    x: i32,
    y: i32,
    z: i32,
    f: u8,
    open: bool,
)
    requires
        vol.wf(),
        call_ensures(surface_faces, (vol, c), r),
        f < 6,
    ensures
        r is Some <==> filled(vol, c.0 as int, c.1 as int, c.2 as int),
        r is Some ==> ({
            let b = across(x as int, y as int, z as int, f as int);
            r.unwrap()@.contains(SurfaceFace { cell: (x, y, z), face: f, open }) <==> -1 <= x - c.0
                <= 1 && -1 <= y - c.1 <= 1 && -1 <= z - c.2 <= 1 && filled(
                vol,
                x as int,
                y as int,
                z as int,
            ) && !filled(vol, b.0, b.1, b.2) && (open <==> 0 <= b.0 < vol.nx && 0 <= b.1 < vol.ny && 0
                <= b.2 < vol.nz)
        }),
{
    lemma_filled(vol, c.0 as int, c.1 as int, c.2 as int);
    if r is Some {
        let faces = r.unwrap()@;
        let p = on_surface(vol, c);
        let list = indices_where(p, 162);
        lemma_indices_where(p, 162);
        assert(faces == list.map_values(|t: int| surface_at(vol, c, t)));
        let b = across(x as int, y as int, z as int, f as int);
        lemma_filled(vol, x as int, y as int, z as int);
        lemma_filled(vol, b.0, b.1, b.2);
        let face = SurfaceFace { cell: (x, y, z), face: f, open };
        if faces.contains(face) {
            let k = choose|k: int| 0 <= k < faces.len() && faces[k] == face;
            let t = list[k];
            assert(p(t));
            assert(surface_at(vol, c, t) == face);
            lemma_walk(c, t);
            let w = walk_cell(c, t);
            lemma_filled(vol, w.0, w.1, w.2);
        }
        if -1 <= x - c.0 <= 1 && -1 <= y - c.1 <= 1 && -1 <= z - c.2 <= 1 && filled(
            vol,
            x as int,
            y as int,
            z as int,
        ) && !filled(vol, b.0, b.1, b.2) && (open <==> 0 <= b.0 < vol.nx && 0 <= b.1 < vol.ny && 0
            <= b.2 < vol.nz) {
            let t = 54 * (z - c.2 + 1) + 18 * (y - c.1 + 1) + 6 * (x - c.0 + 1) + f;
            lemma_steps(x - c.0 + 1, y - c.1 + 1, z - c.2 + 1, f as int, t);
            lemma_walk(c, t);
            assert(walk_cell(c, t) == (x as int, y as int, z as int));
            assert(p(t));
            assert(list.contains(t));
            let k = choose|k: int| 0 <= k < list.len() && list[k] == t;
            assert(faces[k] == face);
        }
    }
}

proof fn lemma_steps(i: int, j: int, k: int, f: int, t: int)
    requires
        0 <= i <= 2,
        0 <= j <= 2,
        0 <= k <= 2,
        0 <= f < 6,
        t == 54 * k + 18 * j + 6 * i + f,
    ensures
        0 <= t < 162,
        t % 6 == f,
        (t / 6) % 3 == i,
        (t / 18) % 3 == j,
        t / 54 == k,
{
}

proof fn lemma_walk(c: (i32, i32, i32), t: int)
    requires
        0 <= t < 162,
    ensures
        ({
            let w = walk_cell(c, t);
            &&& -1 <= w.0 - c.0 <= 1
            &&& -1 <= w.1 - c.1 <= 1
            &&& -1 <= w.2 - c.2 <= 1
            &&& walk_behind(c, t) == across(w.0, w.1, w.2, t % 6)
        }),
{
    let f = t % 6;
    assert(f == 0 || f == 1 || f == 2 || f == 3 || f == 4 || f == 5);
}

/// A body leaves by the closest open face, the first of several; by the closest face at
/// the rim of the grid only if no open face has a finite distance; and by none if no face
/// has.
pub proof fn bodies_leave_by_the_closest_open_face(
    faces: &Vec<SurfaceFace>,
    d2: &[Scalar],
    r: Option<usize>,
    j: int,
)
    requires
        d2@.len() == faces@.len(),
        forall|i: int| 0 <= i < d2@.len() ==> (#[trigger] d2@[i]).bits != 0xff80_0000,
        call_ensures(leaving_face, (faces, d2), r),
        0 <= j < faces@.len(),
        d2@[j].is_finite_spec(),
    ensures
        r is Some,
        r.unwrap() < faces@.len(),
        faces@[j].open ==> faces@[r.unwrap() as int].open,
        faces@[j].open == faces@[r.unwrap() as int].open ==> d2@[r.unwrap() as int].le_spec(d2@[j])
            && (j < r.unwrap() ==> d2@[r.unwrap() as int].lt_spec(d2@[j])),
{
    let o = crate::voxel_contacts::opens(faces@);
    let s = crate::voxel_contacts::shells(faces@);
    assert(o(j) == faces@[j].open);
    assert(s(j) == !faces@[j].open);
    assert(d2@[j] == d2@[j]);
    if let Some(k) = r {
        assert(o(k as int) == faces@[k as int].open);
        assert(s(k as int) == !faces@[k as int].open);
    }
}

} // verus!
