//! Taking filled cells out of a voxel volume as boxes.
//!
//! The volume is scanned plane by plane, row by row. The first cell that may be
//! taken opens a box, which grows along the first axis as far as it can, then by
//! whole rows, then by whole slabs; its cells are emptied and the scan goes on.

use crate::scalar::Scalar;
use crate::voxel::{scanned_before, VoxelVolume};
use vstd::prelude::*;

verus! {

/// A box of cells; both corners belong to it.
#[derive(Clone, Copy, Debug, PartialEq, Eq)]
pub struct CellBox {
    pub lo: (i32, i32, i32),
    pub hi: (i32, i32, i32),
}

/// A choice of cells.
pub type CellChoice = spec_fn(int, int, int) -> bool;

/// The cell is in the box.
pub open spec fn in_box(b: CellBox, x: int, y: int, z: int) -> bool {
    b.lo.0 <= x <= b.hi.0 && b.lo.1 <= y <= b.hi.1 && b.lo.2 <= z <= b.hi.2
}

/// The cell is in one of the first `k` boxes.
pub open spec fn covered(boxes: Seq<CellBox>, k: int, x: int, y: int, z: int) -> bool {
    exists|j: int| 0 <= j < k && in_box(#[trigger] boxes[j], x, y, z)
}

/// The cells that a question answers with yes.
pub open spec fn accepts<F: Fn(i32, i32, i32) -> bool>(f: F) -> CellChoice {
    |x: int, y: int, z: int| f.ensures((x as i32, y as i32, z as i32), true)
}

/// The cells that a question answers with no.
pub open spec fn rejects<F: Fn(i32, i32, i32) -> bool>(f: F) -> CellChoice {
    |x: int, y: int, z: int| f.ensures((x as i32, y as i32, z as i32), false)
}

/// The question may be asked of every cell and always gives the same answer.
pub open spec fn consistent<F: Fn(i32, i32, i32) -> bool>(f: F) -> bool {
    &&& forall|x: i32, y: i32, z: i32| #[trigger] f.requires((x, y, z))
    &&& forall|x: i32, y: i32, z: i32|
        !(#[trigger] f.ensures((x, y, z), true) && f.ensures((x, y, z), false))
}

/// The cell is filled and chosen.
pub open spec fn free(vol: &VoxelVolume, p: CellChoice, x: int, y: int, z: int) -> bool {
    vol.occupied(x, y, z) && p(x, y, z)
}

/// The cell lies between the corners.
pub open spec fn between(
    lo: (i32, i32, i32),
    hi: (i32, i32, i32),
    x: int,
    y: int,
    z: int,
) -> bool {
    lo.0 <= x <= hi.0 && lo.1 <= y <= hi.1 && lo.2 <= z <= hi.2
}

/// The cell may be taken once the first `k` boxes are gone: it lies between the
/// corners, is filled and chosen, and was not taken.
pub open spec fn takeable(
    vol: &VoxelVolume,
    lo: (i32, i32, i32),
    hi: (i32, i32, i32),
    p: CellChoice,
    boxes: Seq<CellBox>,
    k: int,
    x: int,
    y: int,
    z: int,
) -> bool {
    between(lo, hi, x, y, z) && free(vol, p, x, y, z) && !covered(boxes, k, x, y, z)
}

/// Box `k` opens at the first takeable cell, holds only takeable cells, and
/// could not have been grown by a cell, a row or a slab.
pub open spec fn greedy_box(
    vol: &VoxelVolume,
    lo: (i32, i32, i32),
    hi: (i32, i32, i32),
    p: CellChoice,
    boxes: Seq<CellBox>,
    k: int,
) -> bool {
    let b = boxes[k];
    &&& in_box(b, b.lo.0 as int, b.lo.1 as int, b.lo.2 as int)
    &&& forall|x: int, y: int, z: int|
        scanned_before(x, y, z, b.lo.0 as int, b.lo.1 as int, b.lo.2 as int) ==> !#[trigger] takeable(
            vol,
            lo,
            hi,
            p,
            boxes,
            k,
            x,
            y,
            z,
        )
    &&& forall|x: int, y: int, z: int|
        in_box(b, x, y, z) ==> #[trigger] takeable(vol, lo, hi, p, boxes, k, x, y, z)
    &&& !takeable(vol, lo, hi, p, boxes, k, b.hi.0 + 1, b.lo.1 as int, b.lo.2 as int)
    &&& exists|x: int|
        b.lo.0 <= x <= b.hi.0 && !#[trigger] takeable(
            vol,
            lo,
            hi,
            p,
            boxes,
            k,
            x,
            b.hi.1 + 1,
            b.lo.2 as int,
        )
    &&& exists|x: int, y: int|
        b.lo.0 <= x <= b.hi.0 && b.lo.1 <= y <= b.hi.1 && !#[trigger] takeable(
            vol,
            lo,
            hi,
            p,
            boxes,
            k,
            x,
            y,
            b.hi.2 + 1,
        )
}

/// The boxes are those of the scan: each is greedy in its turn, and nothing
/// takeable is left.
pub open spec fn greedy_cover(
    vol: &VoxelVolume,
    lo: (i32, i32, i32),
    hi: (i32, i32, i32),
    p: CellChoice,
    boxes: Seq<CellBox>,
) -> bool {
    &&& forall|k: int|
        0 <= k < boxes.len() ==> #[trigger] greedy_box(vol, lo, hi, p, boxes, k)
    &&& forall|x: int, y: int, z: int|
        !#[trigger] takeable(vol, lo, hi, p, boxes, boxes.len() as int, x, y, z)
}

/// The volume without the cells of the boxes. The recorded bounds stay.
pub open spec fn emptied(before: &VoxelVolume, after: &VoxelVolume, boxes: Seq<CellBox>) -> bool {
    &&& after.same_grid(before)
    &&& after.any == before.any
    &&& after.occ_min == before.occ_min
    &&& after.occ_max == before.occ_max
    &&& forall|x: int, y: int, z: int| #[trigger]
        after.occupied(x, y, z) == (before.occupied(x, y, z) && !covered(
            boxes,
            boxes.len() as int,
            x,
            y,
            z,
        ))
}

/// Asks whether a cell of the grid is filled and chosen.
fn is_free<F: Fn(i32, i32, i32) -> bool>(
    vol: &VoxelVolume,
    inside: &F,
    x: i32,
    y: i32,
    z: i32,
) -> (r: bool)
    requires
        vol.wf(),
        consistent(*inside),
        x >= 0,
        y >= 0,
        z >= 0,
    ensures
        r == free(vol, accepts(*inside), x as int, y as int, z as int),
        !r && vol.occupied(x as int, y as int, z as int) ==> inside.ensures((x, y, z), false),
{
    if !vol.get(x as u32, y as u32, z as u32) {
        return false;
    }
    inside(x, y, z)
}

/// How far a run of free cells reaches along the first axis, up to `x1`.
fn grow_x<F: Fn(i32, i32, i32) -> bool>(
    vol: &VoxelVolume,
    inside: &F,
    ix: i32,
    iy: i32,
    iz: i32,
    x1: i32,
) -> (ex: i32)
    requires
        vol.wf(),
        consistent(*inside),
        0 <= ix <= x1 < i32::MAX,
        iy >= 0,
        iz >= 0,
        free(vol, accepts(*inside), ix as int, iy as int, iz as int),
    ensures
        ix <= ex <= x1,
        forall|x: int|
            ix <= x <= ex ==> #[trigger] free(vol, accepts(*inside), x, iy as int, iz as int),
        ex == x1 || !free(vol, accepts(*inside), ex + 1, iy as int, iz as int),
{
    let mut ex: i32 = ix;
    while ex < x1
        invariant
            vol.wf(),
            consistent(*inside),
            0 <= ix <= ex <= x1 < i32::MAX,
            iy >= 0,
            iz >= 0,
            forall|x: int|
                ix <= x <= ex ==> #[trigger] free(vol, accepts(*inside), x, iy as int, iz as int),
        decreases x1 - ex,
    {
        if !is_free(vol, inside, ex + 1, iy, iz) {
            return ex;
        }
        ex += 1;
    }
    ex
}

/// Whether the cells of a row from `ix` to `ex` are all free.
fn row_fits<F: Fn(i32, i32, i32) -> bool>(
    vol: &VoxelVolume,
    inside: &F,
    ix: i32,
    ex: i32,
    y: i32,
    z: i32,
) -> (r: bool)
    requires
        vol.wf(),
        consistent(*inside),
        0 <= ix <= ex < i32::MAX,
        y >= 0,
        z >= 0,
    ensures
        r ==> forall|x: int|
            ix <= x <= ex ==> #[trigger] free(vol, accepts(*inside), x, y as int, z as int),
        !r ==> exists|x: int|
            ix <= x <= ex && !#[trigger] free(vol, accepts(*inside), x, y as int, z as int),
{
    let mut kx: i32 = ix;
    while kx <= ex
        invariant
            vol.wf(),
            consistent(*inside),
            0 <= ix <= kx <= ex + 1,
            ex < i32::MAX,
            y >= 0,
            z >= 0,
            forall|x: int|
                ix <= x < kx ==> #[trigger] free(vol, accepts(*inside), x, y as int, z as int),
        decreases ex + 1 - kx,
    {
        if !is_free(vol, inside, kx, y, z) {
            assert(!free(vol, accepts(*inside), kx as int, y as int, z as int));
            return false;
        }
        kx += 1;
    }
    true
}

/// How many rows fit, up to `y1`.
fn grow_y<F: Fn(i32, i32, i32) -> bool>(
    vol: &VoxelVolume,
    inside: &F,
    ix: i32,
    ex: i32,
    iy: i32,
    iz: i32,
    y1: i32,
) -> (ey: i32)
    requires
        vol.wf(),
        consistent(*inside),
        0 <= ix <= ex < i32::MAX,
        0 <= iy <= y1 < i32::MAX,
        iz >= 0,
        forall|x: int|
            ix <= x <= ex ==> #[trigger] free(vol, accepts(*inside), x, iy as int, iz as int),
    ensures
        iy <= ey <= y1,
        forall|x: int, y: int|
            ix <= x <= ex && iy <= y <= ey ==> #[trigger] free(
                vol,
                accepts(*inside),
                x,
                y,
                iz as int,
            ),
        ey == y1 || exists|x: int|
            ix <= x <= ex && !#[trigger] free(vol, accepts(*inside), x, ey + 1, iz as int),
{
    let mut ey: i32 = iy;
    while ey < y1
        invariant
            vol.wf(),
            consistent(*inside),
            0 <= ix <= ex < i32::MAX,
            0 <= iy <= ey <= y1 < i32::MAX,
            iz >= 0,
            forall|x: int, y: int|
                ix <= x <= ex && iy <= y <= ey ==> #[trigger] free(
                    vol,
                    accepts(*inside),
                    x,
                    y,
                    iz as int,
                ),
        decreases y1 - ey,
    {
        if !row_fits(vol, inside, ix, ex, ey + 1, iz) {
            return ey;
        }
        ey += 1;
    }
    ey
}

/// Whether the cells of a slab are all free.
fn slab_fits<F: Fn(i32, i32, i32) -> bool>(
    vol: &VoxelVolume,
    inside: &F,
    ix: i32,
    ex: i32,
    iy: i32,
    ey: i32,
    z: i32,
) -> (r: bool)
    requires
        vol.wf(),
        consistent(*inside),
        0 <= ix <= ex < i32::MAX,
        0 <= iy <= ey < i32::MAX,
        z >= 0,
    ensures
        r ==> forall|x: int, y: int|
            ix <= x <= ex && iy <= y <= ey ==> #[trigger] free(
                vol,
                accepts(*inside),
                x,
                y,
                z as int,
            ),
        !r ==> exists|x: int, y: int|
            ix <= x <= ex && iy <= y <= ey && !#[trigger] free(
                vol,
                accepts(*inside),
                x,
                y,
                z as int,
            ),
{
    let mut ky: i32 = iy;
    while ky <= ey
        invariant
            vol.wf(),
            consistent(*inside),
            0 <= ix <= ex < i32::MAX,
            0 <= iy <= ky <= ey + 1,
            ey < i32::MAX,
            z >= 0,
            forall|x: int, y: int|
                ix <= x <= ex && iy <= y < ky ==> #[trigger] free(
                    vol,
                    accepts(*inside),
                    x,
                    y,
                    z as int,
                ),
        decreases ey + 1 - ky,
    {
        if !row_fits(vol, inside, ix, ex, ky, z) {
            return false;
        }
        ky += 1;
    }
    true
}

/// How many slabs fit, up to `z1`.
fn grow_z<F: Fn(i32, i32, i32) -> bool>(
    vol: &VoxelVolume,
    inside: &F,
    ix: i32,
    ex: i32,
    iy: i32,
    ey: i32,
    iz: i32,
    z1: i32,
) -> (ez: i32)
    requires
        vol.wf(),
        consistent(*inside),
        0 <= ix <= ex < i32::MAX,
        0 <= iy <= ey < i32::MAX,
        0 <= iz <= z1 < i32::MAX,
        forall|x: int, y: int|
            ix <= x <= ex && iy <= y <= ey ==> #[trigger] free(
                vol,
                accepts(*inside),
                x,
                y,
                iz as int,
            ),
    ensures
        iz <= ez <= z1,
        forall|x: int, y: int, z: int|
            ix <= x <= ex && iy <= y <= ey && iz <= z <= ez ==> #[trigger] free(
                vol,
                accepts(*inside),
                x,
                y,
                z,
            ),
        ez == z1 || exists|x: int, y: int|
            ix <= x <= ex && iy <= y <= ey && !#[trigger] free(
                vol,
                accepts(*inside),
                x,
                y,
                ez + 1,
            ),
{
    let mut ez: i32 = iz;
    while ez < z1
        invariant
            vol.wf(),
            consistent(*inside),
            0 <= ix <= ex < i32::MAX,
            0 <= iy <= ey < i32::MAX,
            0 <= iz <= ez <= z1 < i32::MAX,
            forall|x: int, y: int, z: int|
                ix <= x <= ex && iy <= y <= ey && iz <= z <= ez ==> #[trigger] free(
                    vol,
                    accepts(*inside),
                    x,
                    y,
                    z,
                ),
        decreases z1 - ez,
    {
        if !slab_fits(vol, inside, ix, ex, iy, ey, ez + 1) {
            return ez;
        }
        ez += 1;
    }
    ez
}

/// Empties all cells of a box.
fn clear_box(vol: &mut VoxelVolume, b: CellBox)
    requires
        old(vol).wf(),
        0 <= b.lo.0 <= b.hi.0 < i32::MAX,
        0 <= b.lo.1 <= b.hi.1 < i32::MAX,
        0 <= b.lo.2 <= b.hi.2 < i32::MAX,
        forall|x: int, y: int, z: int|
            in_box(b, x, y, z) ==> #[trigger] old(vol).occupied(x, y, z),
    ensures
        final(vol).wf(),
        final(vol).same_grid(old(vol)),
        final(vol).any == old(vol).any,
        final(vol).occ_min == old(vol).occ_min,
        final(vol).occ_max == old(vol).occ_max,
        forall|x: int, y: int, z: int| #[trigger]
            final(vol).occupied(x, y, z) == (old(vol).occupied(x, y, z) && !in_box(b, x, y, z)),
        old(vol).filled == final(vol).filled + volume(b),
{
    let ghost before = *vol;
    let ghost w = b.hi.0 - b.lo.0 + 1;
    let ghost h = b.hi.1 - b.lo.1 + 1;
    assert(w * h * 0 == 0) by (nonlinear_arith);
    let mut kz: i32 = b.lo.2;
    while kz <= b.hi.2
        invariant
            vol.wf(),
            vol.same_grid(&before),
            w == b.hi.0 - b.lo.0 + 1,
            h == b.hi.1 - b.lo.1 + 1,
            forall|x: int, y: int, z: int|
                in_box(b, x, y, z) ==> #[trigger] before.occupied(x, y, z),
            before.filled == vol.filled + w * h * (kz - b.lo.2),
            vol.any == before.any,
            vol.occ_min == before.occ_min,
            vol.occ_max == before.occ_max,
            0 <= b.lo.0 <= b.hi.0 < i32::MAX,
            0 <= b.lo.1 <= b.hi.1 < i32::MAX,
            0 <= b.lo.2 <= kz <= b.hi.2 + 1,
            b.hi.2 < i32::MAX,
            forall|x: int, y: int, z: int| #[trigger]
                vol.occupied(x, y, z) == (before.occupied(x, y, z) && !(in_box(b, x, y, z) && z
                    < kz)),
        decreases b.hi.2 + 1 - kz,
    {
        assert(w * 0 == 0) by (nonlinear_arith);
        let mut ky: i32 = b.lo.1;
        while ky <= b.hi.1
            invariant
                vol.wf(),
                vol.same_grid(&before),
            w == b.hi.0 - b.lo.0 + 1,
            h == b.hi.1 - b.lo.1 + 1,
            forall|x: int, y: int, z: int|
                in_box(b, x, y, z) ==> #[trigger] before.occupied(x, y, z),
                before.filled == vol.filled + w * h * (kz - b.lo.2) + w * (ky - b.lo.1),
                vol.any == before.any,
                vol.occ_min == before.occ_min,
                vol.occ_max == before.occ_max,
                0 <= b.lo.0 <= b.hi.0 < i32::MAX,
                0 <= b.lo.1 <= ky <= b.hi.1 + 1,
                b.hi.1 < i32::MAX,
                0 <= b.lo.2 <= kz <= b.hi.2,
                forall|x: int, y: int, z: int| #[trigger]
                    vol.occupied(x, y, z) == (before.occupied(x, y, z) && !(in_box(b, x, y, z) && (z
                        < kz || (z == kz && y < ky)))),
            decreases b.hi.1 + 1 - ky,
        {
            let mut kx: i32 = b.lo.0;
            while kx <= b.hi.0
                invariant
                    vol.wf(),
                    vol.same_grid(&before),
            w == b.hi.0 - b.lo.0 + 1,
            h == b.hi.1 - b.lo.1 + 1,
            forall|x: int, y: int, z: int|
                in_box(b, x, y, z) ==> #[trigger] before.occupied(x, y, z),
                    before.filled == vol.filled + w * h * (kz - b.lo.2) + w * (ky - b.lo.1) + (kx
                        - b.lo.0),
                    vol.any == before.any,
                    vol.occ_min == before.occ_min,
                    vol.occ_max == before.occ_max,
                    0 <= b.lo.0 <= kx <= b.hi.0 + 1,
                    b.hi.0 < i32::MAX,
                    0 <= b.lo.1 <= ky <= b.hi.1,
                    0 <= b.lo.2 <= kz <= b.hi.2,
                    forall|x: int, y: int, z: int| #[trigger]
                        vol.occupied(x, y, z) == (before.occupied(x, y, z) && !(in_box(b, x, y, z)
                            && scanned_before(x, y, z, kx as int, ky as int, kz as int))),
                decreases b.hi.0 + 1 - kx,
            {
                assert(in_box(b, kx as int, ky as int, kz as int));
                assert(vol.occupied(kx as int, ky as int, kz as int));
                vol.set(kx as u32, ky as u32, kz as u32, false);
                kx += 1;
            }
            assert(w * (ky - b.lo.1) + w == w * (ky + 1 - b.lo.1)) by (nonlinear_arith);
            ky += 1;
        }
        assert(w * h * (kz - b.lo.2) + w * h == w * h * (kz + 1 - b.lo.2)) by (nonlinear_arith);
        kz += 1;
    }
}

/// How many cells the box has.
pub open spec fn volume(b: CellBox) -> int {
    (b.hi.0 - b.lo.0 + 1) * (b.hi.1 - b.lo.1 + 1) * (b.hi.2 - b.lo.2 + 1)
}

/// How many cells the boxes have together.
pub open spec fn total_volume(boxes: Seq<CellBox>) -> int
    decreases boxes.len(),
{
    if boxes.len() == 0 {
        0
    } else {
        total_volume(boxes.drop_last()) + volume(boxes.last())
    }
}

/// The scan has reached a cell: the boxes so far are out of the volume, each is
/// greedy, and nothing takeable lies behind.
spec fn scanned_to(
    before: &VoxelVolume,
    vol: &VoxelVolume,
    lo: (i32, i32, i32),
    hi: (i32, i32, i32),
    p: CellChoice,
    q: CellChoice,
    boxes: Seq<CellBox>,
    x: int,
    y: int,
    z: int,
) -> bool {
    &&& vol.wf()
    &&& before.filled == vol.filled + total_volume(boxes)
    &&& forall|jx: int, jy: int, jz: int|
        scanned_before(jx, jy, jz, x, y, z) && between(lo, hi, jx, jy, jz)
            && #[trigger] vol.occupied(jx, jy, jz) ==> q(jx, jy, jz)
    &&& emptied(before, vol, boxes)
    &&& forall|k: int|
        0 <= k < boxes.len() ==> #[trigger] greedy_box(before, lo, hi, p, boxes, k)
    &&& forall|jx: int, jy: int, jz: int|
        scanned_before(jx, jy, jz, x, y, z) ==> !#[trigger] takeable(
            before,
            lo,
            hi,
            p,
            boxes,
            boxes.len() as int,
            jx,
            jy,
            jz,
        )
}

/// A further box changes nothing about the boxes before it.
proof fn lemma_prefix(
    vol: &VoxelVolume,
    lo: (i32, i32, i32),
    hi: (i32, i32, i32),
    p: CellChoice,
    boxes: Seq<CellBox>,
    b: CellBox,
    k: int,
)
    requires
        0 <= k <= boxes.len(),
    ensures
        forall|x: int, y: int, z: int| #[trigger]
            covered(boxes.push(b), k, x, y, z) == covered(boxes, k, x, y, z),
        forall|x: int, y: int, z: int| #[trigger]
            takeable(vol, lo, hi, p, boxes.push(b), k, x, y, z) == takeable(
                vol,
                lo,
                hi,
                p,
                boxes,
                k,
                x,
                y,
                z,
            ),
        k < boxes.len() && greedy_box(vol, lo, hi, p, boxes, k) ==> greedy_box(
            vol,
            lo,
            hi,
            p,
            boxes.push(b),
            k,
        ),
{
    let more = boxes.push(b);
    assert forall|x: int, y: int, z: int| #[trigger] covered(more, k, x, y, z) == covered(
        boxes,
        k,
        x,
        y,
        z,
    ) by {
        if covered(more, k, x, y, z) {
            let j = choose|j: int| 0 <= j < k && in_box(#[trigger] more[j], x, y, z);
            assert(in_box(boxes[j], x, y, z));
        }
        if covered(boxes, k, x, y, z) {
            let j = choose|j: int| 0 <= j < k && in_box(#[trigger] boxes[j], x, y, z);
            assert(in_box(more[j], x, y, z));
        }
    }
    assert forall|x: int, y: int, z: int| #[trigger] takeable(vol, lo, hi, p, more, k, x, y, z)
        == takeable(vol, lo, hi, p, boxes, k, x, y, z) by {
        assert(covered(more, k, x, y, z) == covered(boxes, k, x, y, z));
    }
    if k < boxes.len() {
        assert(more[k] == boxes[k]);
        let c = boxes[k];
        if greedy_box(vol, lo, hi, p, boxes, k) {
            let x = choose|x: int|
                c.lo.0 <= x <= c.hi.0 && !#[trigger] takeable(
                    vol,
                    lo,
                    hi,
                    p,
                    boxes,
                    k,
                    x,
                    c.hi.1 + 1,
                    c.lo.2 as int,
                );
            assert(!takeable(vol, lo, hi, p, more, k, x, c.hi.1 + 1, c.lo.2 as int));
            let (u, v) = choose|u: int, v: int|
                c.lo.0 <= u <= c.hi.0 && c.lo.1 <= v <= c.hi.1 && !#[trigger] takeable(
                    vol,
                    lo,
                    hi,
                    p,
                    boxes,
                    k,
                    u,
                    v,
                    c.hi.2 + 1,
                );
            assert(!takeable(vol, lo, hi, p, more, k, u, v, c.hi.2 + 1));
            assert(greedy_box(vol, lo, hi, p, more, k));
        }
    }
}

/// A further box covers its own cells and nothing else.
proof fn lemma_covered_push(boxes: Seq<CellBox>, b: CellBox, x: int, y: int, z: int)
    ensures
        covered(boxes.push(b), boxes.len() as int + 1, x, y, z) == (covered(
            boxes,
            boxes.len() as int,
            x,
            y,
            z,
        ) || in_box(b, x, y, z)),
{
    let more = boxes.push(b);
    let n = boxes.len() as int;
    if covered(more, n + 1, x, y, z) {
        let j = choose|j: int| 0 <= j < n + 1 && in_box(#[trigger] more[j], x, y, z);
        if j < n {
            assert(in_box(boxes[j], x, y, z));
        }
    }
    if covered(boxes, n, x, y, z) {
        let j = choose|j: int| 0 <= j < n && in_box(#[trigger] boxes[j], x, y, z);
        assert(in_box(more[j], x, y, z));
    }
    if in_box(b, x, y, z) {
        assert(in_box(more[n], x, y, z));
    }
}

/// What is free in the emptied volume is what may still be taken.
proof fn lemma_free_is_takeable(
    before: &VoxelVolume,
    vol: &VoxelVolume,
    lo: (i32, i32, i32),
    hi: (i32, i32, i32),
    p: CellChoice,
    boxes: Seq<CellBox>,
    x: int,
    y: int,
    z: int,
)
    requires
        emptied(before, vol, boxes),
    ensures
        takeable(before, lo, hi, p, boxes, boxes.len() as int, x, y, z) == (between(
            lo,
            hi,
            x,
            y,
            z,
        ) && free(vol, p, x, y, z)),
{
    assert(vol.occupied(x, y, z) == (before.occupied(x, y, z) && !covered(
        boxes,
        boxes.len() as int,
        x,
        y,
        z,
    )));
}

/// Taking the greedy box out moves the scan past its first cell.
proof fn lemma_box_taken(
    before: &VoxelVolume,
    mid: &VoxelVolume,
    after: &VoxelVolume,
    lo: (i32, i32, i32),
    hi: (i32, i32, i32),
    p: CellChoice,
    q: CellChoice,
    boxes: Seq<CellBox>,
    b: CellBox,
    x1: int,
    y1: int,
    z1: int,
    row_stop: int,
    slab_stop: (int, int),
)
    requires
        scanned_to(
            before,
            mid,
            lo,
            hi,
            p,
            q,
            boxes,
            b.lo.0 as int,
            b.lo.1 as int,
            b.lo.2 as int,
        ),
        b.lo.0 <= b.hi.0 <= x1,
        b.lo.1 <= b.hi.1 <= y1,
        b.lo.2 <= b.hi.2 <= z1,
        lo.0 <= b.lo.0,
        lo.1 <= b.lo.1,
        lo.2 <= b.lo.2,
        x1 <= hi.0,
        y1 <= hi.1,
        z1 <= hi.2,
        x1 == hi.0 || x1 == before.nx - 1,
        y1 == hi.1 || y1 == before.ny - 1,
        z1 == hi.2 || z1 == before.nz - 1,
        forall|x: int, y: int, z: int|
            in_box(b, x, y, z) ==> #[trigger] free(mid, p, x, y, z),
        b.hi.0 == x1 || !free(mid, p, b.hi.0 + 1, b.lo.1 as int, b.lo.2 as int),
        b.hi.1 == y1 || (b.lo.0 <= row_stop <= b.hi.0 && !free(
            mid,
            p,
            row_stop,
            b.hi.1 + 1,
            b.lo.2 as int,
        )),
        b.hi.2 == z1 || (b.lo.0 <= slab_stop.0 <= b.hi.0 && b.lo.1 <= slab_stop.1 <= b.hi.1
            && !free(mid, p, slab_stop.0, slab_stop.1, b.hi.2 + 1)),
        after.wf(),
        after.same_grid(mid),
        mid.filled == after.filled + volume(b),
        after.any == mid.any,
        after.occ_min == mid.occ_min,
        after.occ_max == mid.occ_max,
        forall|x: int, y: int, z: int| #[trigger]
            after.occupied(x, y, z) == (mid.occupied(x, y, z) && !in_box(b, x, y, z)),
    ensures
        scanned_to(
            before,
            after,
            lo,
            hi,
            p,
            q,
            boxes.push(b),
            b.lo.0 + 1,
            b.lo.1 as int,
            b.lo.2 as int,
        ),
{
    let n = boxes.len() as int;
    let more = boxes.push(b);
    assert(more[n] == b);
    assert(more.drop_last() =~= boxes);
    assert forall|jx: int, jy: int, jz: int|
        scanned_before(jx, jy, jz, b.lo.0 + 1, b.lo.1 as int, b.lo.2 as int) && between(
            lo,
            hi,
            jx,
            jy,
            jz,
        ) && #[trigger] after.occupied(jx, jy, jz) implies q(jx, jy, jz) by {
        assert(mid.occupied(jx, jy, jz));
        if (jx, jy, jz) == (b.lo.0 as int, b.lo.1 as int, b.lo.2 as int) {
            assert(in_box(b, jx, jy, jz));
        }
    }
    lemma_prefix(before, lo, hi, p, boxes, b, n);
    assert(emptied(before, after, more)) by {
        assert forall|x: int, y: int, z: int| #[trigger] after.occupied(x, y, z) == (
        before.occupied(x, y, z) && !covered(more, n + 1, x, y, z)) by {
            lemma_covered_push(boxes, b, x, y, z);
            assert(after.occupied(x, y, z) == (mid.occupied(x, y, z) && !in_box(b, x, y, z)));
            assert(mid.occupied(x, y, z) == (before.occupied(x, y, z) && !covered(
                boxes,
                n,
                x,
                y,
                z,
            )));
        }
    }
    assert forall|k: int| 0 <= k < more.len() implies #[trigger] greedy_box(
        before,
        lo,
        hi,
        p,
        more,
        k,
    ) by {
        if k < n {
            lemma_prefix(before, lo, hi, p, boxes, b, k);
            assert(greedy_box(before, lo, hi, p, boxes, k));
        } else {
            assert forall|x: int, y: int, z: int|
                in_box(b, x, y, z) implies #[trigger] takeable(
                before,
                lo,
                hi,
                p,
                more,
                n,
                x,
                y,
                z,
            ) by {
                assert(free(mid, p, x, y, z));
                lemma_free_is_takeable(before, mid, lo, hi, p, boxes, x, y, z);
            }
            lemma_free_is_takeable(
                before,
                mid,
                lo,
                hi,
                p,
                boxes,
                b.hi.0 + 1,
                b.lo.1 as int,
                b.lo.2 as int,
            );
            assert(!takeable(
                before,
                lo,
                hi,
                p,
                more,
                n,
                b.hi.0 + 1,
                b.lo.1 as int,
                b.lo.2 as int,
            ));
            let x = if b.hi.1 == y1 {
                b.lo.0 as int
            } else {
                row_stop
            };
            lemma_free_is_takeable(
                before,
                mid,
                lo,
                hi,
                p,
                boxes,
                x,
                b.hi.1 + 1,
                b.lo.2 as int,
            );
            assert(!takeable(before, lo, hi, p, more, n, x, b.hi.1 + 1, b.lo.2 as int));
            let (u, v) = if b.hi.2 == z1 {
                (b.lo.0 as int, b.lo.1 as int)
            } else {
                slab_stop
            };
            lemma_free_is_takeable(before, mid, lo, hi, p, boxes, u, v, b.hi.2 + 1);
            assert(!takeable(before, lo, hi, p, more, n, u, v, b.hi.2 + 1));
        }
    }
    assert forall|jx: int, jy: int, jz: int|
        scanned_before(
            jx,
            jy,
            jz,
            b.lo.0 + 1,
            b.lo.1 as int,
            b.lo.2 as int,
        ) implies !#[trigger] takeable(before, lo, hi, p, more, n + 1, jx, jy, jz) by {
        lemma_covered_push(boxes, b, jx, jy, jz);
        if (jx, jy, jz) == (b.lo.0 as int, b.lo.1 as int, b.lo.2 as int) {
            assert(in_box(b, jx, jy, jz));
        } else {
            assert(!takeable(before, lo, hi, p, boxes, n, jx, jy, jz));
        }
    }
}

impl VoxelVolume {
    /// Takes the filled cells between `lo` and `hi`, corners included, that
    /// `inside` accepts, out of the volume as boxes.
    pub fn extract_where<F: Fn(i32, i32, i32) -> bool>(
        &mut self,
        lo: (i32, i32, i32),
        hi: (i32, i32, i32),
        inside: F,
    ) -> (out: Vec<CellBox>)
        requires
            old(self).wf(),
            consistent(inside),
        ensures
            final(self).wf(),
            emptied(old(self), final(self), out@),
            greedy_cover(old(self), lo, hi, accepts(inside), out@),
            forall|x: int, y: int, z: int|
                between(lo, hi, x, y, z) && #[trigger] final(self).occupied(x, y, z) ==> rejects(
                    inside,
                )(x, y, z),
            old(self).filled == final(self).filled + total_volume(out@),
    {
        let ghost before = *self;
        let ghost p = accepts(inside);
        let ghost q = rejects(inside);
        let mut out: Vec<CellBox> = Vec::new();
        let x0: i32 = if lo.0 > 0 {
            lo.0
        } else {
            0
        };
        let y0: i32 = if lo.1 > 0 {
            lo.1
        } else {
            0
        };
        let z0: i32 = if lo.2 > 0 {
            lo.2
        } else {
            0
        };
        let x1: i32 = if hi.0 < self.nx as i32 - 1 {
            hi.0
        } else {
            self.nx as i32 - 1
        };
        let y1: i32 = if hi.1 < self.ny as i32 - 1 {
            hi.1
        } else {
            self.ny as i32 - 1
        };
        let z1: i32 = if hi.2 < self.nz as i32 - 1 {
            hi.2
        } else {
            self.nz as i32 - 1
        };
        assert(emptied(&before, self, out@));
        assert forall|x: int, y: int, z: int| #[trigger] takeable(
            &before,
            lo,
            hi,
            p,
            out@,
            0,
            x,
            y,
            z,
        ) implies x0 <= x <= x1 && y0 <= y <= y1 && z0 <= z <= z1 by {
        }
        if x0 > x1 || y0 > y1 || z0 > z1 {
            return out;
        }
        let mut iz: i32 = z0;
        while iz <= z1
            invariant
                before == *old(self),
                before.wf(),
                consistent(inside),
                p == accepts(inside),
                q == rejects(inside),
                0 <= x0 <= x1 < i32::MAX && 0 <= y0 <= y1 < i32::MAX && 0 <= z0 <= iz <= z1 + 1,
                z1 < i32::MAX,
                lo.0 <= x0 && lo.1 <= y0 && lo.2 <= z0,
                x1 <= hi.0 && y1 <= hi.1 && z1 <= hi.2,
                x1 == hi.0 || x1 == before.nx - 1,
                y1 == hi.1 || y1 == before.ny - 1,
                z1 == hi.2 || z1 == before.nz - 1,
                x0 == lo.0 || x0 == 0,
                y0 == lo.1 || y0 == 0,
                z0 == lo.2 || z0 == 0,
                scanned_to(
                    &before,
                    self,
                    lo,
                    hi,
                    p,
                    q,
                    out@,
                    x0 as int,
                    y0 as int,
                    iz as int,
                ),
            decreases z1 + 1 - iz,
        {
            let mut iy: i32 = y0;
            while iy <= y1
                invariant
                    before == *old(self),
                    before.wf(),
                    consistent(inside),
                    p == accepts(inside),
                q == rejects(inside),
                    0 <= x0 <= x1 < i32::MAX && 0 <= y0 <= iy <= y1 + 1 && 0 <= z0 <= iz <= z1,
                    y1 < i32::MAX,
                    z1 < i32::MAX,
                    lo.0 <= x0 && lo.1 <= y0 && lo.2 <= z0,
                    x1 <= hi.0 && y1 <= hi.1 && z1 <= hi.2,
                    x1 == hi.0 || x1 == before.nx - 1,
                    y1 == hi.1 || y1 == before.ny - 1,
                    z1 == hi.2 || z1 == before.nz - 1,
                    x0 == lo.0 || x0 == 0,
                    y0 == lo.1 || y0 == 0,
                    z0 == lo.2 || z0 == 0,
                    scanned_to(
                        &before,
                        self,
                        lo,
                        hi,
                        p,
                        q,
                        out@,
                        x0 as int,
                        iy as int,
                        iz as int,
                    ),
                decreases y1 + 1 - iy,
            {
                let mut ix: i32 = x0;
                while ix <= x1
                    invariant
                        before == *old(self),
                        before.wf(),
                        consistent(inside),
                        p == accepts(inside),
                q == rejects(inside),
                        0 <= x0 <= ix <= x1 + 1 && 0 <= y0 <= iy <= y1 && 0 <= z0 <= iz <= z1,
                        x1 < i32::MAX,
                        y1 < i32::MAX,
                        z1 < i32::MAX,
                        lo.0 <= x0 && lo.1 <= y0 && lo.2 <= z0,
                        x1 <= hi.0 && y1 <= hi.1 && z1 <= hi.2,
                        x1 == hi.0 || x1 == before.nx - 1,
                        y1 == hi.1 || y1 == before.ny - 1,
                        z1 == hi.2 || z1 == before.nz - 1,
                        scanned_to(
                            &before,
                            self,
                            lo,
                            hi,
                            p,
                            q,
                            out@,
                            ix as int,
                            iy as int,
                            iz as int,
                        ),
                    decreases x1 + 1 - ix,
                {
                    let ghost mid = *self;
                    let ghost boxes = out@;
                    proof {
                        lemma_free_is_takeable(
                            &before,
                            &mid,
                            lo,
                            hi,
                            p,
                            boxes,
                            ix as int,
                            iy as int,
                            iz as int,
                        );
                    }
                    if is_free(self, &inside, ix, iy, iz) {
                        let ex: i32 = grow_x(self, &inside, ix, iy, iz, x1);
                        let ey: i32 = grow_y(self, &inside, ix, ex, iy, iz, y1);
                        let ghost row_stop = choose|x: int|
                            ix <= x <= ex && !#[trigger] free(self, p, x, ey + 1, iz as int);
                        let ez: i32 = grow_z(self, &inside, ix, ex, iy, ey, iz, z1);
                        let ghost slab_stop = choose|x: int, y: int|
                            ix <= x <= ex && iy <= y <= ey && !#[trigger] free(
                                self,
                                p,
                                x,
                                y,
                                ez + 1,
                            );
                        let b = CellBox { lo: (ix, iy, iz), hi: (ex, ey, ez) };
                        assert forall|x: int, y: int, z: int|
                            in_box(b, x, y, z) implies #[trigger] self.occupied(x, y, z) by {
                            assert(free(self, p, x, y, z));
                        }
                        clear_box(self, b);
                        out.push(b);
                        proof {
                            lemma_box_taken(
                                &before,
                                &mid,
                                self,
                                lo,
                                hi,
                                p,
                                q,
                                boxes,
                                b,
                                x1 as int,
                                y1 as int,
                                z1 as int,
                                row_stop,
                                slab_stop,
                            );
                        }
                    } else {
                        proof {
                            assert forall|jx: int, jy: int, jz: int|
                                scanned_before(
                                    jx,
                                    jy,
                                    jz,
                                    ix + 1,
                                    iy as int,
                                    iz as int,
                                ) implies !#[trigger] takeable(
                                &before,
                                lo,
                                hi,
                                p,
                                boxes,
                                boxes.len() as int,
                                jx,
                                jy,
                                jz,
                            ) by {
                                if scanned_before(jx, jy, jz, ix as int, iy as int, iz as int) {
                                } else {
                                    assert((jx, jy, jz) == (ix as int, iy as int, iz as int));
                                }
                            }
                        }
                    }
                    ix += 1;
                }
                proof {
                    assert forall|jx: int, jy: int, jz: int|
                        scanned_before(
                            jx,
                            jy,
                            jz,
                            x0 as int,
                            iy + 1,
                            iz as int,
                        ) implies !#[trigger] takeable(
                        &before,
                        lo,
                        hi,
                        p,
                        out@,
                        out@.len() as int,
                        jx,
                        jy,
                        jz,
                    ) by {
                    }
                }
                iy += 1;
            }
            proof {
                assert forall|jx: int, jy: int, jz: int|
                    scanned_before(
                        jx,
                        jy,
                        jz,
                        x0 as int,
                        y0 as int,
                        iz + 1,
                    ) implies !#[trigger] takeable(
                    &before,
                    lo,
                    hi,
                    p,
                    out@,
                    out@.len() as int,
                    jx,
                    jy,
                    jz,
                ) by {
                }
            }
            iz += 1;
        }
        out
    }
}

/// The boxes of an extraction share no cell, and together they hold exactly the
/// chosen filled cells between the corners: every such cell is taken out once,
/// and no other.
pub proof fn extraction_takes_each_cell_once(
    vol: &VoxelVolume,
    lo: (i32, i32, i32),
    hi: (i32, i32, i32),
    p: CellChoice,
    boxes: Seq<CellBox>,
    x: int,
    y: int,
    z: int,
)
    requires
        greedy_cover(vol, lo, hi, p, boxes),
    ensures
        covered(boxes, boxes.len() as int, x, y, z) <==> between(lo, hi, x, y, z) && free(
            vol,
            p,
            x,
            y,
            z,
        ),
        forall|j: int, k: int|
            0 <= j < boxes.len() && 0 <= k < boxes.len() && in_box(#[trigger] boxes[j], x, y, z)
                && in_box(#[trigger] boxes[k], x, y, z) ==> j == k,
{
    let n = boxes.len() as int;
    assert(!takeable(vol, lo, hi, p, boxes, n, x, y, z));
    if covered(boxes, n, x, y, z) {
        let j = choose|j: int| 0 <= j < n && in_box(#[trigger] boxes[j], x, y, z);
        assert(greedy_box(vol, lo, hi, p, boxes, j));
        assert(takeable(vol, lo, hi, p, boxes, j, x, y, z));
    }
    assert forall|j: int, k: int|
        0 <= j < k < n && in_box(#[trigger] boxes[j], x, y, z) implies !in_box(
        #[trigger] boxes[k],
        x,
        y,
        z,
    ) by {
        assert(greedy_box(vol, lo, hi, p, boxes, k));
        if in_box(boxes[k], x, y, z) {
            assert(takeable(vol, lo, hi, p, boxes, k, x, y, z));
            assert(covered(boxes, k, x, y, z));
        }
    }
}

/// Two extractions of the same volume with the same choice give the same boxes
/// in the same order.
pub proof fn extraction_is_determined(
    vol: &VoxelVolume,
    lo: (i32, i32, i32),
    hi: (i32, i32, i32),
    p: CellChoice,
    r: Seq<CellBox>,
    s: Seq<CellBox>,
)
    requires
        greedy_cover(vol, lo, hi, p, r),
        greedy_cover(vol, lo, hi, p, s),
    ensures
        r == s,
{
    let m = if r.len() < s.len() {
        r.len() as int
    } else {
        s.len() as int
    };
    lemma_same_prefix(vol, lo, hi, p, r, s, m);
    assert forall|x: int, y: int, z: int|
        covered(r, m, x, y, z) == #[trigger] covered(s, m, x, y, z) by {
        lemma_same_covered(r, s, m, x, y, z);
    }
    if r.len() > m {
        let b = r[m];
        assert(greedy_box(vol, lo, hi, p, r, m));
        assert(takeable(
            vol,
            lo,
            hi,
            p,
            r,
            m,
            b.lo.0 as int,
            b.lo.1 as int,
            b.lo.2 as int,
        ));
        assert(!takeable(
            vol,
            lo,
            hi,
            p,
            s,
            m,
            b.lo.0 as int,
            b.lo.1 as int,
            b.lo.2 as int,
        ));
        assert(covered(s, m, b.lo.0 as int, b.lo.1 as int, b.lo.2 as int) == covered(
            r,
            m,
            b.lo.0 as int,
            b.lo.1 as int,
            b.lo.2 as int,
        ));
    }
    if s.len() > m {
        let b = s[m];
        assert(greedy_box(vol, lo, hi, p, s, m));
        assert(takeable(
            vol,
            lo,
            hi,
            p,
            s,
            m,
            b.lo.0 as int,
            b.lo.1 as int,
            b.lo.2 as int,
        ));
        assert(!takeable(
            vol,
            lo,
            hi,
            p,
            r,
            m,
            b.lo.0 as int,
            b.lo.1 as int,
            b.lo.2 as int,
        ));
        assert(covered(s, m, b.lo.0 as int, b.lo.1 as int, b.lo.2 as int) == covered(
            r,
            m,
            b.lo.0 as int,
            b.lo.1 as int,
            b.lo.2 as int,
        ));
    }
    assert(r =~= s);
}

proof fn lemma_same_covered(r: Seq<CellBox>, s: Seq<CellBox>, k: int, x: int, y: int, z: int)
    requires
        0 <= k <= r.len(),
        k <= s.len(),
        forall|j: int| 0 <= j < k ==> #[trigger] r[j] == s[j],
    ensures
        covered(r, k, x, y, z) == covered(s, k, x, y, z),
{
    if covered(r, k, x, y, z) {
        let j = choose|j: int| 0 <= j < k && in_box(#[trigger] r[j], x, y, z);
        assert(in_box(s[j], x, y, z));
    }
    if covered(s, k, x, y, z) {
        let j = choose|j: int| 0 <= j < k && in_box(#[trigger] s[j], x, y, z);
        assert(r[j] == s[j]);
        assert(in_box(r[j], x, y, z));
    }
}

proof fn lemma_same_prefix(
    vol: &VoxelVolume,
    lo: (i32, i32, i32),
    hi: (i32, i32, i32),
    p: CellChoice,
    r: Seq<CellBox>,
    s: Seq<CellBox>,
    k: int,
)
    requires
        greedy_cover(vol, lo, hi, p, r),
        greedy_cover(vol, lo, hi, p, s),
        0 <= k <= r.len(),
        k <= s.len(),
    ensures
        forall|j: int| 0 <= j < k ==> #[trigger] r[j] == s[j],
    decreases k,
{
    if k > 0 {
        let i = k - 1;
        lemma_same_prefix(vol, lo, hi, p, r, s, i);
        let a = r[i];
        let b = s[i];
        assert(greedy_box(vol, lo, hi, p, r, i));
        assert(greedy_box(vol, lo, hi, p, s, i));
        assert forall|x: int, y: int, z: int| #[trigger] takeable(vol, lo, hi, p, r, i, x, y, z)
            == takeable(vol, lo, hi, p, s, i, x, y, z) by {
            lemma_same_covered(r, s, i, x, y, z);
        }
        lemma_same_box(vol, lo, hi, p, r, s, i);
    }
}

/// With the same takeable cells the next box is the same.
proof fn lemma_same_box(
    vol: &VoxelVolume,
    lo: (i32, i32, i32),
    hi: (i32, i32, i32),
    p: CellChoice,
    r: Seq<CellBox>,
    s: Seq<CellBox>,
    i: int,
)
    requires
        0 <= i < r.len(),
        i < s.len(),
        greedy_box(vol, lo, hi, p, r, i),
        greedy_box(vol, lo, hi, p, s, i),
        forall|x: int, y: int, z: int| #[trigger]
            takeable(vol, lo, hi, p, r, i, x, y, z) == takeable(vol, lo, hi, p, s, i, x, y, z),
    ensures
        r[i] == s[i],
{
    let a = r[i];
    let b = s[i];
    let (ax, ay, az) = (a.lo.0 as int, a.lo.1 as int, a.lo.2 as int);
    let (bx, by, bz) = (b.lo.0 as int, b.lo.1 as int, b.lo.2 as int);
    assert(takeable(vol, lo, hi, p, r, i, ax, ay, az));
    assert(takeable(vol, lo, hi, p, s, i, bx, by, bz));
    assert(takeable(vol, lo, hi, p, s, i, ax, ay, az));
    assert(takeable(vol, lo, hi, p, r, i, bx, by, bz));
    assert(!scanned_before(ax, ay, az, bx, by, bz));
    assert(!scanned_before(bx, by, bz, ax, ay, az));
    assert(ax == bx && ay == by && az == bz);
    if a.hi.0 < b.hi.0 {
        assert(in_box(b, a.hi.0 + 1, ay, az));
        assert(takeable(vol, lo, hi, p, s, i, a.hi.0 + 1, ay, az));
        assert(takeable(vol, lo, hi, p, r, i, a.hi.0 + 1, ay, az));
    } else if b.hi.0 < a.hi.0 {
        assert(in_box(a, b.hi.0 + 1, ay, az));
        assert(takeable(vol, lo, hi, p, r, i, b.hi.0 + 1, ay, az));
        assert(takeable(vol, lo, hi, p, s, i, b.hi.0 + 1, ay, az));
    }
    assert(a.hi.0 == b.hi.0);
    if a.hi.1 < b.hi.1 {
        let x = choose|x: int|
            a.lo.0 <= x <= a.hi.0 && !#[trigger] takeable(
                vol,
                lo,
                hi,
                p,
                r,
                i,
                x,
                a.hi.1 + 1,
                a.lo.2 as int,
            );
        assert(in_box(b, x, a.hi.1 + 1, az));
        assert(takeable(vol, lo, hi, p, s, i, x, a.hi.1 + 1, az));
        assert(takeable(vol, lo, hi, p, r, i, x, a.hi.1 + 1, az));
    } else if b.hi.1 < a.hi.1 {
        let x = choose|x: int|
            b.lo.0 <= x <= b.hi.0 && !#[trigger] takeable(
                vol,
                lo,
                hi,
                p,
                s,
                i,
                x,
                b.hi.1 + 1,
                b.lo.2 as int,
            );
        assert(in_box(a, x, b.hi.1 + 1, az));
        assert(takeable(vol, lo, hi, p, r, i, x, b.hi.1 + 1, az));
        assert(takeable(vol, lo, hi, p, s, i, x, b.hi.1 + 1, az));
    }
    assert(a.hi.1 == b.hi.1);
    if a.hi.2 < b.hi.2 {
        let (x, y) = choose|x: int, y: int|
            a.lo.0 <= x <= a.hi.0 && a.lo.1 <= y <= a.hi.1 && !#[trigger] takeable(
                vol,
                lo,
                hi,
                p,
                r,
                i,
                x,
                y,
                a.hi.2 + 1,
            );
        assert(in_box(b, x, y, a.hi.2 + 1));
        assert(takeable(vol, lo, hi, p, s, i, x, y, a.hi.2 + 1));
        assert(takeable(vol, lo, hi, p, r, i, x, y, a.hi.2 + 1));
    } else if b.hi.2 < a.hi.2 {
        let (x, y) = choose|x: int, y: int|
            b.lo.0 <= x <= b.hi.0 && b.lo.1 <= y <= b.hi.1 && !#[trigger] takeable(
                vol,
                lo,
                hi,
                p,
                s,
                i,
                x,
                y,
                b.hi.2 + 1,
            );
        assert(in_box(a, x, y, b.hi.2 + 1));
        assert(takeable(vol, lo, hi, p, r, i, x, y, b.hi.2 + 1));
        assert(takeable(vol, lo, hi, p, s, i, x, y, b.hi.2 + 1));
    }
}

/// A choice that agrees on the filled cells between the corners gives the same
/// extraction.
pub proof fn lemma_same_choice(
    vol: &VoxelVolume,
    lo: (i32, i32, i32),
    hi: (i32, i32, i32),
    p: CellChoice,
    q: CellChoice,
    boxes: Seq<CellBox>,
)
    requires
        greedy_cover(vol, lo, hi, p, boxes),
        forall|x: int, y: int, z: int|
            between(lo, hi, x, y, z) && #[trigger] vol.occupied(x, y, z) ==> p(x, y, z) == q(
                x,
                y,
                z,
            ),
    ensures
        greedy_cover(vol, lo, hi, q, boxes),
{
    assert forall|k: int, x: int, y: int, z: int| #[trigger]
        takeable(vol, lo, hi, p, boxes, k, x, y, z) == #[trigger] takeable(
            vol,
            lo,
            hi,
            q,
            boxes,
            k,
            x,
            y,
            z,
        ) by {
        if between(lo, hi, x, y, z) && vol.occupied(x, y, z) {
        }
    }
    assert forall|k: int| 0 <= k < boxes.len() implies #[trigger] greedy_box(
        vol,
        lo,
        hi,
        q,
        boxes,
        k,
    ) by {
        assert(greedy_box(vol, lo, hi, p, boxes, k));
        let c = boxes[k];
        let x = choose|x: int|
            c.lo.0 <= x <= c.hi.0 && !#[trigger] takeable(
                vol,
                lo,
                hi,
                p,
                boxes,
                k,
                x,
                c.hi.1 + 1,
                c.lo.2 as int,
            );
        assert(!takeable(vol, lo, hi, q, boxes, k, x, c.hi.1 + 1, c.lo.2 as int));
        let (u, v) = choose|u: int, v: int|
            c.lo.0 <= u <= c.hi.0 && c.lo.1 <= v <= c.hi.1 && !#[trigger] takeable(
                vol,
                lo,
                hi,
                p,
                boxes,
                k,
                u,
                v,
                c.hi.2 + 1,
            );
        assert(!takeable(vol, lo, hi, q, boxes, k, u, v, c.hi.2 + 1));
        assert forall|x: int, y: int, z: int|
            scanned_before(
                x,
                y,
                z,
                c.lo.0 as int,
                c.lo.1 as int,
                c.lo.2 as int,
            ) implies !#[trigger] takeable(vol, lo, hi, q, boxes, k, x, y, z) by {
            assert(!takeable(vol, lo, hi, p, boxes, k, x, y, z));
        }
        assert forall|x: int, y: int, z: int|
            in_box(c, x, y, z) implies #[trigger] takeable(
            vol,
            lo,
            hi,
            q,
            boxes,
            k,
            x,
            y,
            z,
        ) by {
            assert(takeable(vol, lo, hi, p, boxes, k, x, y, z));
        }
    }
    assert forall|x: int, y: int, z: int| !#[trigger] takeable(
        vol,
        lo,
        hi,
        q,
        boxes,
        boxes.len() as int,
        x,
        y,
        z,
    ) by {
        assert(!takeable(vol, lo, hi, p, boxes, boxes.len() as int, x, y, z));
    }
}

/// All cells.
pub open spec fn any_cell() -> CellChoice {
    |x: int, y: int, z: int| true
}

impl VoxelVolume {
    /// Takes all filled cells between `lo` and `hi`, corners included, out of the
    /// volume as boxes.
    pub fn extract_boxes(&mut self, lo: (i32, i32, i32), hi: (i32, i32, i32)) -> (out: Vec<
        CellBox,
    >)
        requires
            old(self).wf(),
        ensures
            final(self).wf(),
            emptied(old(self), final(self), out@),
            greedy_cover(old(self), lo, hi, any_cell(), out@),
            old(self).filled == final(self).filled + total_volume(out@),
    {
        let ghost before = *self;
        let all = |x: i32, y: i32, z: i32| -> (r: bool)
            ensures
                r,
            { true };
        let out = self.extract_where(lo, hi, all);
        proof {
            assert forall|x: int, y: int, z: int|
                between(lo, hi, x, y, z) && #[trigger] before.occupied(x, y, z) implies accepts(
                all,
            )(x, y, z) == any_cell()(x, y, z) by {
                if !accepts(all)(x, y, z) {
                    assert(!free(&before, accepts(all), x, y, z));
                    extraction_takes_each_cell_once(&before, lo, hi, accepts(all), out@, x, y, z);
                    assert(self.occupied(x, y, z));
                    assert(rejects(all)(x, y, z));
                }
            }
            lemma_same_choice(&before, lo, hi, accepts(all), any_cell(), out@);
        }
        out
    }

    /// Takes the filled cells of a ball out of the volume as boxes; a ball
    /// without a positive radius holds none. `lo` and `hi` enclose the ball, and
    /// `inside` tells whether the centre of a cell lies in it.
    pub fn extract_sphere<F: Fn(i32, i32, i32) -> bool>(
        &mut self,
        lo: (i32, i32, i32),
        hi: (i32, i32, i32),
        radius: Scalar,
        inside: F,
    ) -> (out: Vec<CellBox>)
        requires
            old(self).wf(),
            consistent(inside),
        ensures
            final(self).wf(),
            emptied(old(self), final(self), out@),
            radius.le_spec(Scalar::zero_spec()) ==> out@.len() == 0,
            !radius.le_spec(Scalar::zero_spec()) ==> greedy_cover(
                old(self),
                lo,
                hi,
                accepts(inside),
                out@,
            ),
            old(self).filled == final(self).filled + total_volume(out@),
    {
        if radius.le(Scalar::zero()) {
            return Vec::new();
        }
        self.extract_where(lo, hi, inside)
    }
}

} // verus!
