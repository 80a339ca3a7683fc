//! Breaking a voxel volume into the regions closest to given seeds.

use crate::extract::{
    accepts, between, covered, emptied, extraction_takes_each_cell_once, free, greedy_cover,
    in_box, lemma_same_choice, rejects, total_volume, CellBox, CellChoice,
};
use crate::scalar::Scalar;
use crate::voxel::VoxelVolume;
use vstd::prelude::*;

verus! {

/// The distance may be asked of every seed and cell and is always the same.
pub open spec fn steady<D: Fn(usize, i32, i32, i32) -> Scalar>(d: D) -> bool {
    &&& forall|s: usize, x: i32, y: i32, z: i32| #[trigger] d.requires((s, x, y, z))
    &&& forall|s: usize, x: i32, y: i32, z: i32, q: Scalar, r: Scalar| #[trigger]
        d.ensures((s, x, y, z), q) && #[trigger] d.ensures((s, x, y, z), r) ==> q == r
}

/// The distance of a cell from a seed.
pub open spec fn distance<D: Fn(usize, i32, i32, i32) -> Scalar>(
    d: D,
    s: int,
    x: int,
    y: int,
    z: int,
) -> Scalar {
    choose|r: Scalar| #[trigger] d.ensures((s as usize, x as i32, y as i32, z as i32), r)
}

/// A seed at distance `other` and place `j` is preferred to one at distance
/// `own` and place `i`: it is closer, or as close and earlier.
pub open spec fn preferred(other: Scalar, j: int, own: Scalar, i: int) -> bool {
    other.lt_spec(own) || (other.same_spec(own) && j < i)
}

/// No other seed is preferred to seed `i`, given all distances.
pub open spec fn owner(dist: Seq<Scalar>, i: int) -> bool {
    forall|j: int|
        0 <= j < dist.len() && j != i ==> !preferred(#[trigger] dist[j], j, dist[i], i)
}

/// The distances of a cell from the first `n` seeds.
pub open spec fn distances<D: Fn(usize, i32, i32, i32) -> Scalar>(
    d: D,
    n: nat,
    x: int,
    y: int,
    z: int,
) -> Seq<Scalar> {
    Seq::new(n, |s: int| distance(d, s, x, y, z))
}

/// The cells that belong to seed `i` of `n`.
pub open spec fn region<D: Fn(usize, i32, i32, i32) -> Scalar>(d: D, n: nat, i: int) -> CellChoice {
    |x: int, y: int, z: int| owner(distances(d, n, x, y, z), i)
}

/// Some seed owns the cell, whatever the distances.
pub proof fn some_seed_owns_each_cell(dist: Seq<Scalar>)
    requires
        dist.len() > 0,
    ensures
        exists|i: int| 0 <= i < dist.len() && #[trigger] owner(dist, i),
{
    if forall|j: int| 0 <= j < dist.len() ==> (#[trigger] dist[j]).is_nan_spec() {
        assert(owner(dist, 0));
    } else {
        let k = choose|k: int| 0 <= k < dist.len() && !(#[trigger] dist[k]).is_nan_spec();
        let i = lemma_first_smallest(dist, k, dist.len() as int);
        assert(owner(dist, i));
    }
}

/// The first of the smallest numbers among the first `n` distances and number `k`.
proof fn lemma_first_smallest(dist: Seq<Scalar>, k: int, n: int) -> (i: int)
    requires
        0 <= k < dist.len(),
        !dist[k].is_nan_spec(),
        0 <= n <= dist.len(),
    ensures
        0 <= i < dist.len(),
        !dist[i].is_nan_spec(),
        i == k || i < n,
        dist[i].rank() <= dist[k].rank(),
        forall|j: int|
            0 <= j < n && j != i ==> !preferred(#[trigger] dist[j], j, dist[i], i),
    decreases n,
{
    if n == 0 {
        k
    } else {
        let i = lemma_first_smallest(dist, k, n - 1);
        if i != n - 1 && preferred(dist[n - 1], n - 1, dist[i], i) {
            assert forall|j: int| 0 <= j < n && j != n - 1 implies !preferred(
                #[trigger] dist[j],
                j,
                dist[n - 1],
                n - 1,
            ) by {
                if j != i {
                    assert(!preferred(dist[j], j, dist[i], i));
                }
                if preferred(dist[j], j, dist[n - 1], n - 1) {
                    assert(dist[j].rank() <= dist[n - 1].rank());
                    assert(dist[n - 1].rank() <= dist[i].rank());
                }
            }
            n - 1
        } else {
            i
        }
    }
}

/// When all distances are numbers exactly one seed owns the cell: the closest,
/// and of equally close ones the first.
pub proof fn one_seed_owns_each_cell(dist: Seq<Scalar>, i: int, j: int)
    requires
        forall|k: int| 0 <= k < dist.len() ==> !(#[trigger] dist[k]).is_nan_spec(),
        0 <= i < dist.len(),
        0 <= j < dist.len(),
        owner(dist, i),
        owner(dist, j),
    ensures
        i == j,
{
    if i != j {
        assert(!preferred(dist[j], j, dist[i], i));
        assert(!preferred(dist[i], i, dist[j], j));
    }
}

/// Whether a cell belongs to seed `i`.
fn owns<D: Fn(usize, i32, i32, i32) -> Scalar>(
    d: &D,
    n: usize,
    i: usize,
    x: i32,
    y: i32,
    z: i32,
) -> (r: bool)
    requires
        steady(*d),
        i < n,
    ensures
        r == region(*d, n as nat, i as int)(x as int, y as int, z as int),
{
    let own: Scalar = d(i, x, y, z);
    let ghost dist = distances(*d, n as nat, x as int, y as int, z as int);
    assert(own == dist[i as int]);
    let mut j: usize = 0;
    while j < n
        invariant
            steady(*d),
            i < n,
            j <= n,
            dist == distances(*d, n as nat, x as int, y as int, z as int),
            own == dist[i as int],
            forall|k: int|
                0 <= k < j && k != i ==> !preferred(#[trigger] dist[k], k, dist[i as int], i as int),
        decreases n - j,
    {
        if j != i {
            let other: Scalar = d(j, x, y, z);
            assert(other == dist[j as int]);
            if other.lt(own) || (other.same(own) && j < i) {
                return false;
            }
        }
        j += 1;
    }
    true
}

/// The volume before and after each seed took its region, with the boxes that
/// each one took.
pub open spec fn fractured(
    before: &VoxelVolume,
    after: &VoxelVolume,
    lo: (i32, i32, i32),
    hi: (i32, i32, i32),
    regions: Seq<CellChoice>,
    vols: Seq<VoxelVolume>,
    boxes: Seq<Seq<CellBox>>,
) -> bool {
    &&& vols.len() == regions.len() + 1
    &&& boxes.len() == regions.len()
    &&& vols[0] == *before
    &&& vols[regions.len() as int] == *after
    &&& forall|s: int|
        0 <= s < regions.len() ==> emptied(&vols[s], &vols[s + 1], #[trigger] boxes[s])
            && greedy_cover(&vols[s], lo, hi, regions[s], boxes[s]) && vols[s].filled == vols[s
            + 1].filled + total_volume(boxes[s])
}

/// The seeds that took something, with their boxes, in order.
pub open spec fn takers(boxes: Seq<Seq<CellBox>>, n: int) -> Seq<(int, Seq<CellBox>)>
    decreases n,
{
    if n <= 0 {
        Seq::empty()
    } else if boxes[n - 1].len() > 0 {
        takers(boxes, n - 1).push((n - 1, boxes[n - 1]))
    } else {
        takers(boxes, n - 1)
    }
}

/// A result list by its contents.
pub open spec fn pieces(out: Seq<(usize, Vec<CellBox>)>) -> Seq<(int, Seq<CellBox>)> {
    out.map_values(|e: (usize, Vec<CellBox>)| (e.0 as int, e.1@))
}

/// The regions of the `n` seeds.
pub open spec fn regions<D: Fn(usize, i32, i32, i32) -> Scalar>(d: D, n: nat) -> Seq<CellChoice> {
    Seq::new(n, |i: int| region(d, n, i))
}

proof fn lemma_takers_prefix(boxes: Seq<Seq<CellBox>>, more: Seq<CellBox>, n: int)
    requires
        0 <= n <= boxes.len(),
    ensures
        takers(boxes.push(more), n) == takers(boxes, n),
    decreases n,
{
    if n > 0 {
        lemma_takers_prefix(boxes, more, n - 1);
        assert(boxes.push(more)[n - 1] == boxes[n - 1]);
    }
}

impl VoxelVolume {
    /// Breaks the filled cells between `lo` and `hi`, corners included, into the
    /// regions of the seeds, and takes them out seed after seed. `dist2` gives
    /// the squared distance of a cell from a seed. Returns, for each seed with a
    /// piece, its number and boxes.
    pub fn fracture_voronoi<D: Fn(usize, i32, i32, i32) -> Scalar>(
        &mut self,
        lo: (i32, i32, i32),
        hi: (i32, i32, i32),
        seeds: usize,
        dist2: D,
    ) -> (out: Vec<(usize, Vec<CellBox>)>)
        requires
            old(self).wf(),
            steady(dist2),
        ensures
            final(self).wf(),
            final(self).same_grid(old(self)),
            exists|vols: Seq<VoxelVolume>, boxes: Seq<Seq<CellBox>>|
                #![trigger vols.len(), boxes.len()]
                fractured(
                    old(self),
                    final(self),
                    lo,
                    hi,
                    regions(dist2, seeds as nat),
                    vols,
                    boxes,
                ) && pieces(out@) == takers(boxes, seeds as int),
    {
        let ghost before = *self;
        let ghost choices = regions(dist2, seeds as nat);
        let ghost mut vols: Seq<VoxelVolume> = seq![*self];
        let ghost mut boxes: Seq<Seq<CellBox>> = Seq::empty();
        let mut out: Vec<(usize, Vec<CellBox>)> = Vec::new();
        assert(pieces(out@) =~= takers(boxes, 0));
        let mut si: usize = 0;
        while si < seeds
            invariant
                si <= seeds,
                before == *old(self),
                self.wf(),
                self.same_grid(&before),
                steady(dist2),
                choices == regions(dist2, seeds as nat),
                vols.len() == si + 1,
                boxes.len() == si,
                vols[0] == before,
                vols[si as int] == *self,
                forall|s: int|
                    0 <= s < si ==> emptied(&vols[s], &vols[s + 1], #[trigger] boxes[s])
                        && greedy_cover(&vols[s], lo, hi, choices[s], boxes[s]) && vols[s].filled
                        == vols[s + 1].filled + total_volume(boxes[s]),
                pieces(out@) == takers(boxes, si as int),
            decreases seeds - si,
        {
            let ghost mid = *self;
            let d: &D = &dist2;
            let inside = |x: i32, y: i32, z: i32| -> (r: bool)
                ensures
                    r == region(*d, seeds as nat, si as int)(x as int, y as int, z as int),
                { owns(d, seeds, si, x, y, z) };
            let piece = self.extract_where(lo, hi, inside);
            proof {
                let p = accepts(inside);
                let q = choices[si as int];
                assert forall|x: int, y: int, z: int|
                    between(lo, hi, x, y, z) && #[trigger] mid.occupied(x, y, z) implies p(x, y, z)
                    == q(x, y, z) by {
                    assert(mid.in_grid(x, y, z));
                    assert((x as i32) as int == x && (y as i32) as int == y && (z as i32) as int
                        == z);
                    if !p(x, y, z) {
                        extraction_takes_each_cell_once(&mid, lo, hi, p, piece@, x, y, z);
                        assert(!free(&mid, p, x, y, z));
                        assert(self.occupied(x, y, z));
                        assert(rejects(inside)(x, y, z));
                    }
                }
                lemma_same_choice(&mid, lo, hi, p, q, piece@);
                lemma_takers_prefix(boxes, piece@, si as int);
                vols = vols.push(*self);
                boxes = boxes.push(piece@);
                assert forall|s: int| 0 <= s < si + 1 implies emptied(
                    &vols[s],
                    &vols[s + 1],
                    #[trigger] boxes[s],
                ) && greedy_cover(&vols[s], lo, hi, choices[s], boxes[s]) && vols[s].filled
                    == vols[s + 1].filled + total_volume(boxes[s]) by {
                    if s < si {
                        let b = boxes.drop_last();
                        assert(b[s] == boxes[s]);
                    }
                }
            }
            let ghost out_before = out@;
            if piece.len() > 0 {
                out.push((si, piece));
                proof {
                    assert(pieces(out@) =~= pieces(out_before).push((si as int, piece@)));
                }
            }
            si += 1;
        }
        proof {
            assert(fractured(&before, self, lo, hi, choices, vols, boxes));
        }
        out
    }
}

/// A cell is filled before the turn of seed `s` exactly if it was filled at the
/// start and no earlier seed took it.
proof fn lemma_left_at(
    before: &VoxelVolume,
    after: &VoxelVolume,
    lo: (i32, i32, i32),
    hi: (i32, i32, i32),
    choices: Seq<CellChoice>,
    vols: Seq<VoxelVolume>,
    boxes: Seq<Seq<CellBox>>,
    s: int,
    x: int,
    y: int,
    z: int,
)
    requires
        fractured(before, after, lo, hi, choices, vols, boxes),
        0 <= s <= choices.len(),
    ensures
        vols[s].occupied(x, y, z) <==> before.occupied(x, y, z) && forall|t: int|
            0 <= t < s ==> !covered(#[trigger] boxes[t], boxes[t].len() as int, x, y, z),
    decreases s,
{
    if s > 0 {
        lemma_left_at(before, after, lo, hi, choices, vols, boxes, s - 1, x, y, z);
        let b = boxes[s - 1];
        assert(emptied(&vols[s - 1], &vols[s - 1 + 1], b));
        assert(vols[s].occupied(x, y, z) == (vols[s - 1].occupied(x, y, z) && !covered(
            b,
            b.len() as int,
            x,
            y,
            z,
        )));
    }
}

/// If every cell lies in a region, then fracturing takes every filled cell
/// between the corners out exactly once, and touches no other.
pub proof fn fracture_takes_each_cell_once(
    before: &VoxelVolume,
    after: &VoxelVolume,
    lo: (i32, i32, i32),
    hi: (i32, i32, i32),
    choices: Seq<CellChoice>,
    vols: Seq<VoxelVolume>,
    boxes: Seq<Seq<CellBox>>,
    x: int,
    y: int,
    z: int,
)
    requires
        fractured(before, after, lo, hi, choices, vols, boxes),
        exists|s: int| 0 <= s < choices.len() && (#[trigger] choices[s])(x, y, z),
    ensures
        after.occupied(x, y, z) <==> before.occupied(x, y, z) && !between(lo, hi, x, y, z),
        before.occupied(x, y, z) && between(lo, hi, x, y, z) <==> exists|s: int, j: int|
            0 <= s < boxes.len() && 0 <= j < boxes[s].len() && in_box(
                #[trigger] boxes[s][j],
                x,
                y,
                z,
            ),
        forall|s: int, j: int, t: int, k: int|
            0 <= s < boxes.len() && 0 <= j < boxes[s].len() && 0 <= t < boxes.len() && 0 <= k
                < boxes[t].len() && in_box(#[trigger] boxes[s][j], x, y, z) && in_box(
                #[trigger] boxes[t][k],
                x,
                y,
                z,
            ) ==> s == t && j == k,
{
    let n = choices.len() as int;
    lemma_left_at(before, after, lo, hi, choices, vols, boxes, n, x, y, z);
    assert forall|s: int| 0 <= s < n implies (covered(
        #[trigger] boxes[s],
        boxes[s].len() as int,
        x,
        y,
        z,
    ) <==> between(lo, hi, x, y, z) && vols[s].occupied(x, y, z) && choices[s](x, y, z)) by {
        extraction_takes_each_cell_once(&vols[s], lo, hi, choices[s], boxes[s], x, y, z);
    }
    if before.occupied(x, y, z) && between(lo, hi, x, y, z) {
        let w = choose|s: int| 0 <= s < n && (#[trigger] choices[s])(x, y, z);
        lemma_left_at(before, after, lo, hi, choices, vols, boxes, w, x, y, z);
        let taker = if vols[w].occupied(x, y, z) {
            w
        } else {
            choose|t: int|
                0 <= t < w && covered(#[trigger] boxes[t], boxes[t].len() as int, x, y, z)
        };
        assert(covered(boxes[taker], boxes[taker].len() as int, x, y, z));
        let j = choose|j: int|
            0 <= j < boxes[taker].len() && in_box(#[trigger] boxes[taker][j], x, y, z);
        assert(in_box(boxes[taker][j], x, y, z));
        assert(!after.occupied(x, y, z));
    }
    if exists|s: int, j: int|
        0 <= s < boxes.len() && 0 <= j < boxes[s].len() && in_box(
            #[trigger] boxes[s][j],
            x,
            y,
            z,
        ) {
        let (s, j) = choose|s: int, j: int|
            0 <= s < boxes.len() && 0 <= j < boxes[s].len() && in_box(
                #[trigger] boxes[s][j],
                x,
                y,
                z,
            );
        assert(covered(boxes[s], boxes[s].len() as int, x, y, z));
        lemma_left_at(before, after, lo, hi, choices, vols, boxes, s, x, y, z);
    }
    if !between(lo, hi, x, y, z) && before.occupied(x, y, z) {
        assert forall|t: int| 0 <= t < n implies !covered(
            #[trigger] boxes[t],
            boxes[t].len() as int,
            x,
            y,
            z,
        ) by {
        }
        assert(after.occupied(x, y, z));
    }
    assert forall|s: int, j: int, t: int, k: int|
        0 <= s < boxes.len() && 0 <= j < boxes[s].len() && 0 <= t < boxes.len() && 0 <= k
            < boxes[t].len() && in_box(#[trigger] boxes[s][j], x, y, z) && in_box(
            #[trigger] boxes[t][k],
            x,
            y,
            z,
        ) implies s == t && j == k by {
        assert(covered(boxes[s], boxes[s].len() as int, x, y, z));
        assert(covered(boxes[t], boxes[t].len() as int, x, y, z));
        lemma_left_at(before, after, lo, hi, choices, vols, boxes, s, x, y, z);
        lemma_left_at(before, after, lo, hi, choices, vols, boxes, t, x, y, z);
        assert(s == t);
        extraction_takes_each_cell_once(&vols[s], lo, hi, choices[s], boxes[s], x, y, z);
    }
}

/// The regions of at least one seed leave no cell out, so fracturing conserves:
/// every filled cell between the corners ends up in exactly one piece.
pub proof fn fracture_conserves_cells<D: Fn(usize, i32, i32, i32) -> Scalar>(
    before: &VoxelVolume,
    after: &VoxelVolume,
    lo: (i32, i32, i32),
    hi: (i32, i32, i32),
    d: D,
    n: nat,
    vols: Seq<VoxelVolume>,
    boxes: Seq<Seq<CellBox>>,
    x: int,
    y: int,
    z: int,
)
    requires
        n > 0,
        fractured(before, after, lo, hi, regions(d, n), vols, boxes),
    ensures
        after.occupied(x, y, z) <==> before.occupied(x, y, z) && !between(lo, hi, x, y, z),
        before.occupied(x, y, z) && between(lo, hi, x, y, z) <==> exists|s: int, j: int|
            0 <= s < boxes.len() && 0 <= j < boxes[s].len() && in_box(
                #[trigger] boxes[s][j],
                x,
                y,
                z,
            ),
        forall|s: int, j: int, t: int, k: int|
            0 <= s < boxes.len() && 0 <= j < boxes[s].len() && 0 <= t < boxes.len() && 0 <= k
                < boxes[t].len() && in_box(#[trigger] boxes[s][j], x, y, z) && in_box(
                #[trigger] boxes[t][k],
                x,
                y,
                z,
            ) ==> s == t && j == k,
{
    let dist = distances(d, n, x, y, z);
    some_seed_owns_each_cell(dist);
    let i = choose|i: int| 0 <= i < dist.len() && #[trigger] owner(dist, i);
    assert(regions(d, n)[i](x, y, z));
    fracture_takes_each_cell_once(
        before,
        after,
        lo,
        hi,
        regions(d, n),
        vols,
        boxes,
        x,
        y,
        z,
    );
}

/// How many cells the pieces of the first `n` seeds have together.
pub open spec fn pieces_volume(boxes: Seq<Seq<CellBox>>, n: int) -> int
    decreases n,
{
    if n <= 0 {
        0
    } else {
        pieces_volume(boxes, n - 1) + total_volume(boxes[n - 1])
    }
}

/// The pieces have as many cells together as the volume lost.
pub proof fn fracture_conserves_cell_count(
    before: &VoxelVolume,
    after: &VoxelVolume,
    lo: (i32, i32, i32),
    hi: (i32, i32, i32),
    choices: Seq<CellChoice>,
    vols: Seq<VoxelVolume>,
    boxes: Seq<Seq<CellBox>>,
)
    requires
        fractured(before, after, lo, hi, choices, vols, boxes),
    ensures
        before.filled == after.filled + pieces_volume(boxes, boxes.len() as int),
{
    lemma_count_at(before, after, lo, hi, choices, vols, boxes, boxes.len() as int);
}

proof fn lemma_count_at(
    before: &VoxelVolume,
    after: &VoxelVolume,
    lo: (i32, i32, i32),
    hi: (i32, i32, i32),
    choices: Seq<CellChoice>,
    vols: Seq<VoxelVolume>,
    boxes: Seq<Seq<CellBox>>,
    s: int,
)
    requires
        fractured(before, after, lo, hi, choices, vols, boxes),
        0 <= s <= boxes.len(),
    ensures
        before.filled == vols[s].filled + pieces_volume(boxes, s),
    decreases s,
{
    if s > 0 {
        lemma_count_at(before, after, lo, hi, choices, vols, boxes, s - 1);
        assert(emptied(&vols[s - 1], &vols[s - 1 + 1], boxes[s - 1]));
    }
}

/// A seed of the jittered lattice: the lattice cell, and three fractions of
/// 65535 by which the seed is moved in it.
#[derive(Clone, Copy, Debug, PartialEq, Eq, Structural)]
pub struct SeedCell {
    pub ix: usize,
    pub iy: usize,
    pub iz: usize,
    pub jx: u16,
    pub jy: u16,
    pub jz: u16,
}

/// The number of seeds: as asked, but at least one.
pub open spec fn seed_count(n: int) -> int {
    if n < 1 {
        1
    } else {
        n
    }
}

/// The lattice has the fewest cells per edge that give room to all seeds.
pub open spec fn lattice_side(side: int, n: int) -> bool {
    side >= 1 && n <= side * side * side && (side == 1 || (side - 1) * (side - 1) * (side - 1) < n)
}

/// There is only one such side.
pub proof fn lattice_side_is_unique(a: int, b: int, n: int)
    requires
        lattice_side(a, n),
        lattice_side(b, n),
    ensures
        a == b,
{
    if a < b {
        assert(a * a * a <= (b - 1) * (b - 1) * (b - 1)) by (nonlinear_arith)
            requires
                1 <= a <= b - 1,
        ;
    } else if b < a {
        assert(b * b * b <= (a - 1) * (a - 1) * (a - 1)) by (nonlinear_arith)
            requires
                1 <= b <= a - 1,
        ;
    }
}

/// The low 64 bits.
pub open spec fn low64(v: int) -> u64 {
    (v % 0x1_0000_0000_0000_0000) as u64
}

/// A number that depends on every bit of the seed's place.
pub open spec fn seed_hash(k: u64) -> u64 {
    let a = low64(low64(k * 0x9e37_79b9_7f4a_7c15) + 0x1234_5678_9abc_def0);
    let b = a ^ (a >> 30);
    let c = low64(b * 0xbf58_476d_1ce4_e5b9);
    c ^ (c >> 27)
}

/// The seed at place `k` of a lattice with the given side: places run along the
/// first axis, then the second, then the third.
pub open spec fn seed_at(seed: SeedCell, side: int, k: int) -> bool {
    &&& seed.ix < side && seed.iy < side && seed.iz < side
    &&& seed.ix + side * (seed.iy + side * seed.iz) == k
    &&& seed.jx == (seed_hash(k as u64) & 0xffff) as u16
    &&& seed.jy == ((seed_hash(k as u64) >> 16) & 0xffff) as u16
    &&& seed.jz == ((seed_hash(k as u64) >> 32) & 0xffff) as u16
}

/// The smallest side whose lattice has room for `n` seeds.
pub fn seed_side(n: usize) -> (side: usize)
    requires
        1 <= n <= usize::MAX / 8,
    ensures
        lattice_side(side as int, n as int),
        side * side * side <= usize::MAX,
{
    let mut side: usize = 1;
    assert(1int * 1int * 1int == 1int) by (nonlinear_arith);
    while side * side * side < n
        invariant
            1 <= side,
            1 <= n <= usize::MAX / 8,
            side * side <= usize::MAX,
            side * side * side <= usize::MAX,
            side == 1 || (side - 1) * (side - 1) * (side - 1) < n,
        decreases n - side,
    {
        proof {
            let s = side as int;
            assert(s <= s * s * s) by (nonlinear_arith)
                requires
                    s >= 1,
            ;
            assert((s + 1) * (s + 1) <= (s + 1) * (s + 1) * (s + 1)) by (nonlinear_arith)
                requires
                    s >= 1,
            ;
            assert((s + 1) * (s + 1) * (s + 1) <= 8 * (s * s * s)) by (nonlinear_arith)
                requires
                    s >= 1,
            ;
        }
        side = side + 1;
    }
    side
}

/// The seeds of a jittered lattice: as many as asked, at least one.
pub fn seeds_jittered(n: usize) -> (out: Vec<SeedCell>)
    requires
        n <= usize::MAX / 8,
    ensures
        out@.len() == seed_count(n as int),
        exists|side: int| #[trigger]
            lattice_side(side, seed_count(n as int)) && forall|k: int|
                0 <= k < out@.len() ==> seed_at(#[trigger] out@[k], side, k),
{
    let count: usize = if n < 1 {
        1
    } else {
        n
    };
    let side: usize = seed_side(count);
    let mut out: Vec<SeedCell> = Vec::new();
    let mut ix: usize = 0;
    let mut iy: usize = 0;
    let mut iz: usize = 0;
    let mut k: usize = 0;
    assert(side * 0 == 0 && side * (0 + side * 0) == 0) by (nonlinear_arith);
    while k < count
        invariant
            k <= count,
            out@.len() == k,
            side >= 1,
            count <= side * side * side,
            side * side * side <= usize::MAX,
            ix < side,
            iy < side,
            iz <= side,
            ix + side * (iy + side * iz) == k,
            forall|j: int| 0 <= j < k ==> seed_at(#[trigger] out@[j], side as int, j),
        decreases count - k,
    {
        proof {
            let s = side as int;
            let (x, y, z) = (ix as int, iy as int, iz as int);
            if z >= s {
                assert(s * (y + s * z) >= s * s * s) by (nonlinear_arith)
                    requires
                        z >= s,
                        s >= 1,
                        y >= 0,
                ;
            }
            assert(s * (y + 1 + s * z) == s * (y + s * z) + s) by (nonlinear_arith);
            assert(s * (0 + s * (z + 1)) == s * (s + s * z)) by (nonlinear_arith);
            assert(s <= s * s * s) by (nonlinear_arith)
                requires
                    s >= 1,
            ;
        }
        let mut h: u64 = (k as u64).wrapping_mul(0x9e37_79b9_7f4a_7c15).wrapping_add(
            0x1234_5678_9abc_def0,
        );
        h = h ^ (h >> 30);
        h = h.wrapping_mul(0xbf58_476d_1ce4_e5b9);
        h = h ^ (h >> 27);
        assert(h & 0xffff <= 0xffff && (h >> 16) & 0xffff <= 0xffff && (h >> 32) & 0xffff
            <= 0xffff) by (bit_vector);
        out.push(
            SeedCell {
                ix,
                iy,
                iz,
                jx: (h & 0xffff) as u16,
                jy: ((h >> 16) & 0xffff) as u16,
                jz: ((h >> 32) & 0xffff) as u16,
            },
        );
        ix = ix + 1;
        if ix == side {
            ix = 0;
            iy = iy + 1;
            if iy == side {
                iy = 0;
                iz = iz + 1;
            }
        }
        k += 1;
    }
    assert(lattice_side(side as int, seed_count(n as int)));
    out
}

} // verus!
