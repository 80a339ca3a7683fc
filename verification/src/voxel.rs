//! A voxel volume: a grid of cells that are filled or empty.

use crate::scalar::{Scalar, Vec3};
use vstd::prelude::*;

verus! {

/// Bit `k` of a word.
pub open spec fn word_bit(w: u64, k: u64) -> bool {
    (w >> k) & 1 == 1
}

/// Bit `i` of an array of words.
pub open spec fn bit_at(words: Seq<u64>, i: int) -> bool {
    word_bit(words[i / 64], (i % 64) as u64)
}

/// How many of the flags are set.
pub open spec fn count_set(cells: Seq<bool>) -> nat
    decreases cells.len(),
{
    if cells.len() == 0 {
        0
    } else {
        count_set(cells.drop_last()) + if cells.last() {
            1nat
        } else {
            0nat
        }
    }
}

/// Changing one flag changes the count by that flag.
pub proof fn lemma_count_update(cells: Seq<bool>, i: int, on: bool)
    requires
        0 <= i < cells.len(),
    ensures
        count_set(cells.update(i, on)) == count_set(cells) + (if on {
            1int
        } else {
            0
        }) - (if cells[i] {
            1int
        } else {
            0
        }),
    decreases cells.len(),
{
    let new = cells.update(i, on);
    if i == cells.len() - 1 {
        assert(new.drop_last() =~= cells.drop_last());
    } else {
        lemma_count_update(cells.drop_last(), i, on);
        assert(new.drop_last() =~= cells.drop_last().update(i, on));
    }
}

/// There are no more set flags than flags.
pub proof fn lemma_count_bounded(cells: Seq<bool>)
    ensures
        count_set(cells) <= cells.len(),
        (exists|i: int| 0 <= i < cells.len() && cells[i]) <==> count_set(cells) > 0,
    decreases cells.len(),
{
    if cells.len() > 0 {
        lemma_count_bounded(cells.drop_last());
        if exists|i: int| 0 <= i < cells.len() && cells[i] {
            let i = choose|i: int| 0 <= i < cells.len() && cells[i];
            if i < cells.len() - 1 {
                assert(cells.drop_last()[i]);
            }
        }
        if count_set(cells) > 0 {
            if cells.last() {
                assert(cells[cells.len() - 1]);
            } else {
                let i = choose|i: int|
                    0 <= i < cells.drop_last().len() && cells.drop_last()[i];
                assert(cells[i]);
            }
        }
    }
}

/// Without a set flag the count is zero.
proof fn lemma_count_none(n: nat)
    ensures
        count_set(Seq::new(n, |i: int| false)) == 0,
{
    lemma_count_bounded(Seq::new(n, |i: int| false));
}

/// The place of a cell in a grid of `nx` by `ny` columns.
pub open spec fn cell_index(nx: int, ny: int, ix: int, iy: int, iz: int) -> int {
    ix + nx * (iy + ny * iz)
}

/// Every cell of the grid has its own place below the cell count.
pub proof fn lemma_cell_index(
    nx: int,
    ny: int,
    nz: int,
    ix: int,
    iy: int,
    iz: int,
    jx: int,
    jy: int,
    jz: int,
)
    requires
        0 <= ix < nx,
        0 <= iy < ny,
        0 <= iz < nz,
        0 <= jx < nx,
        0 <= jy < ny,
        0 <= jz < nz,
    ensures
        0 <= cell_index(nx, ny, ix, iy, iz) < nx * ny * nz,
        0 <= iy + ny * iz < ny * nz,
        cell_index(nx, ny, ix, iy, iz) == cell_index(nx, ny, jx, jy, jz) ==> ix == jx && iy == jy
            && iz == jz,
{
    let r = iy + ny * iz;
    let s = jy + ny * jz;
    assert(0 <= ny * iz <= ny * (nz - 1)) by (nonlinear_arith)
        requires
            0 <= iz <= nz - 1,
            ny > 0,
    ;
    assert(ny * (nz - 1) == ny * nz - ny) by (nonlinear_arith);
    assert(0 <= nx * r <= nx * (ny * nz - 1)) by (nonlinear_arith)
        requires
            0 <= r <= ny * nz - 1,
            nx > 0,
    ;
    assert(nx * (ny * nz - 1) == nx * ny * nz - nx) by (nonlinear_arith);
    if ix + nx * r == jx + nx * s {
        if r < s {
            assert(nx * s >= nx * r + nx) by (nonlinear_arith)
                requires
                    s >= r + 1,
                    nx > 0,
            ;
        } else if s < r {
            assert(nx * r >= nx * s + nx) by (nonlinear_arith)
                requires
                    r >= s + 1,
                    nx > 0,
            ;
        }
        assert(r == s && ix == jx);
        if iz < jz {
            assert(ny * jz >= ny * iz + ny) by (nonlinear_arith)
                requires
                    jz >= iz + 1,
                    ny > 0,
            ;
        } else if jz < iz {
            assert(ny * iz >= ny * jz + ny) by (nonlinear_arith)
                requires
                    iz >= jz + 1,
                    ny > 0,
            ;
        }
    }
}

/// A grid of cells, one bit each.
pub struct VoxelVolume {
    pub origin: Vec3,
    pub step: Scalar,
    pub nx: u32,
    pub ny: u32,
    pub nz: u32,
    pub bits: Vec<u64>,
    pub filled: usize,
    pub occ_min: (u32, u32, u32),
    pub occ_max: (u32, u32, u32),
    pub any: bool,
}

impl VoxelVolume {
    /// How many cells the grid has.
    pub open spec fn cell_count(&self) -> int {
        self.nx * self.ny * self.nz
    }

    /// The cells, in the order of their places.
    pub open spec fn cells(&self) -> Seq<bool> {
        Seq::new(self.cell_count() as nat, |i: int| bit_at(self.bits@, i))
    }

    /// Whether the cell is part of the grid.
    pub open spec fn in_grid(&self, ix: int, iy: int, iz: int) -> bool {
        0 <= ix < self.nx && 0 <= iy < self.ny && 0 <= iz < self.nz
    }

    /// Whether the cell is part of the grid and filled.
    pub open spec fn occupied(&self, ix: int, iy: int, iz: int) -> bool {
        self.in_grid(ix, iy, iz) && self.cells()[cell_index(
            self.nx as int,
            self.ny as int,
            ix,
            iy,
            iz,
        )]
    }

    /// The grid has cells and can be addressed; the words hold all of them; the
    /// filled cells are counted; and every cell that was ever filled lies in the
    /// recorded bounds.
    pub open spec fn wf(&self) -> bool {
        &&& 0 < self.nx <= i32::MAX
        &&& 0 < self.ny <= i32::MAX
        &&& 0 < self.nz <= i32::MAX
        &&& self.cell_count() <= u32::MAX
        &&& self.bits@.len() * 64 >= self.cell_count()
        &&& self.filled == count_set(self.cells())
        &&& forall|ix: int, iy: int, iz: int| #[trigger]
            self.occupied(ix, iy, iz) ==> self.any && self.occ_min.0 <= ix <= self.occ_max.0
                && self.occ_min.1 <= iy <= self.occ_max.1 && self.occ_min.2 <= iz <= self.occ_max.2
        &&& self.any ==> self.occ_min.0 <= self.occ_max.0 < self.nx && self.occ_min.1
            <= self.occ_max.1 < self.ny && self.occ_min.2 <= self.occ_max.2 < self.nz
        &&& !self.any ==> self.occ_min == (u32::MAX, u32::MAX, u32::MAX) && self.occ_max == (
            0u32,
            0u32,
            0u32,
        )
    }

    /// Origin, step and size are those of the other volume.
    pub open spec fn same_grid(&self, other: &VoxelVolume) -> bool {
        &&& self.origin == other.origin
        &&& self.step == other.step
        &&& self.nx == other.nx
        &&& self.ny == other.ny
        &&& self.nz == other.nz
    }

    /// An empty volume.
    pub fn new(origin: Vec3, step: Scalar, nx: u32, ny: u32, nz: u32) -> (r: VoxelVolume)
        requires
            Scalar::zero_spec().lt_spec(step),
            0 < nx <= i32::MAX,
            0 < ny <= i32::MAX,
            0 < nz <= i32::MAX,
            nx * ny * nz <= u32::MAX,
            nx * ny * nz + 63 <= usize::MAX,
        ensures
            r.wf(),
            r.origin == origin,
            r.step == step,
            r.nx == nx && r.ny == ny && r.nz == nz,
            r.filled == 0,
            !r.any,
            forall|ix: int, iy: int, iz: int| !#[trigger] r.occupied(ix, iy, iz),
    {
        let ghost total = nx * ny * nz;
        proof {
            assert(nx * ny <= total) by (nonlinear_arith)
                requires
                    total == nx * ny * nz,
                    nz >= 1,
                    nx >= 0,
                    ny >= 0,
            ;
        }
        let plane: usize = nx as usize * ny as usize;
        let cells: usize = plane * nz as usize;
        let words: usize = (cells + 63) / 64;
        let mut bits: Vec<u64> = Vec::new();
        let mut i: usize = 0;
        while i < words
            invariant
                i <= words,
                bits@.len() == i,
                forall|j: int| 0 <= j < i ==> bits@[j] == 0,
            decreases words - i,
        {
            bits.push(0);
            i += 1;
        }
        let r = VoxelVolume {
            origin,
            step,
            nx,
            ny,
            nz,
            bits,
            filled: 0,
            occ_min: (u32::MAX, u32::MAX, u32::MAX),
            occ_max: (0, 0, 0),
            any: false,
        };
        proof {
            assert forall|j: int| 0 <= j < total implies !bit_at(r.bits@, j) by {
                let k = (j % 64) as u64;
                assert((0u64 >> k) & 1 != 1) by (bit_vector);
                assert(0 <= j / 64 < words);
            }
            assert(r.cells() =~= Seq::new(total as nat, |i: int| false));
            lemma_count_none(total as nat);
            assert forall|ix: int, iy: int, iz: int| !#[trigger] r.occupied(ix, iy, iz) by {
                if r.in_grid(ix, iy, iz) {
                    lemma_cell_index(
                        nx as int,
                        ny as int,
                        nz as int,
                        ix,
                        iy,
                        iz,
                        ix,
                        iy,
                        iz,
                    );
                }
            }
        }
        r
    }

    /// The place of a cell of the grid.
    pub fn index(&self, ix: u32, iy: u32, iz: u32) -> (i: usize)
        requires
            self.wf(),
            self.in_grid(ix as int, iy as int, iz as int),
        ensures
            i == cell_index(self.nx as int, self.ny as int, ix as int, iy as int, iz as int),
            i < self.cell_count(),
    {
        proof {
            lemma_cell_index(
                self.nx as int,
                self.ny as int,
                self.nz as int,
                ix as int,
                iy as int,
                iz as int,
                ix as int,
                iy as int,
                iz as int,
            );
            let (nx, ny, nz) = (self.nx as int, self.ny as int, self.nz as int);
            assert(ny * nz <= nx * ny * nz) by (nonlinear_arith)
                requires
                    nx >= 1,
                    ny >= 1,
                    nz >= 1,
            ;
            assert(0 <= ny * iz <= ny * nz) by (nonlinear_arith)
                requires
                    0 <= iz < nz,
                    ny >= 1,
            ;
            assert(0 <= nx * (iy + ny * iz)) by (nonlinear_arith)
                requires
                    nx >= 1,
                    iy + ny * iz >= 0,
            ;
        }
        (ix + self.nx * (iy + self.ny * iz)) as usize
    }

    /// Whether the cell is part of the grid.
    pub fn in_range(&self, ix: i32, iy: i32, iz: i32) -> (r: bool)
        ensures
            r == self.in_grid(ix as int, iy as int, iz as int),
    {
        ix >= 0 && iy >= 0 && iz >= 0 && (ix as u32) < self.nx && (iy as u32) < self.ny && (
        iz as u32) < self.nz
    }

    /// Whether the cell is part of the grid and filled.
    pub fn get(&self, ix: u32, iy: u32, iz: u32) -> (r: bool)
        requires
            self.wf(),
        ensures
            r == self.occupied(ix as int, iy as int, iz as int),
    {
        if !(ix < self.nx && iy < self.ny && iz < self.nz) {
            return false;
        }
        let i: usize = self.index(ix, iy, iz);
        proof {
            lemma_shift_is_div(i);
        }
        (self.bits[i >> 6] >> ((i & 63) as u64)) & 1 == 1
    }
}

/// Setting or clearing one bit of a word changes that bit only.
proof fn lemma_word_update(w: u64, k: u64, j: u64)
    requires
        k < 64,
        j < 64,
    ensures
        word_bit(w | (1u64 << k), j) == (j == k || word_bit(w, j)),
        word_bit(w & !(1u64 << k), j) == (j != k && word_bit(w, j)),
        (w & (1u64 << k) != 0) == word_bit(w, k),
{
    assert(k < 64 && j < 64 ==> ((((w | (1u64 << k)) >> j) & 1 == 1) == (j == k || (w >> j) & 1
        == 1))) by (bit_vector);
    assert(k < 64 && j < 64 ==> ((((w & !(1u64 << k)) >> j) & 1 == 1) == (j != k && (w >> j) & 1
        == 1))) by (bit_vector);
    assert(k < 64 ==> ((w & (1u64 << k) != 0) == ((w >> k) & 1 == 1))) by (bit_vector);
}

/// The smaller number.
pub open spec fn smaller(a: u32, b: u32) -> u32 {
    if b < a {
        b
    } else {
        a
    }
}

/// The larger number.
pub open spec fn larger(a: u32, b: u32) -> u32 {
    if b > a {
        b
    } else {
        a
    }
}

fn min_u32(a: u32, b: u32) -> (r: u32)
    ensures
        r == smaller(a, b),
{
    if b < a {
        b
    } else {
        a
    }
}

fn max_u32(a: u32, b: u32) -> (r: u32)
    ensures
        r == larger(a, b),
{
    if b > a {
        b
    } else {
        a
    }
}

impl VoxelVolume {
    /// The recorded bounds after the cell was filled.
    pub open spec fn bounds_with(&self, ix: u32, iy: u32, iz: u32) -> (
        (u32, u32, u32),
        (u32, u32, u32),
    ) {
        (
            (
                smaller(self.occ_min.0, ix),
                smaller(self.occ_min.1, iy),
                smaller(self.occ_min.2, iz),
            ),
            (
                larger(self.occ_max.0, ix),
                larger(self.occ_max.1, iy),
                larger(self.occ_max.2, iz),
            ),
        )
    }

    /// Cell counts add up: the number of filled cells changes by the one cell
    /// that changes.
    proof fn lemma_cells_update(&self, before: &VoxelVolume, i: int, on: bool)
        requires
            before.wf(),
            self.same_grid(before),
            0 <= i < before.cell_count(),
            self.bits@.len() == before.bits@.len(),
            forall|j: int|
                0 <= j < before.cell_count() ==> #[trigger] bit_at(self.bits@, j) == if j == i {
                    on
                } else {
                    bit_at(before.bits@, j)
                },
        ensures
            self.cells() == before.cells().update(i, on),
            count_set(self.cells()) == count_set(before.cells()) + (if on {
                1int
            } else {
                0
            }) - (if before.cells()[i] {
                1int
            } else {
                0
            }),
            forall|jx: int, jy: int, jz: int| #[trigger]
                self.occupied(jx, jy, jz) == if before.in_grid(jx, jy, jz) && cell_index(
                    before.nx as int,
                    before.ny as int,
                    jx,
                    jy,
                    jz,
                ) == i {
                    on
                } else {
                    before.occupied(jx, jy, jz)
                },
    {
        assert(self.cells() =~= before.cells().update(i, on));
        lemma_count_update(before.cells(), i, on);
        assert forall|jx: int, jy: int, jz: int| #[trigger] self.occupied(jx, jy, jz)
            == if before.in_grid(jx, jy, jz) && cell_index(
            before.nx as int,
            before.ny as int,
            jx,
            jy,
            jz,
        ) == i {
            on
        } else {
            before.occupied(jx, jy, jz)
        } by {
            if before.in_grid(jx, jy, jz) {
                lemma_cell_index(
                    before.nx as int,
                    before.ny as int,
                    before.nz as int,
                    jx,
                    jy,
                    jz,
                    jx,
                    jy,
                    jz,
                );
            }
        }
    }

    /// Fills or empties a cell; cells outside the grid are ignored. The recorded
    /// bounds grow when a cell is filled and never shrink.
    pub fn set(&mut self, ix: u32, iy: u32, iz: u32, on: bool)
        requires
            old(self).wf(),
        ensures
            final(self).wf(),
            final(self).same_grid(old(self)),
            forall|jx: int, jy: int, jz: int| #[trigger]
                final(self).occupied(jx, jy, jz) == if old(self).in_grid(jx, jy, jz) && jx == ix
                    && jy == iy && jz == iz {
                    on
                } else {
                    old(self).occupied(jx, jy, jz)
                },
            final(self).filled == old(self).filled + (if on && old(self).in_grid(
                ix as int,
                iy as int,
                iz as int,
            ) && !old(self).occupied(ix as int, iy as int, iz as int) {
                1int
            } else {
                0
            }) - (if !on && old(self).occupied(ix as int, iy as int, iz as int) {
                1int
            } else {
                0
            }),
            on && old(self).in_grid(ix as int, iy as int, iz as int) && !old(self).occupied(
                ix as int,
                iy as int,
                iz as int,
            ) ==> final(self).any && (final(self).occ_min, final(self).occ_max) == old(
                self).bounds_with(ix, iy, iz),
            !(on && old(self).in_grid(ix as int, iy as int, iz as int) && !old(self).occupied(
                ix as int,
                iy as int,
                iz as int,
            )) ==> final(self).any == old(self).any && final(self).occ_min == old(self).occ_min
                && final(self).occ_max == old(self).occ_max,
    {
        if !(ix < self.nx && iy < self.ny && iz < self.nz) {
            return;
        }
        let i: usize = self.index(ix, iy, iz);
        proof {
            lemma_shift_is_div(i);
        }
        let w: usize = i >> 6;
        let k: u64 = (i & 63) as u64;
        let b: u64 = 1u64 << k;
        let word: u64 = self.bits[w];
        let ghost before = *self;
        proof {
            lemma_word_update(word, k, k);
            lemma_count_bounded(before.cells());
            assert(before.cells()[i as int] == word_bit(word, k));
            assert forall|jx: int, jy: int, jz: int|
                before.in_grid(jx, jy, jz) implies (#[trigger] cell_index(
                before.nx as int,
                before.ny as int,
                jx,
                jy,
                jz,
            ) == i <==> jx == ix && jy == iy && jz == iz) by {
                lemma_cell_index(
                    before.nx as int,
                    before.ny as int,
                    before.nz as int,
                    ix as int,
                    iy as int,
                    iz as int,
                    jx,
                    jy,
                    jz,
                );
            }
        }
        let was: bool = word & b != 0;
        if was == on {
            return;
        }
        if on {
            self.bits.set(w, word | b);
            proof {
                assert forall|j: int| 0 <= j < before.cell_count() implies #[trigger] bit_at(
                    self.bits@,
                    j,
                ) == if j == i {
                    on
                } else {
                    bit_at(before.bits@, j)
                } by {
                    lemma_word_update(word, k, (j % 64) as u64);
                }
                self.lemma_cells_update(&before, i as int, on);
                if count_set(before.cells()) == before.cell_count() {
                    lemma_count_update(before.cells(), i as int, true);
                    lemma_count_bounded(self.cells());
                }
                lemma_count_bounded(self.cells());
            }
            self.filled = self.filled + 1;
            self.any = true;
            self.occ_min = (
                min_u32(self.occ_min.0, ix),
                min_u32(self.occ_min.1, iy),
                min_u32(self.occ_min.2, iz),
            );
            self.occ_max = (
                max_u32(self.occ_max.0, ix),
                max_u32(self.occ_max.1, iy),
                max_u32(self.occ_max.2, iz),
            );
            proof {
                assert(self.cells() =~= before.cells().update(i as int, on));
                assert forall|jx: int, jy: int, jz: int| #[trigger] self.occupied(jx, jy, jz)
                    == if before.in_grid(jx, jy, jz) && jx == ix && jy == iy && jz == iz {
                    on
                } else {
                    before.occupied(jx, jy, jz)
                } by {
                    if before.in_grid(jx, jy, jz) {
                        lemma_cell_index(
                            before.nx as int,
                            before.ny as int,
                            before.nz as int,
                            jx,
                            jy,
                            jz,
                            jx,
                            jy,
                            jz,
                        );
                    }
                }
            }
        } else {
            self.bits.set(w, word & !b);
            proof {
                assert forall|j: int| 0 <= j < before.cell_count() implies #[trigger] bit_at(
                    self.bits@,
                    j,
                ) == if j == i {
                    on
                } else {
                    bit_at(before.bits@, j)
                } by {
                    lemma_word_update(word, k, (j % 64) as u64);
                }
                self.lemma_cells_update(&before, i as int, on);
                lemma_count_bounded(self.cells());
            }
            self.filled = self.filled - 1;
            proof {
                assert(self.cells() =~= before.cells().update(i as int, on));
                assert forall|jx: int, jy: int, jz: int| #[trigger] self.occupied(jx, jy, jz)
                    == if before.in_grid(jx, jy, jz) && jx == ix && jy == iy && jz == iz {
                    on
                } else {
                    before.occupied(jx, jy, jz)
                } by {
                    if before.in_grid(jx, jy, jz) {
                        lemma_cell_index(
                            before.nx as int,
                            before.ny as int,
                            before.nz as int,
                            jx,
                            jy,
                            jz,
                            jx,
                            jy,
                            jz,
                        );
                    }
                }
            }
        }
    }
}

/// Shifting and masking split a place into word and bit.
proof fn lemma_shift_is_div(i: usize)
    ensures
        i >> 6 == i / 64,
        i & 63 == i % 64,
{
    assert(i >> 6 == i / 64) by (bit_vector);
    assert(i & 63 == i % 64) by (bit_vector);
}

/// The cell comes before another in the scan over the grid: plane after plane,
/// row after row, cell after cell.
pub open spec fn scanned_before(jx: int, jy: int, jz: int, ix: int, iy: int, iz: int) -> bool {
    jz < iz || (jz == iz && (jy < iy || (jy == iy && jx < ix)))
}

/// The cell lies in the half-open range.
pub open spec fn in_span(
    lo: (i32, i32, i32),
    end: (i32, i32, i32),
    ix: int,
    iy: int,
    iz: int,
) -> bool {
    lo.0 <= ix < end.0 && lo.1 <= iy < end.1 && lo.2 <= iz < end.2
}

/// The cell is filled now and was not before.
pub open spec fn newly_filled(
    before: &VoxelVolume,
    after: &VoxelVolume,
    ix: int,
    iy: int,
    iz: int,
) -> bool {
    after.occupied(ix, iy, iz) && !before.occupied(ix, iy, iz)
}

/// The recorded bounds grew exactly as far as the newly filled cells reach.
pub open spec fn bounds_grown(before: &VoxelVolume, after: &VoxelVolume) -> bool {
    let (lo, hi) = (after.occ_min, after.occ_max);
    let (lo0, hi0) = (before.occ_min, before.occ_max);
    &&& after.any == (before.any || exists|ix: int, iy: int, iz: int| #[trigger]
        newly_filled(before, after, ix, iy, iz))
    &&& lo.0 <= lo0.0 && lo.1 <= lo0.1 && lo.2 <= lo0.2
    &&& hi.0 >= hi0.0 && hi.1 >= hi0.1 && hi.2 >= hi0.2
    &&& lo.0 < lo0.0 ==> exists|ix: int, iy: int, iz: int| #[trigger]
        newly_filled(before, after, ix, iy, iz) && ix == lo.0
    &&& lo.1 < lo0.1 ==> exists|ix: int, iy: int, iz: int| #[trigger]
        newly_filled(before, after, ix, iy, iz) && iy == lo.1
    &&& lo.2 < lo0.2 ==> exists|ix: int, iy: int, iz: int| #[trigger]
        newly_filled(before, after, ix, iy, iz) && iz == lo.2
    &&& hi.0 > hi0.0 ==> exists|ix: int, iy: int, iz: int| #[trigger]
        newly_filled(before, after, ix, iy, iz) && ix == hi.0
    &&& hi.1 > hi0.1 ==> exists|ix: int, iy: int, iz: int| #[trigger]
        newly_filled(before, after, ix, iy, iz) && iy == hi.1
    &&& hi.2 > hi0.2 ==> exists|ix: int, iy: int, iz: int| #[trigger]
        newly_filled(before, after, ix, iy, iz) && iz == hi.2
}

/// Filling one more cell keeps the bounds exact.
proof fn lemma_bounds_grown(
    before: &VoxelVolume,
    mid: &VoxelVolume,
    after: &VoxelVolume,
    ix: u32,
    iy: u32,
    iz: u32,
)
    requires
        bounds_grown(before, mid),
        mid.same_grid(before),
        mid.in_grid(ix as int, iy as int, iz as int),
        forall|jx: int, jy: int, jz: int| #[trigger]
            before.occupied(jx, jy, jz) ==> mid.occupied(jx, jy, jz),
        forall|jx: int, jy: int, jz: int| #[trigger]
            after.occupied(jx, jy, jz) == if mid.in_grid(jx, jy, jz) && jx == ix && jy == iy && jz
                == iz {
                true
            } else {
                mid.occupied(jx, jy, jz)
            },
        !mid.occupied(ix as int, iy as int, iz as int) ==> after.any && (
            after.occ_min,
            after.occ_max,
        ) == mid.bounds_with(ix, iy, iz),
        mid.occupied(ix as int, iy as int, iz as int) ==> after.any == mid.any && after.occ_min
            == mid.occ_min && after.occ_max == mid.occ_max,
    ensures
        bounds_grown(before, after),
{
    assert forall|jx: int, jy: int, jz: int| #[trigger]
        newly_filled(before, mid, jx, jy, jz) implies newly_filled(before, after, jx, jy, jz) by {
    }
    if !mid.occupied(ix as int, iy as int, iz as int) {
        assert(newly_filled(before, after, ix as int, iy as int, iz as int));
    } else {
        assert forall|jx: int, jy: int, jz: int| #[trigger]
            newly_filled(before, after, jx, jy, jz) implies newly_filled(
            before,
            mid,
            jx,
            jy,
            jz,
        ) by {
        }
    }
}

/// The number, but not below zero.
fn floor_zero(v: i32) -> (r: u32)
    ensures
        r == if v < 0 {
            0
        } else {
            v as int
        },
{
    if v < 0 {
        0
    } else {
        v as u32
    }
}

/// The number, but not below zero and not above `n`.
fn clamp_end(v: i32, n: u32) -> (r: u32)
    ensures
        r == if v < 0 {
            0
        } else if v > n {
            n as int
        } else {
            v as int
        },
{
    if v < 0 {
        0
    } else if v as u32 > n {
        n
    } else {
        v as u32
    }
}

impl VoxelVolume {
    /// Fills the cells of the grid from `lo` up to but not including `end`.
    pub fn fill_box(&mut self, lo: (i32, i32, i32), end: (i32, i32, i32))
        requires
            old(self).wf(),
        ensures
            final(self).wf(),
            final(self).same_grid(old(self)),
            forall|jx: int, jy: int, jz: int| #[trigger]
                final(self).occupied(jx, jy, jz) == (old(self).occupied(jx, jy, jz) || (old(
                    self).in_grid(jx, jy, jz) && in_span(lo, end, jx, jy, jz))),
            bounds_grown(old(self), final(self)),
    {
        let ghost before = *self;
        let (nx, ny, nz) = (self.nx, self.ny, self.nz);
        let (x0, y0, z0) = (floor_zero(lo.0), floor_zero(lo.1), floor_zero(lo.2));
        let (x1, y1, z1) = (clamp_end(end.0, nx), clamp_end(end.1, ny), clamp_end(end.2, nz));
        let mut iz: u32 = z0;
        while iz < z1
            invariant
                self.wf(),
                self.same_grid(&before),
                bounds_grown(&before, self),
                nx == before.nx && ny == before.ny && nz == before.nz,
                z0 <= iz,
                x1 <= nx && y1 <= ny && z1 <= nz,
                forall|jx: int, jy: int, jz: int| #[trigger]
                    self.occupied(jx, jy, jz) == (before.occupied(jx, jy, jz) || (x0 <= jx < x1
                        && y0 <= jy < y1 && z0 <= jz < z1 && jz < iz)),
            decreases z1 - iz,
        {
            let mut iy: u32 = y0;
            while iy < y1
                invariant
                    self.wf(),
                    self.same_grid(&before),
                bounds_grown(&before, self),
                    nx == before.nx && ny == before.ny && nz == before.nz,
                    z0 <= iz < z1,
                    y0 <= iy,
                    x1 <= nx && y1 <= ny && z1 <= nz,
                    forall|jx: int, jy: int, jz: int| #[trigger]
                        self.occupied(jx, jy, jz) == (before.occupied(jx, jy, jz) || (x0 <= jx < x1
                            && y0 <= jy < y1 && z0 <= jz < z1 && (jz < iz || (jz == iz && jy
                            < iy)))),
                decreases y1 - iy,
            {
                let mut ix: u32 = x0;
                while ix < x1
                    invariant
                        self.wf(),
                        self.same_grid(&before),
                bounds_grown(&before, self),
                        nx == before.nx && ny == before.ny && nz == before.nz,
                        z0 <= iz < z1,
                        y0 <= iy < y1,
                        x0 <= ix,
                        x1 <= nx && y1 <= ny && z1 <= nz,
                        forall|jx: int, jy: int, jz: int| #[trigger]
                            self.occupied(jx, jy, jz) == (before.occupied(jx, jy, jz) || (x0 <= jx
                                < x1 && y0 <= jy < y1 && z0 <= jz < z1 && scanned_before(
                                jx,
                                jy,
                                jz,
                                ix as int,
                                iy as int,
                                iz as int,
                            ))),
                    decreases x1 - ix,
                {
                    let ghost mid = *self;
                    self.set(ix, iy, iz, true);
                    proof {
                        lemma_bounds_grown(&before, &mid, self, ix, iy, iz);
                    }
                    ix += 1;
                }
                iy += 1;
            }
            iz += 1;
        }
    }

    /// The size of the grid.
    pub fn dims(&self) -> (r: (u32, u32, u32))
        ensures
            r == (self.nx, self.ny, self.nz),
    {
        (self.nx, self.ny, self.nz)
    }

    /// The corner of the grid with the smallest coordinates.
    pub fn origin(&self) -> (r: Vec3)
        ensures
            r == self.origin,
    {
        self.origin
    }

    /// The edge length of a cell.
    pub fn step(&self) -> (r: Scalar)
        ensures
            r == self.step,
    {
        self.step
    }

    /// How many cells are filled.
    pub fn filled_count(&self) -> (r: usize)
        requires
            self.wf(),
        ensures
            r == count_set(self.cells()),
    {
        self.filled
    }

    /// The first and last cell, per axis, of everything that was ever filled.
    pub fn occupied_bounds(&self) -> (r: Option<((u32, u32, u32), (u32, u32, u32))>)
        requires
            self.wf(),
        ensures
            r == if self.any {
                Some((self.occ_min, self.occ_max))
            } else {
                None
            },
            r is None ==> forall|ix: int, iy: int, iz: int| !#[trigger] self.occupied(ix, iy, iz),
            r matches Some((lo, hi)) ==> forall|ix: int, iy: int, iz: int| #[trigger]
                self.occupied(ix, iy, iz) ==> lo.0 <= ix <= hi.0 && lo.1 <= iy <= hi.1 && lo.2 <= iz
                    <= hi.2,
    {
        if !self.any {
            None
        } else {
            Some((self.occ_min, self.occ_max))
        }
    }
}

} // verus!
