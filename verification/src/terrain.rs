//! Height fields and the set of them that makes up the terrain.

use crate::scalar::Scalar;
use crate::select::indices_where;
use vstd::prelude::*;

verus! {

/// Heights over a regular grid; the height of node (`ix`, `iz`) stands at
/// `iz * nx + ix`.
pub struct HeightField {
    pub origin_x: Scalar,
    pub origin_z: Scalar,
    pub nx: u32,
    pub nz: u32,
    pub spacing: Scalar,
    pub heights: Vec<Scalar>,
}

/// The number moved into the range.
pub open spec fn clamped(v: int, lo: int, hi: int) -> int {
    if v < lo {
        lo
    } else if v > hi {
        hi
    } else {
        v
    }
}

fn clamp_i32(v: i32, lo: i32, hi: i32) -> (r: i32)
    requires
        lo <= hi,
    ensures
        r == clamped(v as int, lo as int, hi as int),
{
    if v < lo {
        lo
    } else if v > hi {
        hi
    } else {
        v
    }
}

/// The smallest of the heights and `start`.
pub open spec fn lowest(heights: Seq<Scalar>, start: Scalar) -> Scalar
    decreases heights.len(),
{
    if heights.len() == 0 {
        start
    } else {
        lowest(heights.drop_last(), start).min_spec(heights.last())
    }
}

/// The largest of the heights and `start`.
pub open spec fn highest(heights: Seq<Scalar>, start: Scalar) -> Scalar
    decreases heights.len(),
{
    if heights.len() == 0 {
        start
    } else {
        highest(heights.drop_last(), start).max_spec(heights.last())
    }
}

/// The node at place `t` of the walk over the nine nodes round (`ix`, `iz`).
pub open spec fn walk_node(ix: int, iz: int, t: int) -> (int, int) {
    (ix + t / 3 - 1, iz + t % 3 - 1)
}

impl HeightField {
    /// At least two nodes along each axis, and a height for each node.
    pub open spec fn wf(&self) -> bool {
        &&& 2 <= self.nx <= i32::MAX
        &&& 2 <= self.nz <= i32::MAX
        &&& self.nx * self.nz <= u32::MAX
        &&& self.heights@.len() == self.nx * self.nz
    }

    /// The place of a node.
    pub open spec fn node_index(&self, ix: int, iz: int) -> int {
        iz * self.nx + ix
    }

    /// The node exists.
    pub open spec fn has_node(&self, ix: int, iz: int) -> bool {
        0 <= ix < self.nx && 0 <= iz < self.nz
    }

    /// Everything but the heights is that of the other field.
    pub open spec fn same_shape(&self, other: &HeightField) -> bool {
        &&& self.origin_x == other.origin_x
        &&& self.origin_z == other.origin_z
        &&& self.nx == other.nx
        &&& self.nz == other.nz
        &&& self.spacing == other.spacing
    }

    /// A node has its own place among the heights.
    pub proof fn lemma_node_index(&self, ix: int, iz: int)
        requires
            self.wf(),
            self.has_node(ix, iz),
        ensures
            0 <= self.node_index(ix, iz) < self.heights@.len(),
            0 <= iz * self.nx <= self.node_index(ix, iz),
    {
        let n = self.nx as int;
        let m = self.nz as int;
        assert(0 <= iz * n <= (m - 1) * n) by (nonlinear_arith)
            requires
                0 <= iz <= m - 1,
                n >= 0,
        ;
        assert((m - 1) * n == n * m - n) by (nonlinear_arith);
    }

    /// A level field.
    pub fn flat(
        origin_x: Scalar,
        origin_z: Scalar,
        nx: u32,
        nz: u32,
        spacing: Scalar,
        height: Scalar,
    ) -> (r: HeightField)
        requires
            2 <= nx <= i32::MAX,
            2 <= nz <= i32::MAX,
            nx * nz <= u32::MAX,
            Scalar::zero_spec().lt_spec(spacing),
        ensures
            r.wf(),
            r.origin_x == origin_x,
            r.origin_z == origin_z,
            r.nx == nx,
            r.nz == nz,
            r.spacing == spacing,
            forall|i: int| 0 <= i < r.heights@.len() ==> r.heights@[i] == height,
    {
        let total: u32 = nx * nz;
        let mut heights: Vec<Scalar> = Vec::new();
        let mut i: u32 = 0;
        while i < total
            invariant
                i <= total,
                heights@.len() == i,
                forall|j: int| 0 <= j < i ==> heights@[j] == height,
            decreases total - i,
        {
            heights.push(height);
            i += 1;
        }
        HeightField { origin_x, origin_z, nx, nz, spacing, heights }
    }

    /// Whether a point lies over the field; `end_x` and `end_z` are its far edges.
    pub fn contains(&self, x: Scalar, z: Scalar, end_x: Scalar, end_z: Scalar) -> (r: bool)
        ensures
            r == (self.origin_x.le_spec(x) && x.le_spec(end_x) && self.origin_z.le_spec(z)
                && z.le_spec(end_z)),
    {
        self.origin_x.le(x) && x.le(end_x) && self.origin_z.le(z) && z.le(end_z)
    }

    /// The height of a node.
    pub fn height_ix(&self, ix: u32, iz: u32) -> (h: Scalar)
        requires
            self.wf(),
            self.node_index(ix as int, iz as int) < self.heights@.len(),
        ensures
            h == self.heights@[self.node_index(ix as int, iz as int)],
    {
        assert(0 <= iz * self.nx) by (nonlinear_arith);
        self.heights[(iz * self.nx + ix) as usize]
    }

    /// Sets the height of a node.
    pub fn set_height(&mut self, ix: u32, iz: u32, h: Scalar)
        requires
            old(self).wf(),
            old(self).node_index(ix as int, iz as int) < old(self).heights@.len(),
        ensures
            final(self).wf(),
            final(self).same_shape(old(self)),
            final(self).heights@ == old(self).heights@.update(
                old(self).node_index(ix as int, iz as int),
                h,
            ),
    {
        assert(0 <= iz * self.nx) by (nonlinear_arith);
        let i: usize = (iz * self.nx + ix) as usize;
        self.heights.set(i, h);
    }

    /// The cell in which a point is interpolated, and the heights of its four
    /// nodes. (`fx`, `fz`) is the cell of the point, which may lie outside.
    pub fn sample_cell(&self, fx: i32, fz: i32) -> (r: ((u32, u32), [Scalar; 4]))
        requires
            self.wf(),
        ensures
            r.0.0 == clamped(fx as int, 0, self.nx - 2),
            r.0.1 == clamped(fz as int, 0, self.nz - 2),
            r.1@[0] == self.heights@[self.node_index(r.0.0 as int, r.0.1 as int)],
            r.1@[1] == self.heights@[self.node_index(r.0.0 + 1, r.0.1 as int)],
            r.1@[2] == self.heights@[self.node_index(r.0.0 as int, r.0.1 + 1)],
            r.1@[3] == self.heights@[self.node_index(r.0.0 + 1, r.0.1 + 1)],
    {
        let ix: u32 = clamp_i32(fx, 0, self.nx as i32 - 2) as u32;
        let iz: u32 = clamp_i32(fz, 0, self.nz as i32 - 2) as u32;
        proof {
            self.lemma_node_index(ix as int, iz as int);
            self.lemma_node_index(ix + 1, iz as int);
            self.lemma_node_index(ix as int, iz + 1);
            self.lemma_node_index(ix + 1, iz + 1);
        }
        let h: [Scalar; 4] = [
            self.height_ix(ix, iz),
            self.height_ix(ix + 1, iz),
            self.height_ix(ix, iz + 1),
            self.height_ix(ix + 1, iz + 1),
        ];
        ((ix, iz), h)
    }

    /// Lowers the node of the cell of a point; a point that is not over the field
    /// changes nothing. `lowered` gives the new height from the old one.
    pub fn dig_column<F: Fn(Scalar) -> Scalar>(
        &mut self,
        over: bool,
        fx: i32,
        fz: i32,
        lowered: F,
    ) -> (r: bool)
        requires
            old(self).wf(),
            forall|h: Scalar| #[trigger] lowered.requires((h,)),
        ensures
            final(self).wf(),
            final(self).same_shape(old(self)),
            r == over,
            !over ==> final(self).heights@ == old(self).heights@,
            over ==> ({
                let i = old(self).node_index(
                    clamped(fx as int, 0, old(self).nx - 1),
                    clamped(fz as int, 0, old(self).nz - 1),
                );
                &&& lowered.ensures((old(self).heights@[i],), final(self).heights@[i])
                &&& final(self).heights@ == old(self).heights@.update(i, final(self).heights@[i])
            }),
    {
        if !over {
            return false;
        }
        let ix: u32 = clamp_i32(fx, 0, self.nx as i32 - 1) as u32;
        let iz: u32 = clamp_i32(fz, 0, self.nz as i32 - 1) as u32;
        proof {
            self.lemma_node_index(ix as int, iz as int);
        }
        let i: usize = (iz * self.nx + ix) as usize;
        let h: Scalar = lowered(self.heights[i]);
        self.heights.set(i, h);
        true
    }

    /// The nodes of the field among the nine round (`ix0`, `iz0`), in the order
    /// of the walk.
    pub fn nodes_near(&self, ix0: i64, iz0: i64) -> (r: Vec<(u32, u32)>)
        requires
            self.wf(),
            i64::MIN < ix0 < i64::MAX,
            i64::MIN < iz0 < i64::MAX,
        ensures
            r@ == indices_where(
                |t: int|
                    self.has_node(
                        walk_node(ix0 as int, iz0 as int, t).0,
                        walk_node(ix0 as int, iz0 as int, t).1,
                    ),
                9,
            ).map_values(
                |t: int|
                    (
                        walk_node(ix0 as int, iz0 as int, t).0 as u32,
                        walk_node(ix0 as int, iz0 as int, t).1 as u32,
                    ),
            ),
    {
        let ghost p = |t: int|
            self.has_node(
                walk_node(ix0 as int, iz0 as int, t).0,
                walk_node(ix0 as int, iz0 as int, t).1,
            );
        let ghost f = |t: int|
            (
                walk_node(ix0 as int, iz0 as int, t).0 as u32,
                walk_node(ix0 as int, iz0 as int, t).1 as u32,
            );
        let mut r: Vec<(u32, u32)> = Vec::new();
        let mut t: i64 = 0;
        assert(r@ =~= indices_where(p, 0).map_values(f));
        while t < 9
            invariant
                0 <= t <= 9,
                self.wf(),
                i64::MIN < ix0 < i64::MAX,
                i64::MIN < iz0 < i64::MAX,
                p == (|t: int|
                    self.has_node(
                        walk_node(ix0 as int, iz0 as int, t).0,
                        walk_node(ix0 as int, iz0 as int, t).1,
                    )),
                f == (|t: int|
                    (
                        walk_node(ix0 as int, iz0 as int, t).0 as u32,
                        walk_node(ix0 as int, iz0 as int, t).1 as u32,
                    )),
                r@ == indices_where(p, t as nat).map_values(f),
            decreases 9 - t,
        {
            let ix: i64 = ix0 + (t / 3 - 1);
            let iz: i64 = iz0 + (t % 3 - 1);
            assert(walk_node(ix0 as int, iz0 as int, t as int) == (ix as int, iz as int));
            if ix >= 0 && iz >= 0 && ix < self.nx as i64 && iz < self.nz as i64 {
                r.push((ix as u32, iz as u32));
                assert(p(t as int));
                assert(r@ =~= indices_where(p, (t + 1) as nat).map_values(f));
            } else {
                assert(!p(t as int));
            }
            t += 1;
        }
        r
    }

    /// The smallest and largest height, starting from the given values.
    pub fn height_range(&self, lo: Scalar, hi: Scalar) -> (r: (Scalar, Scalar))
        ensures
            r == (lowest(self.heights@, lo), highest(self.heights@, hi)),
    {
        let mut a: Scalar = lo;
        let mut b: Scalar = hi;
        let mut i: usize = 0;
        assert(self.heights@.take(0) =~= Seq::<Scalar>::empty());
        while i < self.heights.len()
            invariant
                i <= self.heights@.len(),
                a == lowest(self.heights@.take(i as int), lo),
                b == highest(self.heights@.take(i as int), hi),
            decreases self.heights@.len() - i,
        {
            proof {
                assert(self.heights@.take(i + 1).drop_last() =~= self.heights@.take(i as int));
                assert(self.heights@.take(i + 1).last() == self.heights@[i as int]);
            }
            a = a.min(self.heights[i]);
            b = b.max(self.heights[i]);
            i += 1;
        }
        assert(self.heights@.take(i as int) =~= self.heights@);
        (a, b)
    }

    /// The heights between which the field lies; zero if there is no finite
    /// height.
    pub fn bounds(&self) -> (r: (Scalar, Scalar))
        ensures
            ({
                let lo = lowest(self.heights@, Scalar { bits: 0x7f80_0000 });
                let hi = highest(self.heights@, Scalar { bits: 0xff80_0000 });
                r == if lo.is_finite_spec() {
                    (lo, hi)
                } else {
                    (Scalar::zero_spec(), Scalar::zero_spec())
                }
            }),
    {
        let (lo, hi) = self.height_range(
            Scalar { bits: 0x7f80_0000 },
            Scalar { bits: 0xff80_0000 },
        );
        if lo.is_finite() {
            (lo, hi)
        } else {
            (Scalar::zero(), Scalar::zero())
        }
    }
}

/// The height fields of a scene, numbered in the order they were added.
pub struct TerrainSet {
    pub heightfields: Vec<HeightField>,
}

impl TerrainSet {
    /// Every height field is well formed.
    pub open spec fn wf(&self) -> bool {
        forall|i: int|
            0 <= i < self.heightfields@.len() ==> (#[trigger] self.heightfields@[i]).wf()
    }

    /// No terrain.
    pub fn new() -> (r: TerrainSet)
        ensures
            r.heightfields@.len() == 0,
            r.wf(),
    {
        TerrainSet { heightfields: Vec::new() }
    }

    /// Adds a height field and returns its number.
    pub fn add(&mut self, hf: HeightField) -> (id: u32)
        requires
            old(self).heightfields@.len() < u32::MAX,
            old(self).wf(),
            hf.wf(),
        ensures
            id == old(self).heightfields@.len(),
            final(self).heightfields@ == old(self).heightfields@.push(hf),
            final(self).wf(),
    {
        let id: u32 = self.heightfields.len() as u32;
        self.heightfields.push(hf);
        id
    }

    /// The height field with the number, if there is one.
    pub fn get(&self, id: u32) -> (r: Option<&HeightField>)
        ensures
            match r {
                Some(hf) => id < self.heightfields@.len() && *hf == self.heightfields@[id as int],
                None => id >= self.heightfields@.len(),
            },
    {
        if (id as usize) < self.heightfields.len() {
            Some(&self.heightfields[id as usize])
        } else {
            None
        }
    }

    /// The height field with the number, for changing it.
    pub fn get_mut(&mut self, id: u32) -> (r: Option<&mut HeightField>)
        ensures
            match r {
                Some(hf) => {
                    &&& id < old(self).heightfields@.len()
                    &&& *hf == old(self).heightfields@[id as int]
                    &&& final(self).heightfields@ == old(self).heightfields@.update(
                        id as int,
                        *final(hf),
                    )
                },
                None => id >= old(self).heightfields@.len() && *final(self) == *old(self),
            },
    {
        if (id as usize) < self.heightfields.len() {
            Some(&mut self.heightfields[id as usize])
        } else {
            None
        }
    }

    /// How many height fields there are.
    pub fn len(&self) -> (n: usize)
        ensures
            n == self.heightfields@.len(),
    {
        self.heightfields.len()
    }

    /// Whether there is no terrain.
    pub fn is_empty(&self) -> (r: bool)
        ensures
            r == (self.heightfields@.len() == 0),
    {
        self.heightfields.len() == 0
    }

    /// All height fields, by number.
    pub fn slice(&self) -> (r: &[HeightField])
        ensures
            r@ == self.heightfields@,
    {
        self.heightfields.as_slice()
    }

    /// Lowers a node of one height field. Returns whether there was something to
    /// lower: the field exists and the point lies over it.
    pub fn dig<F: Fn(Scalar) -> Scalar>(
        &mut self,
        id: u32,
        over: bool,
        fx: i32,
        fz: i32,
        lowered: F,
    ) -> (r: bool)
        requires
            old(self).wf(),
            forall|h: Scalar| #[trigger] lowered.requires((h,)),
        ensures
            final(self).wf(),
            r == (over && id < old(self).heightfields@.len()),
            !r ==> final(self).heightfields@.len() == old(self).heightfields@.len() && forall|k: int|
                0 <= k < old(self).heightfields@.len()
                    ==> (#[trigger] final(self).heightfields@[k]).same_shape(
                    &old(self).heightfields@[k],
                ) && final(self).heightfields@[k].heights@ == old(self).heightfields@[k].heights@,
            r ==> ({
                let before = old(self).heightfields@[id as int];
                let after = final(self).heightfields@[id as int];
                let i = before.node_index(
                    clamped(fx as int, 0, before.nx - 1),
                    clamped(fz as int, 0, before.nz - 1),
                );
                &&& final(self).heightfields@ == old(self).heightfields@.update(id as int, after)
                &&& after.same_shape(&before)
                &&& lowered.ensures((before.heights@[i],), after.heights@[i])
                &&& after.heights@ == before.heights@.update(i, after.heights@[i])
            }),
    {
        if (id as usize) < self.heightfields.len() {
            let ghost before = self.heightfields@;
            assert(self.heightfields@[id as int].wf());
            let r: bool = self.heightfields[id as usize].dig_column(over, fx, fz, lowered);
            assert(self.heightfields@ == before.update(id as int, self.heightfields@[id as int]));
            r
        } else {
            false
        }
    }

    /// The smallest and largest height of one height field.
    pub fn bounds(&self, id: u32) -> (r: Option<(Scalar, Scalar)>)
        ensures
            r == if id < self.heightfields@.len() {
                Some(
                    (
                        lowest(
                            self.heightfields@[id as int].heights@,
                            Scalar { bits: 0x7f7f_ffff },
                        ),
                        highest(
                            self.heightfields@[id as int].heights@,
                            Scalar { bits: 0xff7f_ffff },
                        ),
                    ),
                )
            } else {
                None
            },
    {
        match self.get(id) {
            Some(hf) => Some(
                hf.height_range(Scalar { bits: 0x7f7f_ffff }, Scalar { bits: 0xff7f_ffff }),
            ),
            None => None,
        }
    }
}

/// Every height lies between the bounds of its field, if all heights are
/// numbers.
pub proof fn bounds_hold_every_height(heights: Seq<Scalar>, lo: Scalar, hi: Scalar, k: int)
    requires
        0 <= k < heights.len(),
        !lo.is_nan_spec(),
        !hi.is_nan_spec(),
        forall|j: int| 0 <= j < heights.len() ==> !(#[trigger] heights[j]).is_nan_spec(),
    ensures
        lowest(heights, lo).le_spec(heights[k]),
        heights[k].le_spec(highest(heights, hi)),
    decreases heights.len(),
{
    let rest = heights.drop_last();
    lemma_range_is_number(rest, lo, hi);
    assert(heights[heights.len() - 1] == heights.last());
    if k < rest.len() {
        assert(rest[k] == heights[k]);
        assert forall|j: int| 0 <= j < rest.len() implies !(#[trigger] rest[j]).is_nan_spec() by {
            assert(rest[j] == heights[j]);
        }
        bounds_hold_every_height(rest, lo, hi, k);
    }
}

proof fn lemma_range_is_number(heights: Seq<Scalar>, lo: Scalar, hi: Scalar)
    requires
        !lo.is_nan_spec(),
        !hi.is_nan_spec(),
    ensures
        !lowest(heights, lo).is_nan_spec(),
        !highest(heights, hi).is_nan_spec(),
    decreases heights.len(),
{
    if heights.len() > 0 {
        lemma_range_is_number(heights.drop_last(), lo, hi);
    }
}

} // verus!
