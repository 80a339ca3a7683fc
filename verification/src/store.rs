//! Stored geometry: convex hulls and compounds of simpler shapes.

use crate::scalar::{bounds_of, greatest_corner, least_corner, splat_spec, Quat, Scalar, Vec3};
use crate::select::indices_where;
use crate::shape::Shape;
use vstd::prelude::*;

verus! {

/// A convex solid as the hull of points, with a point inside it.
pub struct ConvexHull {
    pub points: Vec<Vec3>,
    pub centroid: Vec3,
}

/// The partial sums of the points, from zero.
pub open spec fn sums_of<A: Fn(Vec3, Vec3) -> Vec3>(
    plus: A,
    points: Seq<Vec3>,
    sums: Seq<Vec3>,
) -> bool {
    &&& sums.len() == points.len() + 1
    &&& sums[0] == Vec3::zero_spec()
    &&& forall|i: int|
        0 <= i < points.len() ==> plus.ensures((sums[i], #[trigger] points[i]), sums[i + 1])
}

/// `k` is where a scan for the largest value ends: the first value stands until
/// a larger one comes.
pub open spec fn farthest_at(d: Seq<Scalar>, k: int) -> bool {
    &&& 0 <= k < d.len()
    &&& d[0].is_nan_spec() ==> k == 0
    &&& k != 0 ==> !d[k].is_nan_spec()
    &&& forall|j: int| 0 <= j < d.len() ==> !d[k].lt_spec(#[trigger] d[j])
    &&& forall|j: int| 0 <= j < k ==> !d[k].le_spec(#[trigger] d[j])
}

/// Finds the first of the largest values.
fn farthest(d: &[Scalar]) -> (k: usize)
    requires
        d@.len() > 0,
    ensures
        farthest_at(d@, k as int),
{
    let mut best: usize = 0;
    let mut i: usize = 1;
    while i < d.len()
        invariant
            1 <= i <= d@.len(),
            best < i,
            farthest_at(d@.take(i as int), best as int),
        decreases d@.len() - i,
    {
        let ghost seen = d@.take(i as int);
        let ghost next = d@.take(i + 1);
        let ghost old_best = best;
        assert(next =~= seen.push(d@[i as int]));
        assert(seen[old_best as int] == d@[old_best as int]);
        if d[best].lt(d[i]) {
            best = i;
        }
        proof {
            assert(next[best as int] == d@[best as int]);
            assert(next[0] == seen[0]);
            assert forall|j: int| 0 <= j < next.len() implies !next[best as int].lt_spec(
                #[trigger] next[j],
            ) by {
                if j < i {
                    assert(seen[j] == next[j]);
                }
            }
            assert forall|j: int| 0 <= j < best implies !next[best as int].le_spec(
                #[trigger] next[j],
            ) by {
                assert(seen[j] == next[j]);
            }
        }
        i += 1;
    }
    assert(d@.take(i as int) =~= d@);
    best
}

/// The scan for the largest value has one end.
pub proof fn farthest_is_unique(d: Seq<Scalar>, j: int, k: int)
    requires
        farthest_at(d, j),
        farthest_at(d, k),
    ensures
        j == k,
{
    if j < k {
        assert(!d[k].le_spec(d[j]));
        assert(!d[j].lt_spec(d[k]));
    } else if k < j {
        assert(!d[j].le_spec(d[k]));
        assert(!d[k].lt_spec(d[j]));
    }
}

impl ConvexHull {
    /// The hull of the points. The point inside is their mean: `plus` adds two
    /// vectors, and `over` divides by the number of points, which counts as one
    /// if there are none.
    pub fn new<A: Fn(Vec3, Vec3) -> Vec3, D: Fn(Vec3, usize) -> Vec3>(
        points: Vec<Vec3>,
        plus: &A,
        over: &D,
    ) -> (r: ConvexHull)
        requires
            forall|v: Vec3, w: Vec3| #[trigger] plus.requires((v, w)),
            forall|v: Vec3, n: usize| n > 0 ==> #[trigger] over.requires((v, n)),
        ensures
            r.points@ == points@,
            exists|sums: Seq<Vec3>| #[trigger]
                sums_of(*plus, points@, sums) && over.ensures(
                    (
                        sums[points@.len() as int],
                        if points@.len() == 0 {
                            1usize
                        } else {
                            points@.len() as usize
                        },
                    ),
                    r.centroid,
                ),
    {
        let n: usize = if points.len() == 0 {
            1
        } else {
            points.len()
        };
        let mut c: Vec3 = Vec3::zero();
        let ghost mut sums: Seq<Vec3> = seq![c];
        let mut i: usize = 0;
        while i < points.len()
            invariant
                i <= points@.len(),
                forall|v: Vec3, w: Vec3| #[trigger] plus.requires((v, w)),
                sums.len() == i + 1,
                sums[0] == Vec3::zero_spec(),
                sums[i as int] == c,
                forall|j: int|
                    0 <= j < i ==> plus.ensures((sums[j], #[trigger] points@[j]), sums[j + 1]),
            decreases points@.len() - i,
        {
            let ghost before = sums;
            c = plus(c, points[i]);
            proof {
                sums = sums.push(c);
                assert forall|j: int| 0 <= j < i + 1 implies plus.ensures(
                    (sums[j], #[trigger] points@[j]),
                    sums[j + 1],
                ) by {
                    if j < i {
                        assert(sums[j] == before[j] && sums[j + 1] == before[j + 1]);
                    }
                }
            }
            i += 1;
        }
        let centroid: Vec3 = over(c, n);
        assert(sums_of(*plus, points@, sums));
        ConvexHull { points, centroid }
    }

    /// The point of the hull farthest along a direction, given the products of
    /// all points with it; of equally far points the first.
    pub fn support_point(&self, dots: &[Scalar]) -> (p: Vec3)
        requires
            self.points@.len() > 0,
            dots@.len() == self.points@.len(),
        ensures
            exists|k: int| #[trigger] farthest_at(dots@, k) && p == self.points@[k],
    {
        let k: usize = farthest(dots);
        assert(farthest_at(dots@, k as int));
        self.points[k]
    }
}

/// A convex solid that can tell its farthest point along a direction, in its own
/// frame.
pub trait Support {
    /// The products of the points with the direction fit the solid.
    spec fn fits(&self, dots: Seq<Scalar>) -> bool;

    /// `p` is the farthest point along `dir`.
    spec fn is_support(&self, dir: Vec3, dots: Seq<Scalar>, p: Vec3) -> bool;

    /// A point inside.
    spec fn interior_spec(&self) -> Vec3;

    /// The farthest point along `dir`; `dots` holds the products of the points of
    /// the solid with it.
    fn support(&self, dir: Vec3, dots: &[Scalar]) -> (p: Vec3)
        requires
            self.fits(dots@),
        ensures
            self.is_support(dir, dots@, p),
    ;

    /// A point inside.
    fn interior(&self) -> (p: Vec3)
        ensures
            p == self.interior_spec(),
    ;
}

/// A hull as a solid.
pub struct HullSupport<'a> {
    pub hull: &'a ConvexHull,
}

impl<'a> Support for HullSupport<'a> {
    open spec fn fits(&self, dots: Seq<Scalar>) -> bool {
        self.hull.points@.len() > 0 && dots.len() == self.hull.points@.len()
    }

    open spec fn is_support(&self, dir: Vec3, dots: Seq<Scalar>, p: Vec3) -> bool {
        exists|k: int| #[trigger] farthest_at(dots, k) && p == self.hull.points@[k]
    }

    open spec fn interior_spec(&self) -> Vec3 {
        self.hull.centroid
    }

    fn support(&self, dir: Vec3, dots: &[Scalar]) -> (p: Vec3) {
        self.hull.support_point(dots)
    }

    fn interior(&self) -> (p: Vec3) {
        self.hull.centroid
    }
}

/// A box as a solid.
pub struct BoxSupport {
    pub half: Vec3,
}

/// The half extent on the side to which the direction points; the positive side
/// if it points to neither.
pub open spec fn side_of(dir: Scalar, half: Scalar) -> Scalar {
    if Scalar::zero_spec().le_spec(dir) {
        half
    } else {
        half.neg_spec()
    }
}

fn side_towards(dir: Scalar, half: Scalar) -> (r: Scalar)
    ensures
        r == side_of(dir, half),
{
    if Scalar::zero().le(dir) {
        half
    } else {
        half.neg()
    }
}

impl Support for BoxSupport {
    open spec fn fits(&self, dots: Seq<Scalar>) -> bool {
        true
    }

    open spec fn is_support(&self, dir: Vec3, dots: Seq<Scalar>, p: Vec3) -> bool {
        p == Vec3 {
            x: side_of(dir.x, self.half.x),
            y: side_of(dir.y, self.half.y),
            z: side_of(dir.z, self.half.z),
        }
    }

    open spec fn interior_spec(&self) -> Vec3 {
        Vec3::zero_spec()
    }

    fn support(&self, dir: Vec3, dots: &[Scalar]) -> (p: Vec3) {
        Vec3 {
            x: side_towards(dir.x, self.half.x),
            y: side_towards(dir.y, self.half.y),
            z: side_towards(dir.z, self.half.z),
        }
    }

    fn interior(&self) -> (p: Vec3) {
        Vec3::zero()
    }
}

/// A capsule as a solid: a segment along the second axis with round ends.
pub struct CapsuleSupport {
    pub half_height: Scalar,
    pub radius: Scalar,
}

impl CapsuleSupport {
    /// The end of the segment farthest along a direction; the upper one if both
    /// are.
    pub fn segment_end(&self, dir: Vec3) -> (p: Vec3)
        ensures
            p == (Vec3 { y: side_of(dir.y, self.half_height), ..Vec3::zero_spec() }),
    {
        Vec3 {
            x: Scalar::zero(),
            y: side_towards(dir.y, self.half_height),
            z: Scalar::zero(),
        }
    }
}

/// A cylinder or cone as a solid, with a polygon of `segments` corners for its
/// circle; a cone has its tip above.
pub struct PrismSupport {
    pub half_height: Scalar,
    pub radius: Scalar,
    pub segments: u32,
    pub cone: bool,
}

impl PrismSupport {
    /// The farthest point, given the nearest corner of the polygon: of a cylinder
    /// the corner of the upper or lower circle, of a cone its tip or the corner
    /// of its base, whichever of the products `tip` and `base` is larger.
    pub fn support_at(&self, dir: Vec3, rim: (Scalar, Scalar), tip: Scalar, base: Scalar) -> (p: Vec3)
        ensures
            p == if self.cone {
                if base.le_spec(tip) {
                    Vec3 { y: self.half_height, ..Vec3::zero_spec() }
                } else {
                    Vec3 { x: rim.0, y: self.half_height.neg_spec(), z: rim.1 }
                }
            } else {
                Vec3 { x: rim.0, y: side_of(dir.y, self.half_height), z: rim.1 }
            },
    {
        if self.cone {
            if base.le(tip) {
                Vec3 { x: Scalar::zero(), y: self.half_height, z: Scalar::zero() }
            } else {
                Vec3 { x: rim.0, y: self.half_height.neg(), z: rim.1 }
            }
        } else {
            Vec3 { x: rim.0, y: side_towards(dir.y, self.half_height), z: rim.1 }
        }
    }
}

/// The hulls of a scene, numbered in the order they were added.
pub struct HullStore {
    pub hulls: Vec<ConvexHull>,
}

impl HullStore {
    /// No hulls.
    pub fn new() -> (r: HullStore)
        ensures
            r.hulls@.len() == 0,
    {
        HullStore { hulls: Vec::new() }
    }

    /// Adds the hull of the points, in their order and without removing any, and
    /// returns its number.
    pub fn add<A: Fn(Vec3, Vec3) -> Vec3, D: Fn(Vec3, usize) -> Vec3>(
        &mut self,
        points: Vec<Vec3>,
        plus: &A,
        over: &D,
    ) -> (id: u32)
        requires
            old(self).hulls@.len() < u32::MAX,
            forall|v: Vec3, w: Vec3| #[trigger] plus.requires((v, w)),
            forall|v: Vec3, n: usize| n > 0 ==> #[trigger] over.requires((v, n)),
        ensures
            id == old(self).hulls@.len(),
            final(self).hulls@.len() == old(self).hulls@.len() + 1,
            final(self).hulls@.drop_last() == old(self).hulls@,
            final(self).hulls@[id as int].points@ == points@,
            exists|sums: Seq<Vec3>| #[trigger]
                sums_of(*plus, points@, sums) && over.ensures(
                    (
                        sums[points@.len() as int],
                        if points@.len() == 0 {
                            1usize
                        } else {
                            points@.len() as usize
                        },
                    ),
                    final(self).hulls@[id as int].centroid,
                ),
    {
        let id: u32 = self.hulls.len() as u32;
        let hull = ConvexHull::new(points, plus, over);
        self.hulls.push(hull);
        assert(self.hulls@.drop_last() =~= old(self).hulls@);
        id
    }

    /// The hull with the number, if there is one.
    pub fn get(&self, id: u32) -> (r: Option<&ConvexHull>)
        ensures
            match r {
                Some(h) => id < self.hulls@.len() && *h == self.hulls@[id as int],
                None => id >= self.hulls@.len(),
            },
    {
        if (id as usize) < self.hulls.len() {
            Some(&self.hulls[id as usize])
        } else {
            None
        }
    }

    /// How many hulls there are.
    pub fn len(&self) -> (n: usize)
        ensures
            n == self.hulls@.len(),
    {
        self.hulls.len()
    }

    /// Whether there is no hull.
    pub fn is_empty(&self) -> (r: bool)
        ensures
            r == (self.hulls@.len() == 0),
    {
        self.hulls.len() == 0
    }

    /// The points of a hull; none if there is no such hull.
    pub fn points(&self, id: u32) -> (r: &[Vec3])
        ensures
            r@ == if id < self.hulls@.len() {
                self.hulls@[id as int].points@
            } else {
                Seq::<Vec3>::empty()
            },
    {
        match self.get(id) {
            Some(h) => h.points.as_slice(),
            None => {
                let none: &[Vec3; 0] = &[];
                let r: &[Vec3] = none.as_slice();
                assert(r@ =~= Seq::<Vec3>::empty());
                r
            },
        }
    }

    /// The half extents of the box around a hull, which `half_of` computes from
    /// its corners; zero for a hull without points and for an unknown number.
    pub fn half_extents<F: Fn(Vec3, Vec3) -> Vec3>(&self, id: u32, half_of: F) -> (r: Vec3)
        requires
            forall|lo: Vec3, hi: Vec3| #[trigger] half_of.requires((lo, hi)),
        ensures
            id < self.hulls@.len() && self.hulls@[id as int].points@.len() > 0 ==> half_of.ensures(
                (
                    least_corner(
                        self.hulls@[id as int].points@,
                        splat_spec(Scalar { bits: 0x7f80_0000 }),
                    ),
                    greatest_corner(
                        self.hulls@[id as int].points@,
                        splat_spec(Scalar { bits: 0xff80_0000 }),
                    ),
                ),
                r,
            ),
            !(id < self.hulls@.len() && self.hulls@[id as int].points@.len() > 0) ==> r
                == Vec3::zero_spec(),
    {
        match self.get(id) {
            None => Vec3::zero(),
            Some(h) => match bounds_of(h.points.as_slice()) {
                None => Vec3::zero(),
                Some((lo, hi)) => half_of(lo, hi),
            },
        }
    }
}

/// A part of a compound: a shape placed in the frame of the compound.
#[derive(Clone, Copy, Debug, PartialEq, Eq, Structural)]
pub struct CompoundChild {
    pub shape: Shape,
    pub offset: Vec3,
    pub rot: Quat,
}

/// The compounds of a scene, numbered in the order they were added.
pub struct CompoundStore {
    pub items: Vec<Vec<CompoundChild>>,
}

/// The children that are not compounds themselves.
pub open spec fn simple(children: Seq<CompoundChild>) -> spec_fn(int) -> bool {
    |i: int| !(children[i].shape is Compound)
}

/// The smallest corner around the children, from `start`.
pub open spec fn spans_of<F: Fn(CompoundChild) -> (Vec3, Vec3)>(
    f: F,
    kids: Seq<CompoundChild>,
    spans: Seq<(Vec3, Vec3)>,
) -> bool {
    &&& spans.len() == kids.len()
    &&& forall|i: int| 0 <= i < kids.len() ==> f.ensures((#[trigger] kids[i],), spans[i])
}

/// The lower corners of the boxes.
pub open spec fn lows(spans: Seq<(Vec3, Vec3)>) -> Seq<Vec3> {
    spans.map_values(|s: (Vec3, Vec3)| s.0)
}

/// The upper corners of the boxes.
pub open spec fn highs(spans: Seq<(Vec3, Vec3)>) -> Seq<Vec3> {
    spans.map_values(|s: (Vec3, Vec3)| s.1)
}

impl CompoundStore {
    /// No stored compound contains a compound.
    pub open spec fn flat(&self) -> bool {
        forall|c: int, i: int|
            0 <= c < self.items@.len() && 0 <= i < self.items@[c]@.len()
                ==> !((#[trigger] self.items@[c]@[i]).shape is Compound)
    }

    /// No compounds.
    pub fn new() -> (r: CompoundStore)
        ensures
            r.items@.len() == 0,
            r.flat(),
    {
        CompoundStore { items: Vec::new() }
    }

    /// Adds a compound and returns its number. Children that are compounds
    /// themselves are dropped; the others keep their order.
    pub fn add(&mut self, children: Vec<CompoundChild>) -> (id: u32)
        requires
            old(self).items@.len() < u32::MAX,
            old(self).flat(),
        ensures
            id == old(self).items@.len(),
            final(self).items@.len() == old(self).items@.len() + 1,
            final(self).items@.drop_last() == old(self).items@,
            final(self).items@[id as int]@ == indices_where(
                simple(children@),
                children@.len(),
            ).map_values(|i: int| children@[i]),
            final(self).flat(),
    {
        let id: u32 = self.items.len() as u32;
        let ghost p = simple(children@);
        let mut kept: Vec<CompoundChild> = Vec::new();
        let mut i: usize = 0;
        assert(kept@ =~= indices_where(p, 0).map_values(|i: int| children@[i]));
        while i < children.len()
            invariant
                i <= children@.len(),
                p == simple(children@),
                kept@ == indices_where(p, i as nat).map_values(|i: int| children@[i]),
                forall|k: int| 0 <= k < kept@.len() ==> !((#[trigger] kept@[k]).shape is Compound),
            decreases children@.len() - i,
        {
            let c = children[i];
            let nested: bool = match c.shape {
                Shape::Compound { .. } => true,
                _ => false,
            };
            if !nested {
                kept.push(c);
                assert(p(i as int));
                assert(kept@ =~= indices_where(p, (i + 1) as nat).map_values(
                    |i: int| children@[i],
                ));
            } else {
                assert(!p(i as int));
            }
            i += 1;
        }
        self.items.push(kept);
        assert(self.items@.drop_last() =~= old(self).items@);
        id
    }

    /// The children of a compound, if there is one with the number.
    pub fn get(&self, id: u32) -> (r: Option<&[CompoundChild]>)
        ensures
            match r {
                Some(kids) => id < self.items@.len() && kids@ == self.items@[id as int]@,
                None => id >= self.items@.len(),
            },
    {
        if (id as usize) < self.items.len() {
            Some(self.items[id as usize].as_slice())
        } else {
            None
        }
    }

    /// How many compounds there are.
    pub fn len(&self) -> (n: usize)
        ensures
            n == self.items@.len(),
    {
        self.items.len()
    }

    /// Whether there is no compound.
    pub fn is_empty(&self) -> (r: bool)
        ensures
            r == (self.items@.len() == 0),
    {
        self.items.len() == 0
    }

    /// The half extents of the box around the children of a compound: `span`
    /// gives the corners of the box around a child, and `half_of` the half
    /// extents from the corners of the whole. Zero for a compound without
    /// children and for an unknown number.
    pub fn half_extents<S: Fn(CompoundChild) -> (Vec3, Vec3), F: Fn(Vec3, Vec3) -> Vec3>(
        &self,
        id: u32,
        span: S,
        half_of: F,
    ) -> (r: Vec3)
        requires
            forall|c: CompoundChild| #[trigger] span.requires((c,)),
            forall|lo: Vec3, hi: Vec3| #[trigger] half_of.requires((lo, hi)),
        ensures
            !(id < self.items@.len() && self.items@[id as int]@.len() > 0) ==> r
                == Vec3::zero_spec(),
            id < self.items@.len() && self.items@[id as int]@.len() > 0 ==> exists|
                spans: Seq<(Vec3, Vec3)>,
            | #[trigger]
                spans_of(span, self.items@[id as int]@, spans) && half_of.ensures(
                    (
                        least_corner(lows(spans), splat_spec(Scalar { bits: 0x7f80_0000 })),
                        greatest_corner(highs(spans), splat_spec(Scalar { bits: 0xff80_0000 })),
                    ),
                    r,
                ),
    {
        let kids = match self.get(id) {
            Some(k) => k,
            None => {
                return Vec3::zero();
            },
        };
        if kids.len() == 0 {
            return Vec3::zero();
        }
        let inf = Scalar { bits: 0x7f80_0000 };
        let neg = Scalar { bits: 0xff80_0000 };
        let mut lo = Vec3 { x: inf, y: inf, z: inf };
        let mut hi = Vec3 { x: neg, y: neg, z: neg };
        let ghost mut spans: Seq<(Vec3, Vec3)> = Seq::empty();
        let mut i: usize = 0;
        assert(lows(spans) =~= Seq::<Vec3>::empty());
        assert(highs(spans) =~= Seq::<Vec3>::empty());
        while i < kids.len()
            invariant
                i <= kids@.len(),
                forall|c: CompoundChild| #[trigger] span.requires((c,)),
                inf == (Scalar { bits: 0x7f80_0000 }),
                neg == (Scalar { bits: 0xff80_0000 }),
                spans.len() == i,
                forall|j: int|
                    0 <= j < i ==> span.ensures((#[trigger] kids@[j],), spans[j]),
                lo == least_corner(lows(spans), splat_spec(inf)),
                hi == greatest_corner(highs(spans), splat_spec(neg)),
            decreases kids@.len() - i,
        {
            let s = span(kids[i]);
            lo = lo.min(s.0);
            hi = hi.max(s.1);
            proof {
                let before = spans;
                spans = spans.push(s);
                assert(lows(spans).drop_last() =~= lows(before));
                assert(highs(spans).drop_last() =~= highs(before));
                assert(lows(spans).last() == s.0);
                assert(highs(spans).last() == s.1);
            }
            i += 1;
        }
        assert(spans_of(span, kids@, spans));
        half_of(lo, hi)
    }
}

} // verus!
