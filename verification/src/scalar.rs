//! Single-precision values carried as bit patterns.
//!
//! Only comparison is defined here: IEEE comparison, and the total order in
//! which every bit pattern has its own place.

use vstd::prelude::*;

verus! {

/// The magnitude bits of a pattern whose magnitude is infinite; anything above
/// it is not a number.
pub const INFINITE_MAGNITUDE: u32 = 0x7f80_0000;

/// The sign bit.
pub const SIGN_BIT: u32 = 0x8000_0000;

/// A single-precision value, as its bit pattern.
#[derive(Clone, Copy, Debug, PartialEq, Eq, Structural)]
pub struct Scalar {
    pub bits: u32,
}

impl Scalar {
    /// Positive zero.
    pub open spec fn zero_spec() -> Scalar {
        Scalar { bits: 0 }
    }

    /// Positive zero.
    pub fn zero() -> (r: Scalar)
        ensures
            r == Scalar::zero_spec(),
    {
        Scalar { bits: 0 }
    }

    /// The pattern with its sign bit cleared.
    pub open spec fn magnitude(self) -> int {
        if self.bits >= SIGN_BIT {
            self.bits - SIGN_BIT
        } else {
            self.bits as int
        }
    }

    /// Whether the pattern stands for no number.
    pub open spec fn is_nan_spec(self) -> bool {
        self.magnitude() > INFINITE_MAGNITUDE
    }

    /// An integer that orders the numbers as their values do; the two zeros
    /// share one place.
    pub open spec fn rank(self) -> int {
        if self.bits >= SIGN_BIT {
            -self.magnitude()
        } else {
            self.magnitude()
        }
    }

    /// An integer that gives every pattern a place of its own: negative zero
    /// stands right below positive zero.
    pub open spec fn total_rank(self) -> int {
        if self.bits >= SIGN_BIT {
            -self.magnitude() - 1
        } else {
            self.magnitude()
        }
    }

    /// IEEE `<`: false as soon as one side is not a number.
    pub open spec fn lt_spec(self, other: Scalar) -> bool {
        !self.is_nan_spec() && !other.is_nan_spec() && self.rank() < other.rank()
    }

    /// IEEE `<=`.
    pub open spec fn le_spec(self, other: Scalar) -> bool {
        !self.is_nan_spec() && !other.is_nan_spec() && self.rank() <= other.rank()
    }

    /// IEEE `==`: the two zeros are equal, and nothing equals what is not a
    /// number.
    pub open spec fn same_spec(self, other: Scalar) -> bool {
        !self.is_nan_spec() && !other.is_nan_spec() && self.rank() == other.rank()
    }

    /// Total order `<`.
    pub open spec fn total_lt_spec(self, other: Scalar) -> bool {
        self.total_rank() < other.total_rank()
    }

    /// Whether the value is one of the two zeros.
    pub open spec fn is_zero_spec(self) -> bool {
        self.magnitude() == 0
    }

    /// Whether the value is a number other than the infinities.
    pub open spec fn is_finite_spec(self) -> bool {
        self.magnitude() < INFINITE_MAGNITUDE
    }

    /// The value with the other sign.
    pub open spec fn neg_spec(self) -> Scalar {
        if self.bits >= SIGN_BIT {
            Scalar { bits: (self.bits - SIGN_BIT) as u32 }
        } else {
            Scalar { bits: (self.bits + SIGN_BIT) as u32 }
        }
    }

    /// The larger of two values; a side that is not a number yields the other,
    /// and of two equal values the first is kept.
    pub open spec fn max_spec(self, other: Scalar) -> Scalar {
        if self.is_nan_spec() || self.lt_spec(other) {
            other
        } else {
            self
        }
    }

    /// The smaller of two values, with the same rules as the larger.
    pub open spec fn min_spec(self, other: Scalar) -> Scalar {
        if self.is_nan_spec() || other.lt_spec(self) {
            other
        } else {
            self
        }
    }

    /// The magnitude bits.
    fn magnitude_bits(self) -> (m: u32)
        ensures
            m == self.magnitude(),
    {
        if self.bits >= SIGN_BIT {
            self.bits - SIGN_BIT
        } else {
            self.bits
        }
    }

    /// Whether the pattern stands for no number.
    pub fn is_nan(self) -> (r: bool)
        ensures
            r == self.is_nan_spec(),
    {
        self.magnitude_bits() > INFINITE_MAGNITUDE
    }

    /// Whether the value is one of the two zeros.
    pub fn is_zero(self) -> (r: bool)
        ensures
            r == self.is_zero_spec(),
    {
        self.magnitude_bits() == 0
    }

    /// Whether the value is a number other than the infinities.
    pub fn is_finite(self) -> (r: bool)
        ensures
            r == self.is_finite_spec(),
    {
        self.magnitude_bits() < INFINITE_MAGNITUDE
    }

    /// The value with the other sign.
    pub fn neg(self) -> (r: Scalar)
        ensures
            r == self.neg_spec(),
    {
        if self.bits >= SIGN_BIT {
            Scalar { bits: self.bits - SIGN_BIT }
        } else {
            Scalar { bits: self.bits + SIGN_BIT }
        }
    }

    /// The place of the value among the numbers.
    pub fn numeric_order(self) -> (r: i64)
        ensures
            r == self.rank(),
    {
        let m: i64 = self.magnitude_bits() as i64;
        if self.bits >= SIGN_BIT {
            -m
        } else {
            m
        }
    }

    /// IEEE `<`.
    pub fn lt(self, other: Scalar) -> (r: bool)
        ensures
            r == self.lt_spec(other),
    {
        !self.is_nan() && !other.is_nan() && self.numeric_order() < other.numeric_order()
    }

    /// IEEE `<=`.
    pub fn le(self, other: Scalar) -> (r: bool)
        ensures
            r == self.le_spec(other),
    {
        !self.is_nan() && !other.is_nan() && self.numeric_order() <= other.numeric_order()
    }

    /// IEEE `==`.
    pub fn same(self, other: Scalar) -> (r: bool)
        ensures
            r == self.same_spec(other),
    {
        !self.is_nan() && !other.is_nan() && self.numeric_order() == other.numeric_order()
    }

    /// The place of the pattern in the total order.
    pub fn total_order(self) -> (r: i64)
        ensures
            r == self.total_rank(),
    {
        let m: i64 = self.magnitude_bits() as i64;
        if self.bits >= SIGN_BIT {
            -m - 1
        } else {
            m
        }
    }

    /// Total order `<`.
    pub fn total_lt(self, other: Scalar) -> (r: bool)
        ensures
            r == self.total_lt_spec(other),
    {
        self.total_order() < other.total_order()
    }

    /// The larger of two values.
    pub fn max(self, other: Scalar) -> (r: Scalar)
        ensures
            r == self.max_spec(other),
    {
        if self.is_nan() || self.lt(other) {
            other
        } else {
            self
        }
    }

    /// The smaller of two values.
    pub fn min(self, other: Scalar) -> (r: Scalar)
        ensures
            r == self.min_spec(other),
    {
        if self.is_nan() || other.lt(self) {
            other
        } else {
            self
        }
    }
}

/// A vector of three values.
#[derive(Clone, Copy, Debug, PartialEq, Eq, Structural)]
pub struct Vec3 {
    pub x: Scalar,
    pub y: Scalar,
    pub z: Scalar,
}

impl Vec3 {
    /// The vector of three positive zeros.
    pub open spec fn zero_spec() -> Vec3 {
        Vec3 { x: Scalar::zero_spec(), y: Scalar::zero_spec(), z: Scalar::zero_spec() }
    }

    /// The vector of three positive zeros.
    pub fn zero() -> (r: Vec3)
        ensures
            r == Vec3::zero_spec(),
    {
        Vec3 { x: Scalar::zero(), y: Scalar::zero(), z: Scalar::zero() }
    }

    /// The vector with every component negated.
    pub open spec fn neg_spec(self) -> Vec3 {
        Vec3 { x: self.x.neg_spec(), y: self.y.neg_spec(), z: self.z.neg_spec() }
    }

    /// The vector with every component negated.
    pub fn neg(self) -> (r: Vec3)
        ensures
            r == self.neg_spec(),
    {
        Vec3 { x: self.x.neg(), y: self.y.neg(), z: self.z.neg() }
    }
}

impl Vec3 {
    /// The larger value of each component.
    pub open spec fn max_spec(self, other: Vec3) -> Vec3 {
        Vec3 {
            x: self.x.max_spec(other.x),
            y: self.y.max_spec(other.y),
            z: self.z.max_spec(other.z),
        }
    }

    /// The smaller value of each component.
    pub open spec fn min_spec(self, other: Vec3) -> Vec3 {
        Vec3 {
            x: self.x.min_spec(other.x),
            y: self.y.min_spec(other.y),
            z: self.z.min_spec(other.z),
        }
    }

    /// The larger value of each component.
    pub fn max(self, other: Vec3) -> (r: Vec3)
        ensures
            r == self.max_spec(other),
    {
        Vec3 { x: self.x.max(other.x), y: self.y.max(other.y), z: self.z.max(other.z) }
    }

    /// The smaller value of each component.
    pub fn min(self, other: Vec3) -> (r: Vec3)
        ensures
            r == self.min_spec(other),
    {
        Vec3 { x: self.x.min(other.x), y: self.y.min(other.y), z: self.z.min(other.z) }
    }
}

/// The smallest corner around the points: from `start`, point after point.
pub open spec fn least_corner(points: Seq<Vec3>, start: Vec3) -> Vec3
    decreases points.len(),
{
    if points.len() == 0 {
        start
    } else {
        least_corner(points.drop_last(), start).min_spec(points.last())
    }
}

/// The largest corner around the points: from `start`, point after point.
pub open spec fn greatest_corner(points: Seq<Vec3>, start: Vec3) -> Vec3
    decreases points.len(),
{
    if points.len() == 0 {
        start
    } else {
        greatest_corner(points.drop_last(), start).max_spec(points.last())
    }
}

/// The vector with one value in all components.
pub open spec fn splat_spec(v: Scalar) -> Vec3 {
    Vec3 { x: v, y: v, z: v }
}

/// The corners of the smallest box around the points; `None` without points.
pub fn bounds_of(points: &[Vec3]) -> (r: Option<(Vec3, Vec3)>)
    ensures
        r == if points@.len() == 0 {
            None
        } else {
            Some(
                (
                    least_corner(points@, splat_spec(Scalar { bits: 0x7f80_0000 })),
                    greatest_corner(points@, splat_spec(Scalar { bits: 0xff80_0000 })),
                ),
            )
        },
{
    if points.len() == 0 {
        return None;
    }
    let inf = Scalar { bits: 0x7f80_0000 };
    let neg = Scalar { bits: 0xff80_0000 };
    let mut lo = Vec3 { x: inf, y: inf, z: inf };
    let mut hi = Vec3 { x: neg, y: neg, z: neg };
    let mut i: usize = 0;
    assert(points@.take(0) =~= Seq::<Vec3>::empty());
    while i < points.len()
        invariant
            i <= points@.len(),
            inf == (Scalar { bits: 0x7f80_0000 }),
            neg == (Scalar { bits: 0xff80_0000 }),
            lo == least_corner(points@.take(i as int), splat_spec(inf)),
            hi == greatest_corner(points@.take(i as int), splat_spec(neg)),
        decreases points@.len() - i,
    {
        proof {
            assert(points@.take(i + 1).drop_last() =~= points@.take(i as int));
            assert(points@.take(i + 1).last() == points@[i as int]);
        }
        lo = lo.min(points[i]);
        hi = hi.max(points[i]);
        i += 1;
    }
    assert(points@.take(i as int) =~= points@);
    Some((lo, hi))
}

/// The value is a number between the two.
pub open spec fn within(v: Scalar, lo: Scalar, hi: Scalar) -> bool {
    lo.le_spec(v) && v.le_spec(hi)
}

/// The box around points whose coordinates are all numbers holds every point.
pub proof fn bounds_hold_every_point(points: Seq<Vec3>, k: int)
    requires
        0 <= k < points.len(),
        forall|j: int|
            0 <= j < points.len() ==> !(#[trigger] points[j]).x.is_nan_spec()
                && !points[j].y.is_nan_spec() && !points[j].z.is_nan_spec(),
    ensures
        ({
            let lo = least_corner(points, splat_spec(Scalar { bits: 0x7f80_0000 }));
            let hi = greatest_corner(points, splat_spec(Scalar { bits: 0xff80_0000 }));
            &&& within(points[k].x, lo.x, hi.x)
            &&& within(points[k].y, lo.y, hi.y)
            &&& within(points[k].z, lo.z, hi.z)
        }),
    decreases points.len(),
{
    let inf = splat_spec(Scalar { bits: 0x7f80_0000 });
    let neg = splat_spec(Scalar { bits: 0xff80_0000 });
    let rest = points.drop_last();
    let last = points.last();
    assert(points[points.len() - 1] == last);
    lemma_corner_is_number(rest, inf, neg);
    if k < rest.len() {
        assert(rest[k] == points[k]);
        assert forall|j: int| 0 <= j < rest.len() implies !(#[trigger] rest[j]).x.is_nan_spec()
            && !rest[j].y.is_nan_spec() && !rest[j].z.is_nan_spec() by {
            assert(rest[j] == points[j]);
        }
        bounds_hold_every_point(rest, k);
    }
}

proof fn lemma_corner_is_number(points: Seq<Vec3>, inf: Vec3, neg: Vec3)
    requires
        inf == splat_spec(Scalar { bits: 0x7f80_0000 }),
        neg == splat_spec(Scalar { bits: 0xff80_0000 }),
    ensures
        ({
            let lo = least_corner(points, inf);
            let hi = greatest_corner(points, neg);
            &&& !lo.x.is_nan_spec() && !lo.y.is_nan_spec() && !lo.z.is_nan_spec()
            &&& !hi.x.is_nan_spec() && !hi.y.is_nan_spec() && !hi.z.is_nan_spec()
        }),
    decreases points.len(),
{
    if points.len() > 0 {
        lemma_corner_is_number(points.drop_last(), inf, neg);
    }
}

/// A quaternion, vector part first.
#[derive(Clone, Copy, Debug, PartialEq, Eq, Structural)]
pub struct Quat {
    pub x: Scalar,
    pub y: Scalar,
    pub z: Scalar,
    pub w: Scalar,
}

/// Negating twice gives the value back, and negation turns the order round.
pub proof fn negation_mirrors_the_order(a: Scalar, b: Scalar)
    ensures
        a.neg_spec().neg_spec() == a,
        a.neg_spec().lt_spec(b.neg_spec()) <==> b.lt_spec(a),
{
}

/// Two patterns share a place in the total order only when they are the same
/// pattern.
pub proof fn total_order_is_strict(a: Scalar, b: Scalar)
    ensures
        a.total_lt_spec(b) || b.total_lt_spec(a) || a == b,
        !(a.total_lt_spec(b) && b.total_lt_spec(a)),
{
}

/// Among numbers the total order never contradicts IEEE comparison.
pub proof fn total_order_refines_comparison(a: Scalar, b: Scalar)
    ensures
        a.lt_spec(b) ==> a.total_lt_spec(b),
{
}

} // verus!
