//! Convex solids as intersections of half spaces.

use crate::scalar::{Scalar, Vec3};
use crate::select::{everything, first_least, none_below};
use vstd::prelude::*;

verus! {

/// The points with `n · x <= d` for every plane (`n`, `d`), and the box around
/// them.
pub struct HalfSpaceSet {
    pub planes: Vec<(Vec3, Scalar)>,
    pub bound: (Vec3, Vec3),
}

/// The smallest positive normal value.
pub open spec fn min_positive_spec() -> Scalar {
    Scalar { bits: 0x0080_0000 }
}

/// A normal of this length can be scaled to one.
pub open spec fn usable_length(len: Scalar) -> bool {
    len.is_finite_spec() && !len.le_spec(min_positive_spec())
}

/// `k` is where a scan for the largest value ends, starting from negative
/// infinity at place zero.
pub open spec fn deciding(s: Seq<Scalar>, r: (Scalar, int)) -> bool {
    let floor = Scalar { bits: 0xff80_0000u32 };
    if forall|j: int| 0 <= j < s.len() ==> !floor.lt_spec(#[trigger] s[j]) {
        r == (floor, 0int)
    } else {
        &&& 0 <= r.1 < s.len()
        &&& r.0 == s[r.1]
        &&& floor.lt_spec(r.0)
        &&& forall|j: int| 0 <= j < s.len() ==> !r.0.lt_spec(#[trigger] s[j])
        &&& forall|j: int| 0 <= j < r.1 ==> !r.0.le_spec(#[trigger] s[j])
    }
}

/// The box is not inside plane `j`: its outermost corner lies beyond it.
pub open spec fn beyond(planes: Seq<(Vec3, Scalar)>, outer: Seq<Scalar>, j: int) -> bool {
    planes[j].1.lt_spec(outer[j])
}

/// The box touches the solid through plane `k`: it is inside all other planes.
pub open spec fn only_beyond(planes: Seq<(Vec3, Scalar)>, outer: Seq<Scalar>, k: int) -> bool {
    &&& 0 <= k < planes.len()
    &&& beyond(planes, outer, k)
    &&& forall|j: int| 0 <= j < planes.len() && j != k ==> !#[trigger] beyond(planes, outer, j)
}

/// The place is beyond none of the planes, or beyond several.
pub open spec fn none_alone(planes: Seq<(Vec3, Scalar)>, outer: Seq<Scalar>) -> bool {
    forall|k: int| !#[trigger] only_beyond(planes, outer, k)
}

impl HalfSpaceSet {
    /// All of space, with the given box.
    pub fn new(bound: (Vec3, Vec3)) -> (r: HalfSpaceSet)
        ensures
            r.planes@.len() == 0,
            r.bound == bound,
    {
        HalfSpaceSet { planes: Vec::new(), bound }
    }

    /// Adds a plane, given its normal and offset scaled by the length `len` that
    /// the normal had. A normal that cannot be scaled is refused.
    pub fn push(&mut self, unit: Vec3, offset: Scalar, len: Scalar) -> (r: bool)
        ensures
            r == usable_length(len),
            final(self).planes@ == if usable_length(len) {
                old(self).planes@.push((unit, offset))
            } else {
                old(self).planes@
            },
            final(self).bound == old(self).bound,
    {
        if !len.is_finite() || len.le(Scalar { bits: 0x0080_0000 }) {
            return false;
        }
        self.planes.push((unit, offset));
        true
    }

    /// How many planes there are.
    pub fn len(&self) -> (n: usize)
        ensures
            n == self.planes@.len(),
    {
        self.planes.len()
    }

    /// Whether there is no plane.
    pub fn is_empty(&self) -> (r: bool)
        ensures
            r == (self.planes@.len() == 0),
    {
        self.planes.len() == 0
    }

    /// The signed distance of a point and the plane that decides it, given the
    /// signed distances from all planes: the largest one, and the first plane
    /// that has it.
    pub fn signed(&self, s: &[Scalar]) -> (r: (Scalar, usize))
        requires
            s@.len() == self.planes@.len(),
        ensures
            deciding(s@, (r.0, r.1 as int)),
    {
        let floor = Scalar { bits: 0xff80_0000 };
        let mut best: Scalar = floor;
        let mut k: usize = 0;
        let mut i: usize = 0;
        while i < s.len()
            invariant
                i <= s@.len(),
                floor == (Scalar { bits: 0xff80_0000u32 }),
                deciding(s@.take(i as int), (best, k as int)),
            decreases s@.len() - i,
        {
            let ghost seen = s@.take(i as int);
            let ghost next = s@.take(i + 1);
            let ghost old_r = (best, k as int);
            assert(next =~= seen.push(s@[i as int]));
            if best.lt(s[i]) {
                best = s[i];
                k = i;
            }
            proof {
                lemma_deciding_step(seen, s@[i as int], old_r);
            }
            i += 1;
        }
        assert(s@.take(i as int) =~= s@);
        (best, k)
    }

    /// The plane through which a box touches the solid, given the outermost
    /// corner of the box along each normal: the only plane the box is not inside
    /// of. A wall that continues beyond the solid is no contact.
    pub fn touching_plane(&self, outer: &[Scalar]) -> (r: Option<usize>)
        requires
            outer@.len() == self.planes@.len(),
        ensures
            match r {
                Some(k) => only_beyond(self.planes@, outer@, k as int),
                None => none_alone(self.planes@, outer@),
            },
    {
        let mut found: Option<usize> = None;
        let mut i: usize = 0;
        while i < self.planes.len()
            invariant
                i <= self.planes@.len(),
                outer@.len() == self.planes@.len(),
                match found {
                    Some(k) => k < i && beyond(self.planes@, outer@, k as int) && forall|j: int|
                        0 <= j < i && j != k ==> !#[trigger] beyond(self.planes@, outer@, j),
                    None => forall|j: int|
                        0 <= j < i ==> !#[trigger] beyond(self.planes@, outer@, j),
                },
            decreases self.planes@.len() - i,
        {
            if self.planes[i].1.lt(outer[i]) {
                assert(beyond(self.planes@, outer@, i as int));
                if let Some(k) = found {
                    assert forall|q: int| !#[trigger] only_beyond(self.planes@, outer@, q) by {
                        assert(beyond(self.planes@, outer@, k as int));
                        assert(beyond(self.planes@, outer@, i as int));
                    }
                    return None;
                }
                found = Some(i);
            }
            i += 1;
        }
        proof {
            if found is None {
                assert forall|q: int| !#[trigger] only_beyond(self.planes@, outer@, q) by {
                }
            }
        }
        found
    }
}

/// One more value keeps the scan for the largest value right.
proof fn lemma_deciding_step(seen: Seq<Scalar>, v: Scalar, r: (Scalar, int))
    requires
        deciding(seen, r),
    ensures
        deciding(
            seen.push(v),
            if r.0.lt_spec(v) {
                (v, seen.len() as int)
            } else {
                r
            },
        ),
{
    let next = seen.push(v);
    let floor = Scalar { bits: 0xff80_0000u32 };
    let n = seen.len() as int;
    assert(next[n] == v);
    assert(forall|j: int| 0 <= j < n ==> next[j] == seen[j]);
    if r.0.lt_spec(v) {
        assert(floor.lt_spec(v));
        assert(floor.lt_spec(next[n]));
        assert forall|j: int| 0 <= j < next.len() implies !v.lt_spec(#[trigger] next[j]) by {
            if j < n {
                assert(next[j] == seen[j]);
            }
        }
        assert forall|j: int| 0 <= j < n implies !v.le_spec(#[trigger] next[j]) by {
            assert(next[j] == seen[j]);
        }
    } else if exists|j: int| 0 <= j < n && floor.lt_spec(#[trigger] seen[j]) {
        let w = choose|j: int| 0 <= j < n && floor.lt_spec(#[trigger] seen[j]);
        assert(floor.lt_spec(next[w]));
    } else {
        assert forall|j: int| 0 <= j < next.len() implies !floor.lt_spec(#[trigger] next[j]) by {
            if j < n {
                assert(next[j] == seen[j]);
            }
        }
    }
}

/// The corner of a box that lies deepest, given the distances of all corners:
/// the first of the smallest, or none if no distance is below infinity.
pub fn deepest_corner(s: &[Scalar]) -> (r: Option<usize>)
    ensures
        match r {
            Some(k) => first_least(s@, everything(), Scalar { bits: 0x7f80_0000 }, k as int),
            None => none_below(s@, everything(), Scalar { bits: 0x7f80_0000 }),
        },
{
    let mut flags: Vec<bool> = Vec::new();
    let mut i: usize = 0;
    while i < s.len()
        invariant
            i <= s@.len(),
            flags@.len() == i,
            forall|j: int| 0 <= j < i ==> flags@[j],
        decreases s@.len() - i,
    {
        flags.push(true);
        i += 1;
    }
    let inf = Scalar { bits: 0x7f80_0000 };
    let r = crate::select::find_first_least(s, flags.as_slice(), inf);
    proof {
        match r {
            Some(k) => {
                assert(first_least(s@, everything(), inf, k as int));
            },
            None => {
                assert(none_below(s@, everything(), inf));
            },
        }
    }
    r
}

/// Which sides of the box the corners lie on, counted like a binary number with
/// the third axis as its lowest digit.
pub open spec fn corner_sign(corner: int, axis: int) -> int {
    let digit = if axis == 0 {
        corner / 4
    } else if axis == 1 {
        (corner / 2) % 2
    } else {
        corner % 2
    };
    if digit == 0 {
        -1
    } else {
        1
    }
}

/// The sides on which a corner of a box lies.
pub fn corner_signs(corner: usize) -> (r: (i8, i8, i8))
    requires
        corner < 8,
    ensures
        r.0 == corner_sign(corner as int, 0),
        r.1 == corner_sign(corner as int, 1),
        r.2 == corner_sign(corner as int, 2),
{
    (
        if corner / 4 == 0 {
            -1
        } else {
            1
        },
        if (corner / 2) % 2 == 0 {
            -1
        } else {
            1
        },
        if corner % 2 == 0 {
            -1
        } else {
            1
        },
    )
}

} // verus!
