//! Contact points and manifolds.

use crate::feature::{child_tag, tagged_feature};
use crate::scalar::{Scalar, Vec3};
use vstd::prelude::*;

verus! {

/// A point in world space with its penetration depth; a small negative depth is
/// a contact that is about to happen.
#[derive(Clone, Copy, Debug, PartialEq, Eq, Structural)]
pub struct ContactPoint {
    pub point: Vec3,
    pub depth: Scalar,
    pub feature: u32,
}

impl ContactPoint {
    /// The point at the origin, with no depth and no feature.
    pub open spec fn empty_spec() -> ContactPoint {
        ContactPoint { point: Vec3::zero_spec(), depth: Scalar::zero_spec(), feature: 0 }
    }

    /// The point at the origin, with no depth and no feature.
    pub fn empty() -> (r: ContactPoint)
        ensures
            r == ContactPoint::empty_spec(),
    {
        ContactPoint { point: Vec3::zero(), depth: Scalar::zero(), feature: 0 }
    }
}

/// At most four contact points, with the feature space that tells several
/// manifolds of one pair apart.
#[derive(Clone, Copy, Debug)]
pub struct ContactPoints {
    buf: [ContactPoint; 4],
    len: u8,
    space: u16,
}

impl View for ContactPoints {
    type V = Seq<ContactPoint>;

    closed spec fn view(&self) -> Seq<ContactPoint> {
        self.buf@.subrange(0, self.len as int)
    }
}

impl ContactPoints {
    /// No more than four points are in use.
    #[verifier::type_invariant]
    closed spec fn wf(&self) -> bool {
        self.len <= 4
    }

    /// The feature space: zero, or one more than the index of a compound's child.
    pub closed spec fn space_spec(&self) -> u16 {
        self.space
    }

    /// No points, feature space zero.
    pub fn empty() -> (r: ContactPoints)
        ensures
            r@ == Seq::<ContactPoint>::empty(),
            r.space_spec() == 0,
    {
        let r = ContactPoints { buf: [ContactPoint::empty(); 4], len: 0, space: 0 };
        assert(r@ =~= Seq::<ContactPoint>::empty());
        r
    }

    /// The first four points of `s`, feature space zero.
    pub fn from_slice(s: &[ContactPoint]) -> (r: ContactPoints)
        ensures
            r@ == s@.take(
                if s@.len() < 4 {
                    s@.len() as int
                } else {
                    4
                },
            ),
            r.space_spec() == 0,
    {
        let n: usize = if s.len() < 4 {
            s.len()
        } else {
            4
        };
        let mut buf: [ContactPoint; 4] = [ContactPoint::empty(); 4];
        let mut i: usize = 0;
        while i < n
            invariant
                i <= n,
                n <= 4,
                n <= s@.len(),
                forall|j: int| 0 <= j < i ==> buf@[j] == s@[j],
            decreases n - i,
        {
            buf[i] = s[i];
            i += 1;
        }
        let r = ContactPoints { buf, len: n as u8, space: 0 };
        assert(r@ =~= s@.take(n as int));
        r
    }

    /// How many points there are.
    pub fn len(&self) -> (n: usize)
        ensures
            n == self@.len(),
            n <= 4,
    {
        proof {
            use_type_invariant(self);
        }
        self.len as usize
    }

    /// The `i`-th point.
    pub fn get(&self, i: usize) -> (p: ContactPoint)
        requires
            i < self@.len(),
        ensures
            p == self@[i as int],
    {
        proof {
            use_type_invariant(self);
        }
        self.buf[i]
    }

    /// Replaces the feature name of the `i`-th point.
    pub fn set_feature(&mut self, i: usize, feature: u32)
        requires
            i < old(self)@.len(),
        ensures
            final(self)@ == old(self)@.update(
                i as int,
                (ContactPoint { feature, ..old(self)@[i as int] }),
            ),
            final(self).space_spec() == old(self).space_spec(),
    {
        proof {
            use_type_invariant(&*self);
        }
        let ghost before = self@;
        let p = self.buf[i];
        let q = ContactPoint { point: p.point, depth: p.depth, feature };
        self.buf[i] = q;
        assert(self@ =~= before.update(i as int, q));
    }

    /// The points, for changing them in place.
    pub fn as_mut_slice(&mut self) -> (r: &mut [ContactPoint])
        ensures
            r@ == old(self)@,
            final(r)@.len() == r@.len() ==> final(self)@ == final(r)@,
            final(self).space_spec() == old(self).space_spec(),
    {
        proof {
            use_type_invariant(&*self);
        }
        let n: usize = self.len as usize;
        let (head, _tail) = self.buf.split_at_mut(n);
        head
    }

    /// The feature space.
    pub fn space(&self) -> (s: u16)
        ensures
            s == self.space_spec(),
    {
        self.space
    }

    /// Sets the feature space.
    pub fn set_space(&mut self, s: u16)
        ensures
            final(self)@ == old(self)@,
            final(self).space_spec() == s,
    {
        proof {
            use_type_invariant(&*self);
        }
        self.space = s;
    }
}

/// A contact manifold between bodies `a` and `b`; the normal points from `a` to
/// `b`.
#[derive(Clone, Copy, Debug)]
pub struct Manifold {
    pub a: u32,
    pub b: u32,
    pub normal: Vec3,
    pub points: ContactPoints,
}

/// What a test of two shapes finds: the points, and the normal from the first shape
/// to the second.
#[derive(Clone, Copy, Debug)]
pub struct Touch {
    pub normal: Vec3,
    pub points: ContactPoints,
}

/// The manifold of two bodies that were found to touch; there is none without
/// points.
pub open spec fn manifold_of(ids: (u32, u32), touch: Option<Touch>) -> Option<Manifold> {
    match touch {
        Some(t) => if t.points@.len() == 0 {
            None
        } else {
            Some(Manifold { a: ids.0, b: ids.1, normal: t.normal, points: t.points })
        },
        None => None,
    }
}

/// Makes the manifold of two bodies that were found to touch. It has at most four
/// points.
pub fn assemble(ids: (u32, u32), touch: Option<Touch>) -> (r: Option<Manifold>)
    ensures
        r == manifold_of(ids, touch),
        r matches Some(m) ==> 1 <= m.points@.len() <= 4,
{
    match touch {
        Some(t) => {
            if t.points.len() == 0 {
                None
            } else {
                Some(Manifold { a: ids.0, b: ids.1, normal: t.normal, points: t.points })
            }
        },
        None => None,
    }
}

/// The manifold `m` as the `ci`-th child of a compound gives it: the points
/// carry the child's tag, and the feature space is one more than `ci`.
pub open spec fn tagged_manifold(m: Manifold, t: Manifold, ci: int) -> bool {
    &&& t.a == m.a
    &&& t.b == m.b
    &&& t.normal == m.normal
    &&& t.points.space_spec() == ((ci + 1) % 0x1_0000) as u16
    &&& t.points@ == Seq::new(
        m.points@.len(),
        |j: int|
            ContactPoint {
                feature: tagged_feature(m.points@[j].feature, ci as u32),
                ..m.points@[j]
            },
    )
}

/// Marks the manifolds from `first` on as coming from child `ci`.
pub fn tag_child_features(ms: &mut Vec<Manifold>, first: usize, ci: usize)
    requires
        first <= old(ms)@.len(),
        ci < u32::MAX,
    ensures
        final(ms)@.len() == old(ms)@.len(),
        forall|k: int| 0 <= k < first ==> #[trigger] final(ms)@[k] == old(ms)@[k],
        forall|k: int|
            first <= k < old(ms)@.len() ==> tagged_manifold(
                old(ms)@[k],
                #[trigger] final(ms)@[k],
                ci as int,
            ),
{
    let c: u32 = (ci + 1) as u32;
    let tag: u32 = c << 16;
    assert(c << 16 == (c % 0x1_0000) * 0x1_0000) by (bit_vector);
    let space: u16 = (c % 0x1_0000) as u16;
    let mut k: usize = first;
    while k < ms.len()
        invariant
            first <= k <= ms@.len(),
            ms@.len() == old(ms)@.len(),
            ci < u32::MAX,
            tag == child_tag(ci as u32),
            space == ((ci + 1) % 0x1_0000) as u16,
            forall|j: int| 0 <= j < first ==> #[trigger] ms@[j] == old(ms)@[j],
            forall|j: int| k <= j < ms@.len() ==> #[trigger] ms@[j] == old(ms)@[j],
            forall|j: int|
                first <= j < k ==> tagged_manifold(old(ms)@[j], #[trigger] ms@[j], ci as int),
        decreases ms@.len() - k,
    {
        let ghost m0 = ms@[k as int];
        let mut m = ms[k];
        m.points.set_space(space);
        let n: usize = m.points.len();
        let mut i: usize = 0;
        while i < n
            invariant
                i <= n,
                n == m.points@.len(),
                n == m0.points@.len(),
                tag == child_tag(ci as u32),
                m.a == m0.a,
                m.b == m0.b,
                m.normal == m0.normal,
                m.points.space_spec() == space,
                forall|j: int|
                    i <= j < n ==> m.points@[j] == m0.points@[j],
                forall|j: int|
                    0 <= j < i ==> m.points@[j] == (ContactPoint {
                        feature: tagged_feature(m0.points@[j].feature, ci as u32),
                        ..m0.points@[j]
                    }),
            decreases n - i,
        {
            let f: u32 = m.points.get(i).feature;
            let t: u32 = if f == 0 {
                tag
            } else {
                f | tag
            };
            assert(0u32 | tag == tag) by (bit_vector);
            m.points.set_feature(i, t);
            i += 1;
        }
        assert(m.points@ =~= Seq::new(
            m0.points@.len(),
            |j: int|
                ContactPoint {
                    feature: tagged_feature(m0.points@[j].feature, ci as u32),
                    ..m0.points@[j]
                },
        ));
        ms.set(k, m);
        k += 1;
    }
}

} // verus!
