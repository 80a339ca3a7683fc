//! From manifolds to contact constraints and back to cached impulses.
//!
//! The numeric terms of a constraint come in ready; what is decided here is
//! which cached point starts which contact, whether an old anchor is kept, and
//! what ends up in the cache.

use crate::body::BodySet;
use crate::contact::{ContactPoint, Manifold};
use crate::feature::{feature_hash_part, feature_hash_part_spec, feature_kind, feature_kind_spec};
use crate::prepare::{
    manifold_key, prepare_points, prepared, total_prep, Agreement, ContactPrep, PointNumbers,
};
use crate::scalar::{Scalar, Vec3};
use crate::stats::{counted, Counters};
use crate::warm::{WarmKey, WarmManifold, WarmOutEntry, WarmPoint, WarmState, WarmTable, NONE};
use vstd::prelude::*;

verus! {

/// How one cached point relates to the contact that looks for a match.
#[derive(Clone, Copy, Debug, PartialEq, Eq, Structural)]
pub struct WarmCandidate {
    /// The cached feature.
    pub feature: u32,
    /// Whether the anchor lies within the match distance.
    pub near: bool,
    /// Whether the anchor passes the stricter test for a match without feature.
    pub acceptable: bool,
    /// Squared distance of the anchor.
    pub dist2: Scalar,
}

/// The candidate carries the wanted feature and is near.
pub open spec fn exact_match(c: WarmCandidate, feature: u32) -> bool {
    feature != 0 && c.feature == feature && c.near
}

/// `k` is the first candidate with the wanted feature that is near.
pub open spec fn first_exact(cands: Seq<WarmCandidate>, feature: u32, k: int) -> bool {
    &&& 0 <= k < cands.len()
    &&& exact_match(cands[k], feature)
    &&& forall|j: int| 0 <= j < k ==> !exact_match(#[trigger] cands[j], feature)
}

/// `k` is the closest acceptable candidate, the first of those equally close.
pub open spec fn closest_acceptable(cands: Seq<WarmCandidate>, k: int) -> bool {
    &&& 0 <= k < cands.len()
    &&& cands[k].acceptable
    &&& forall|j: int|
        0 <= j < k && (#[trigger] cands[j]).acceptable ==> cands[k].dist2.total_lt_spec(
            cands[j].dist2,
        )
    &&& forall|j: int|
        k < j < cands.len() && (#[trigger] cands[j]).acceptable ==> !cands[j].dist2.total_lt_spec(
            cands[k].dist2,
        )
}

/// How a contact found its cached point.
#[derive(Clone, Copy, Debug, PartialEq, Eq, Structural)]
pub enum WarmMatch {
    /// The cached normal no longer agrees; nothing was looked up.
    Unaligned,
    /// By feature.
    Exact(usize),
    /// By distance.
    Fallback(usize),
    /// Not at all.
    Miss,
}

/// The match of a contact with feature `feature` among the cached points.
pub open spec fn matches_spec(
    cands: Seq<WarmCandidate>,
    aligned: bool,
    feature: u32,
    r: WarmMatch,
) -> bool {
    match r {
        WarmMatch::Unaligned => !aligned || cands.len() == 0,
        WarmMatch::Exact(k) => aligned && first_exact(cands, feature, k as int),
        WarmMatch::Fallback(k) => aligned && closest_acceptable(cands, k as int) && forall|j: int|
            0 <= j < cands.len() ==> !exact_match(#[trigger] cands[j], feature),
        WarmMatch::Miss => aligned && cands.len() > 0 && forall|j: int|
            0 <= j < cands.len() ==> !exact_match(#[trigger] cands[j], feature)
                && !cands[j].acceptable,
    }
}

/// The counters after a contact was looked up.
pub open spec fn match_counted(
    c: Counters,
    cands: Seq<WarmCandidate>,
    feature: u32,
    normal_kept: bool,
    r: WarmMatch,
) -> Counters {
    match r {
        WarmMatch::Unaligned => c,
        WarmMatch::Exact(_) => Counters { warm_exact: counted(c.warm_exact), ..c },
        WarmMatch::Miss => Counters { warm_miss: counted(c.warm_miss), ..c },
        WarmMatch::Fallback(k) => {
            let old_feature = cands[k as int].feature;
            let c1 = Counters { warm_fallback: counted(c.warm_fallback), ..c };
            let c2 = if normal_kept {
                Counters { normal_same: counted(c1.normal_same), ..c1 }
            } else {
                Counters { normal_flip: counted(c1.normal_flip), ..c1 }
            };
            if feature_kind_spec(feature).0 != feature_kind_spec(old_feature).0 {
                Counters { fallback_side: counted(c2.fallback_side), ..c2 }
            } else if feature_kind_spec(feature).1 != feature_kind_spec(old_feature).1 {
                Counters { fallback_clip: counted(c2.fallback_clip), ..c2 }
            } else if feature_hash_part_spec(feature) != feature_hash_part_spec(old_feature) {
                Counters { fallback_hash: counted(c2.fallback_hash), ..c2 }
            } else {
                Counters { fallback_same: counted(c2.fallback_same), ..c2 }
            }
        },
    }
}

/// One lookup has one outcome.
pub proof fn match_is_unique(
    cands: Seq<WarmCandidate>,
    aligned: bool,
    feature: u32,
    r: WarmMatch,
    s: WarmMatch,
)
    requires
        matches_spec(cands, aligned, feature, r),
        matches_spec(cands, aligned, feature, s),
    ensures
        r == s,
{
    match (r, s) {
        (WarmMatch::Exact(j), WarmMatch::Exact(k)) => {
            if j < k {
                assert(!exact_match(cands[j as int], feature));
            } else if k < j {
                assert(!exact_match(cands[k as int], feature));
            }
        },
        (WarmMatch::Fallback(j), WarmMatch::Fallback(k)) => {
            if j < k {
                assert(cands[j as int].acceptable);
                assert(cands[k as int].acceptable);
            } else if k < j {
                assert(cands[j as int].acceptable);
                assert(cands[k as int].acceptable);
            }
        },
        (WarmMatch::Exact(j), _) => {
            assert(exact_match(cands[j as int], feature));
        },
        (_, WarmMatch::Exact(k)) => {
            assert(exact_match(cands[k as int], feature));
        },
        (WarmMatch::Fallback(j), _) => {
            assert(cands[j as int].acceptable);
        },
        (_, WarmMatch::Fallback(k)) => {
            assert(cands[k as int].acceptable);
        },
        _ => {},
    }
}

/// Finds the cached point that a contact continues: first by feature, then the
/// closest acceptable one. `aligned` tells whether the cached normal still
/// agrees, `normal_kept` whether it has hardly moved at all.
pub fn match_warm_point(
    feature: u32,
    cands: &[WarmCandidate],
    aligned: bool,
    normal_kept: bool,
    counters: &mut Counters,
) -> (r: WarmMatch)
    ensures
        matches_spec(cands@, aligned, feature, r),
        *final(counters) == match_counted(*old(counters), cands@, feature, normal_kept, r),
{
    let n: usize = cands.len();
    if !aligned || n == 0 {
        return WarmMatch::Unaligned;
    }
    let mut k: usize = 0;
    while k < n
        invariant
            n == cands@.len(),
            k <= n,
            aligned,
            *counters == *old(counters),
            forall|j: int| 0 <= j < k ==> !exact_match(#[trigger] cands@[j], feature),
        decreases n - k,
    {
        if feature != 0 && cands[k].feature == feature && cands[k].near {
            counters.warm_exact = counters.warm_exact.wrapping_add(1);
            return WarmMatch::Exact(k);
        }
        k += 1;
    }
    let mut best: Option<usize> = None;
    let mut i: usize = 0;
    while i < n
        invariant
            n == cands@.len(),
            i <= n,
            match best {
                None => forall|j: int| 0 <= j < i ==> !(#[trigger] cands@[j]).acceptable,
                Some(b) => closest_acceptable(cands@.take(i as int), b as int),
            },
        decreases n - i,
    {
        let ghost seen = cands@.take(i as int);
        let ghost next = cands@.take(i + 1);
        assert(next =~= seen.push(cands@[i as int]));
        let ghost old_best = best;
        let better: bool = match best {
            None => cands[i].acceptable,
            Some(b) => {
                assert(b < i);
                cands[i].acceptable && cands[i].dist2.total_lt(cands[b].dist2)
            },
        };
        if better {
            best = Some(i);
        }
        proof {
            match best {
                None => {},
                Some(b) => {
                    assert(next[b as int] == cands@[b as int]);
                    assert forall|j: int| 0 <= j < b && (
                    #[trigger] next[j]).acceptable implies next[b as int].dist2.total_lt_spec(
                        next[j].dist2,
                    ) by {
                        assert(seen[j] == next[j]);
                        if better {
                            match old_best {
                                Some(o) => {
                                    assert(seen[o as int] == cands@[o as int]);
                                    assert(seen[j].acceptable);
                                },
                                None => {},
                            }
                        }
                    }
                    assert forall|j: int| b < j < next.len() && (
                    #[trigger] next[j]).acceptable implies !next[j].dist2.total_lt_spec(
                        next[b as int].dist2,
                    ) by {
                        if j < i {
                            assert(seen[j] == next[j]);
                        }
                    }
                },
            }
        }
        i += 1;
    }
    assert(cands@.take(n as int) =~= cands@);
    match best {
        None => {
            counters.warm_miss = counters.warm_miss.wrapping_add(1);
            WarmMatch::Miss
        },
        Some(b) => {
            let old_feature: u32 = cands[b].feature;
            counters.warm_fallback = counters.warm_fallback.wrapping_add(1);
            if normal_kept {
                counters.normal_same = counters.normal_same.wrapping_add(1);
            } else {
                counters.normal_flip = counters.normal_flip.wrapping_add(1);
            }
            let (s_new, c_new) = feature_kind(feature);
            let (s_old, c_old) = feature_kind(old_feature);
            if s_new != s_old {
                counters.fallback_side = counters.fallback_side.wrapping_add(1);
            } else if c_new != c_old {
                counters.fallback_clip = counters.fallback_clip.wrapping_add(1);
            } else if feature_hash_part(feature) != feature_hash_part(old_feature) {
                counters.fallback_hash = counters.fallback_hash.wrapping_add(1);
            } else {
                counters.fallback_same = counters.fallback_same.wrapping_add(1);
            }
            WarmMatch::Fallback(b)
        },
    }
}

/// The material of a body: the one its entry names, if both exist; otherwise it
/// has the default material.
pub fn material_slot(entries: &[u32], materials: usize, body: usize) -> (r: Option<usize>)
    ensures
        r == if body < entries@.len() && entries@[body as int] < materials {
            Some(entries@[body as int] as usize)
        } else {
            None
        },
{
    if body < entries.len() {
        let m: u32 = entries[body];
        if (m as usize) < materials {
            return Some(m as usize);
        }
    }
    None
}

/// Where a contact point acts: its world position, its depth now and when its
/// anchors were made, the anchors, and how far they have drifted apart.
#[derive(Clone, Copy, Debug, PartialEq, Eq, Structural)]
pub struct AnchorGeom {
    pub pt_world: Vec3,
    pub depth: Scalar,
    pub depth0: Scalar,
    pub la: Vec3,
    pub lb: Vec3,
    pub drift: Vec3,
}

/// What keeping a cached anchor would give.
#[derive(Clone, Copy, Debug, PartialEq, Eq, Structural)]
pub struct Recycled {
    /// Whether the two anchors are still close enough to be kept.
    pub within: bool,
    pub midpoint: Vec3,
    pub depth: Scalar,
    pub separation: Vec3,
}

/// The geometry of a contact: that of its cached anchor while the anchor holds,
/// otherwise fresh anchors without drift.
pub open spec fn resolve_anchor_spec(
    cp: ContactPoint,
    warm: Option<(WarmPoint, Recycled)>,
    baked: (Vec3, Vec3),
) -> AnchorGeom {
    match warm {
        Some((w, r)) if r.within => AnchorGeom {
            pt_world: r.midpoint,
            depth: r.depth,
            depth0: w.depth0,
            la: w.la,
            lb: w.lb,
            drift: r.separation,
        },
        _ => AnchorGeom {
            pt_world: cp.point,
            depth: cp.depth,
            depth0: cp.depth,
            la: baked.0,
            lb: baked.1,
            drift: Vec3::zero_spec(),
        },
    }
}

/// Keeps the cached anchor while it holds, otherwise makes fresh ones.
pub fn resolve_anchor(
    cp: &ContactPoint,
    warm: Option<(WarmPoint, Recycled)>,
    baked: (Vec3, Vec3),
) -> (g: AnchorGeom)
    ensures
        g == resolve_anchor_spec(*cp, warm, baked),
{
    match warm {
        Some((w, r)) if r.within => AnchorGeom {
            pt_world: r.midpoint,
            depth: r.depth,
            depth0: w.depth0,
            la: w.la,
            lb: w.lb,
            drift: r.separation,
        },
        _ => AnchorGeom {
            pt_world: cp.point,
            depth: cp.depth,
            depth0: cp.depth,
            la: baked.0,
            lb: baked.1,
            drift: Vec3::zero(),
        },
    }
}

/// How soft a contact is: a touching one is rigid, a separated one takes the
/// softness of its kind of pair.
pub fn softness(
    depth: Scalar,
    is_static_pair: bool,
    rigid: Scalar,
    soft_static: Scalar,
    soft_dynamic: Scalar,
) -> (cfm: Scalar)
    ensures
        cfm == if Scalar::zero_spec().le_spec(depth) {
            rigid
        } else if is_static_pair {
            soft_static
        } else {
            soft_dynamic
        },
{
    if Scalar::zero().le(depth) {
        rigid
    } else if is_static_pair {
        soft_static
    } else {
        soft_dynamic
    }
}

/// Counts a prepared point: whether it is separated, and the closing and
/// correction speeds it was given, in thousandths.
pub fn count_point(counters: &mut Counters, depth: Scalar, closing_milli: u64, bias_milli: u64)
    ensures
        *final(counters) == (Counters {
            points: counted(old(counters).points),
            separated: if depth.lt_spec(Scalar::zero_spec()) {
                counted(old(counters).separated)
            } else {
                old(counters).separated
            },
            closing_milli: ((old(counters).closing_milli + closing_milli) % 0x1_0000_0000_0000_0000)
                as u64,
            bias_milli: ((old(counters).bias_milli + bias_milli) % 0x1_0000_0000_0000_0000) as u64,
            ..*old(counters)
        }),
{
    counters.points = counters.points.wrapping_add(1);
    if depth.lt(Scalar::zero()) {
        counters.separated = counters.separated.wrapping_add(1);
    }
    counters.closing_milli = counters.closing_milli.wrapping_add(closing_milli);
    counters.bias_milli = counters.bias_milli.wrapping_add(bias_milli);
}

/// The tangential pull-back of a contact: only one that sticks and has drifted
/// beyond the dead zone is pulled back. `slid` tells, for a cached point,
/// whether its impulses were at the friction limit.
pub fn tangential_drift(slid: Option<bool>, beyond: bool, pull: (Scalar, Scalar)) -> (r: (
    Scalar,
    Scalar,
))
    ensures
        r == if slid == Some(false) && beyond {
            pull
        } else {
            (Scalar::zero_spec(), Scalar::zero_spec())
        },
{
    let sliding: bool = match slid {
        Some(s) => s,
        None => true,
    };
    if !sliding && beyond {
        pull
    } else {
        (Scalar::zero(), Scalar::zero())
    }
}

/// The prepared numeric terms of one contact point, and the cached point it
/// continues.
#[derive(Clone, Copy, Debug, PartialEq, Eq, Structural)]
pub struct PointTerms {
    pub ra: Vec3,
    pub rb: Vec3,
    pub t1: Vec3,
    pub t2: Vec3,
    pub nmass: Scalar,
    pub tmass1: Scalar,
    pub tmass2: Scalar,
    pub tcross: Scalar,
    pub trhs1: Scalar,
    pub trhs2: Scalar,
    pub rhs: Scalar,
    pub cfm: Scalar,
    pub friction: Scalar,
    pub anchor: AnchorGeom,
    pub warm: Option<WarmPoint>,
}

/// One contact point of a constraint: its terms, its name and the impulses
/// found so far.
#[derive(Clone, Copy, Debug, PartialEq, Eq, Structural)]
pub struct PointConstraint {
    pub terms: PointTerms,
    pub feature: u32,
    pub pn: Scalar,
    pub pt1: Scalar,
    pub pt2: Scalar,
}

impl PointConstraint {
    /// The point before the first iteration: it starts from the impulses of the
    /// cached point, or from none.
    pub open spec fn start_spec(terms: PointTerms, feature: u32) -> PointConstraint {
        match terms.warm {
            Some(w) => PointConstraint { terms, feature, pn: w.pn, pt1: w.pt1, pt2: w.pt2 },
            None => PointConstraint {
                terms,
                feature,
                pn: Scalar::zero_spec(),
                pt1: Scalar::zero_spec(),
                pt2: Scalar::zero_spec(),
            },
        }
    }

    /// The point before the first iteration.
    pub fn start(terms: PointTerms, feature: u32) -> (r: PointConstraint)
        ensures
            r == PointConstraint::start_spec(terms, feature),
    {
        match terms.warm {
            Some(w) => PointConstraint { terms, feature, pn: w.pn, pt1: w.pt1, pt2: w.pt2 },
            None => PointConstraint {
                terms,
                feature,
                pn: Scalar::zero(),
                pt1: Scalar::zero(),
                pt2: Scalar::zero(),
            },
        }
    }

    /// What the cache keeps of the point.
    pub open spec fn kept_spec(self) -> WarmPoint {
        WarmPoint {
            pn: self.pn,
            pt1: self.pt1,
            pt2: self.pt2,
            feature: self.feature,
            la: self.terms.anchor.la,
            lb: self.terms.anchor.lb,
            depth0: self.terms.anchor.depth0,
        }
    }

    /// What the cache keeps of the point.
    pub fn kept(&self) -> (r: WarmPoint)
        ensures
            r == self.kept_spec(),
    {
        WarmPoint {
            pn: self.pn,
            pt1: self.pt1,
            pt2: self.pt2,
            feature: self.feature,
            la: self.terms.anchor.la,
            lb: self.terms.anchor.lb,
            depth0: self.terms.anchor.depth0,
        }
    }
}

/// The constraint of one manifold: at most four points, and the cache slot that
/// its key led to.
pub struct ContactConstraint {
    pub a: u32,
    pub b: u32,
    pub normal: Vec3,
    pub warm_slot: u32,
    pub warm_space: u32,
    pub points: Vec<PointConstraint>,
}

impl ContactConstraint {
    /// The cache key of the constraint.
    pub open spec fn key_spec(&self) -> WarmKey {
        WarmKey { a: self.a, b: self.b, space: self.warm_space }
    }
}

/// The slot that a key leads to, or `NONE`.
pub open spec fn slot_of(st: WarmState, key: WarmKey) -> u32 {
    if st.has(key) {
        st.index[key.packed_spec()]
    } else {
        NONE
    }
}

/// The constraint is that of the manifold with these terms.
pub open spec fn constraint_of(
    c: &ContactConstraint,
    m: &Manifold,
    st: WarmState,
    terms: Seq<PointTerms>,
) -> bool {
    &&& c.a == m.a
    &&& c.b == m.b
    &&& c.normal == m.normal
    &&& c.key_spec() == manifold_key(m)
    &&& c.warm_slot == slot_of(st, manifold_key(m))
    &&& c.points@ == Seq::new(
        m.points@.len(),
        |k: int| PointConstraint::start_spec(terms[k], m.points@[k].feature),
    )
}

/// A manifold needs solving if it has a point and a body that can move.
pub open spec fn needs_solving(m: &Manifold, bodies: &BodySet) -> bool {
    (bodies.dynamic@[m.a as int] || bodies.dynamic@[m.b as int]) && m.points@.len() > 0
}

/// Adds the constraint of manifold `mi` if it needs solving: its points are prepared
/// from what the cache holds under its key.
pub fn build_constraint<
    A: Fn(usize, Vec3) -> Agreement,
    C: Fn(usize, ContactPoint, WarmPoint) -> WarmCandidate,
    K: Fn(usize, WarmPoint) -> Recycled,
    B: Fn(usize, ContactPoint) -> (Vec3, Vec3),
    P: Fn(usize, ContactPoint, AnchorGeom, Option<WarmPoint>) -> PointNumbers,
>(
    out: &mut Vec<ContactConstraint>,
    mi: usize,
    m: &Manifold,
    bodies: &BodySet,
    table: &WarmTable,
    prep: &ContactPrep<A, C, K, B, P>,
    counters: &mut Counters,
)
    requires
        bodies.wf(),
        m.a < bodies.count(),
        m.b < bodies.count(),
        table@.sound(),
        total_prep(*prep),
    ensures
        !needs_solving(m, bodies) ==> final(out)@ == old(out)@ && *final(counters) == *old(
            counters,
        ),
        needs_solving(m, bodies) ==> {
            &&& final(out)@.len() == old(out)@.len() + 1
            &&& final(out)@.drop_last() == old(out)@
            &&& exists|terms: Seq<PointTerms>|
                {
                    &&& #[trigger] prepared(
                        *prep,
                        mi,
                        m,
                        table@,
                        terms,
                        *old(counters),
                        *final(counters),
                    )
                    &&& constraint_of(&final(out)@.last(), m, table@, terms)
                }
            &&& final(out)@.last().points@.len() <= 4
        },
{
    if !bodies.dynamic[m.a as usize] && !bodies.dynamic[m.b as usize] {
        return;
    }
    let warm_space: u32 = m.points.space() as u32;
    let warm_slot: u32 = table.lookup(WarmKey { a: m.a, b: m.b, space: warm_space });
    let n: usize = m.points.len();
    if n == 0 {
        return;
    }
    let terms: Vec<PointTerms> = prepare_points(prep, mi, m, table, counters);
    let mut points: Vec<PointConstraint> = Vec::new();
    let mut k: usize = 0;
    while k < n
        invariant
            n == m.points@.len(),
            n == terms@.len(),
            k <= n,
            points@.len() == k,
            forall|j: int|
                0 <= j < k ==> points@[j] == PointConstraint::start_spec(
                    terms@[j],
                    m.points@[j].feature,
                ),
        decreases n - k,
    {
        points.push(PointConstraint::start(terms[k], m.points.get(k).feature));
        k += 1;
    }
    assert(points@ =~= Seq::new(
        m.points@.len(),
        |k: int| PointConstraint::start_spec(terms@[k], m.points@[k].feature),
    ));
    out.push(
        ContactConstraint { a: m.a, b: m.b, normal: m.normal, warm_slot, warm_space, points },
    );
    assert(out@.drop_last() =~= old(out)@);
}

/// Solved points whose normal impulse is at most this count as idle (one
/// millionth).
pub open spec fn idle_limit_spec() -> Scalar {
    Scalar { bits: 0x3586_37bd }
}

/// Whether the solve left the point without a normal impulse worth counting.
pub open spec fn idle(p: PointConstraint) -> bool {
    p.pn.le_spec(idle_limit_spec())
}

/// How many of the points are idle.
pub open spec fn idle_count(points: Seq<PointConstraint>) -> int
    decreases points.len(),
{
    if points.len() == 0 {
        0
    } else {
        idle_count(points.drop_last()) + if idle(points.last()) {
            1int
        } else {
            0
        }
    }
}

/// The points and the idle points of the constraints.
pub open spec fn point_totals(cs: Seq<ContactConstraint>) -> (int, int)
    decreases cs.len(),
{
    if cs.len() == 0 {
        (0, 0)
    } else {
        let (n, z) = point_totals(cs.drop_last());
        (n + cs.last().points@.len(), z + idle_count(cs.last().points@))
    }
}

proof fn lemma_idle_count(points: Seq<PointConstraint>)
    ensures
        0 <= idle_count(points) <= points.len(),
    decreases points.len(),
{
    if points.len() > 0 {
        lemma_idle_count(points.drop_last());
    }
}

/// The idle points are among the points, and a constraint has at most four.
pub proof fn lemma_point_totals(cs: Seq<ContactConstraint>)
    requires
        forall|i: int| 0 <= i < cs.len() ==> (#[trigger] cs[i]).points@.len() <= 4,
    ensures
        0 <= point_totals(cs).1 <= point_totals(cs).0 <= 4 * cs.len(),
    decreases cs.len(),
{
    if cs.len() > 0 {
        assert forall|i: int| 0 <= i < cs.drop_last().len() implies (
        #[trigger] cs.drop_last()[i]).points@.len() <= 4 by {
            assert(cs.drop_last()[i] == cs[i]);
        }
        lemma_point_totals(cs.drop_last());
        lemma_idle_count(cs.last().points@);
    }
}

/// The entry hands back the points of the constraint to the slot it was read
/// from.
pub open spec fn entry_of(e: WarmOutEntry, c: &ContactConstraint) -> bool {
    &&& e.slot == c.warm_slot
    &&& e.key == c.key_spec()
    &&& e.value.normal == c.normal
    &&& e.value.n == c.points@.len()
    &&& e.value.seen == 0
    &&& e.value.points@ == Seq::new(
        4,
        |k: int|
            if k < c.points@.len() {
                c.points@[k].kept_spec()
            } else {
                WarmPoint::empty_spec()
            },
    )
    &&& e.value.pts_spec() == c.points@.map_values(|p: PointConstraint| p.kept_spec())
}

/// What the constraint hands back to the cache.
pub fn warm_entry(c: &ContactConstraint) -> (e: WarmOutEntry)
    requires
        c.points@.len() <= 4,
    ensures
        entry_of(e, c),
        e.value.wf(),
{
    let mut points: [WarmPoint; 4] = [WarmPoint::empty(); 4];
    let n: usize = c.points.len();
    let mut k: usize = 0;
    while k < n
        invariant
            n == c.points@.len(),
            n <= 4,
            k <= n,
            forall|j: int| 0 <= j < k ==> points@[j] == c.points@[j].kept_spec(),
            forall|j: int| k <= j < 4 ==> points@[j] == WarmPoint::empty_spec(),
        decreases n - k,
    {
        points[k] = c.points[k].kept();
        k += 1;
    }
    let value = WarmManifold { normal: c.normal, points, n: n as u8, seen: 0 };
    assert(value.points@ =~= Seq::new(
        4,
        |k: int|
            if k < c.points@.len() {
                c.points@[k].kept_spec()
            } else {
                WarmPoint::empty_spec()
            },
    ));
    assert(value.pts_spec() =~= c.points@.map_values(|p: PointConstraint| p.kept_spec()));
    WarmOutEntry {
        slot: c.warm_slot,
        key: WarmKey { a: c.a, b: c.b, space: c.warm_space },
        value,
    }
}

/// How many of the points are idle.
fn idle_points(points: &Vec<PointConstraint>) -> (n: usize)
    ensures
        n == idle_count(points@),
        n <= points@.len(),
{
    let limit: Scalar = Scalar { bits: 0x3586_37bd };
    let mut n: usize = 0;
    let mut k: usize = 0;
    assert(points@.take(0) =~= Seq::<PointConstraint>::empty());
    while k < points.len()
        invariant
            k <= points@.len(),
            limit == idle_limit_spec(),
            n <= k,
            n == idle_count(points@.take(k as int)),
        decreases points@.len() - k,
    {
        proof {
            assert(points@.take(k + 1).drop_last() =~= points@.take(k as int));
            assert(points@.take(k + 1).last() == points@[k as int]);
        }
        if points[k].pn.le(limit) {
            n += 1;
        }
        k += 1;
    }
    assert(points@.take(k as int) =~= points@);
    n
}

/// The points and the idle points of all constraints.
fn count_points(cs: &Vec<ContactConstraint>) -> (r: (u64, u64))
    requires
        forall|i: int| 0 <= i < cs@.len() ==> (#[trigger] cs@[i]).points@.len() <= 4,
        4 * cs@.len() <= u64::MAX,
    ensures
        (r.0 as int, r.1 as int) == point_totals(cs@),
{
    let mut total: u64 = 0;
    let mut idle_total: u64 = 0;
    let mut i: usize = 0;
    assert(cs@.take(0) =~= Seq::<ContactConstraint>::empty());
    while i < cs.len()
        invariant
            i <= cs@.len(),
            4 * cs@.len() <= u64::MAX,
            forall|j: int| 0 <= j < cs@.len() ==> (#[trigger] cs@[j]).points@.len() <= 4,
            (total as int, idle_total as int) == point_totals(cs@.take(i as int)),
        decreases cs@.len() - i,
    {
        proof {
            assert(cs@.take(i + 1).drop_last() =~= cs@.take(i as int));
            assert(cs@.take(i + 1).last() == cs@[i as int]);
            assert forall|j: int| 0 <= j < cs@.take(i as int).len() implies (
            #[trigger] cs@.take(i as int)[j]).points@.len() <= 4 by {
                assert(cs@.take(i as int)[j] == cs@[j]);
            }
            lemma_point_totals(cs@.take(i as int));
        }
        total = total + cs[i].points.len() as u64;
        idle_total = idle_total + idle_points(&cs[i].points) as u64;
        i += 1;
    }
    assert(cs@.take(i as int) =~= cs@);
    (total, idle_total)
}

/// The entry is a sound one for the constraint.
pub open spec fn hands_back(e: WarmOutEntry, c: ContactConstraint) -> bool {
    entry_of(e, &c) && e.value.wf()
}

/// Hands the points of all constraints back, in order, and returns how many
/// points there are and how many of them are idle.
pub fn collect_warm(cs: &Vec<ContactConstraint>, out: &mut Vec<WarmOutEntry>) -> (r: (u64, u64))
    requires
        forall|i: int| 0 <= i < cs@.len() ==> (#[trigger] cs@[i]).points@.len() <= 4,
        4 * cs@.len() <= u64::MAX,
    ensures
        final(out)@.len() == old(out)@.len() + cs@.len(),
        forall|i: int| 0 <= i < old(out)@.len() ==> #[trigger] final(out)@[i] == old(out)@[i],
        forall|i: int|
            old(out)@.len() <= i < final(out)@.len() ==> hands_back(
                #[trigger] final(out)@[i],
                cs@[i - old(out)@.len()],
            ),
        (r.0 as int, r.1 as int) == point_totals(cs@),
{
    let totals = count_points(cs);
    let ghost base = out@.len();
    let mut i: usize = 0;
    while i < cs.len()
        invariant
            i <= cs@.len(),
            base == old(out)@.len(),
            forall|j: int| 0 <= j < cs@.len() ==> (#[trigger] cs@[j]).points@.len() <= 4,
            out@.len() == base + i,
            forall|j: int| 0 <= j < base ==> #[trigger] out@[j] == old(out)@[j],
            forall|j: int| base <= j < out@.len() ==> hands_back(#[trigger] out@[j], cs@[j - base]),
        decreases cs@.len() - i,
    {
        assert(cs@[i as int].points@.len() <= 4);
        let e = warm_entry(&cs[i]);
        assert(hands_back(e, cs@[i as int]));
        out.push(e);
        i += 1;
    }
    totals
}

} // verus!
