//! What contact points, joints and counters promise one by one.

use crate::body::BodySet;
use crate::constraint::{
    resolve_anchor, softness, tangential_drift, AnchorGeom, PointConstraint, PointTerms, Recycled,
};
use crate::contact::{assemble, tag_child_features, ContactPoint, ContactPoints, Manifold, Touch};
use crate::dispatch::{sphere_case, SphereCase, SphereGap};
use crate::guarantees::contacts::not_negative;
use crate::joints::{acting, joint_active, Joint, JointSet};
use crate::scalar::{Scalar, Vec3};
use crate::select::{indices_where, ints_usize, lemma_indices_where, lemma_indices_where_contains};
use crate::stats::{
    sleep_diag_deep_take, sleep_diag_take, solve_accounting_take, warm_fallback_kind_take,
    warm_match_stats_take, warm_normal_flip_take, Counters,
};
use crate::warm::WarmPoint;
use vstd::prelude::*;

verus! {

/// A point acts where its cached anchors meet while they are close enough, and is as deep
/// as they say; otherwise it acts where it was found, with fresh anchors and no drift.
pub proof fn anchors_are_kept_while_close(
    cp: &ContactPoint,
    w: WarmPoint,
    x: Recycled,
    baked: (Vec3, Vec3),
    g: AnchorGeom,
    h: AnchorGeom,
)
    requires
        call_ensures(resolve_anchor, (cp, Some((w, x)), baked), g),
        call_ensures(resolve_anchor, (cp, None, baked), h),
    ensures
        h.pt_world == cp.point && h.depth == cp.depth && h.depth0 == cp.depth,
        h.la == baked.0 && h.lb == baked.1,
        h.drift.x.bits == 0 && h.drift.y.bits == 0 && h.drift.z.bits == 0,
        !x.within ==> g == h,
        x.within ==> g.pt_world == x.midpoint && g.depth == x.depth && g.drift == x.separation
            && g.depth0 == w.depth0 && g.la == w.la && g.lb == w.lb,
{
}

/// A touching point is as rigid as told; a separated one is as soft as told for its kind of
/// pair. A point that stuck and strayed is pulled back, any other is not.
pub proof fn separated_points_are_soft(
    depth: Scalar,
    fixed: bool,
    rigid: Scalar,
    soft_static: Scalar,
    soft_dynamic: Scalar,
    cfm: Scalar,
    slid: Option<bool>,
    beyond: bool,
    pull: (Scalar, Scalar),
    r: (Scalar, Scalar),
)
    requires
        call_ensures(softness, (depth, fixed, rigid, soft_static, soft_dynamic), cfm),
        call_ensures(tangential_drift, (slid, beyond, pull), r),
    ensures
        not_negative(depth) ==> cfm == rigid,
        !not_negative(depth) && fixed ==> cfm == soft_static,
        !not_negative(depth) && !fixed ==> cfm == soft_dynamic,
        slid is Some && !slid.unwrap() && beyond ==> r == pull,
        slid is None || slid.unwrap() || !beyond ==> r.0.bits == 0 && r.1.bits == 0,
{
}

/// A point starts from the impulses of the cached one that it continues, or from none; what
/// is kept of it are its impulses, its feature and its anchors. So a point that is kept at
/// once and continued starts where it was.
pub proof fn points_start_where_they_stopped(
    terms: PointTerms,
    feature: u32,
    p: PointConstraint,
    w: WarmPoint,
    later: PointTerms,
    q: PointConstraint,
)
    requires
        call_ensures(PointConstraint::start, (terms, feature), p),
        call_ensures(PointConstraint::kept, (&p,), w),
        later.warm == Some(w),
        call_ensures(PointConstraint::start, (later, feature), q),
    ensures
        p.terms == terms,
        p.feature == feature,
        terms.warm is None ==> p.pn.bits == 0 && p.pt1.bits == 0 && p.pt2.bits == 0,
        w.feature == feature,
        w.pn == p.pn && w.pt1 == p.pt1 && w.pt2 == p.pt2,
        w.la == terms.anchor.la && w.lb == terms.anchor.lb && w.depth0 == terms.anchor.depth0,
        q.pn == p.pn && q.pt1 == p.pt1 && q.pt2 == p.pt2,
{
}

/// A touch with points is a manifold of its two bodies; one without points is none.
pub proof fn touches_with_points_are_manifolds(
    ids: (u32, u32),
    touch: Option<Touch>,
    r: Option<Manifold>,
)
    requires
        call_ensures(assemble, (ids, touch), r),
    ensures
        r is Some <==> touch is Some && touch.unwrap().points@.len() > 0,
        r is Some ==> r.unwrap().a == ids.0 && r.unwrap().b == ids.1 && r.unwrap().normal
            == touch.unwrap().normal && r.unwrap().points == touch.unwrap().points,
{
}

/// The manifolds of a child of a compound get its number, one up, as their feature space
/// and in the upper half of every feature; nothing else of them changes, nor do the
/// manifolds before them.
pub proof fn children_mark_their_manifolds(
    ms: &mut Vec<Manifold>,
    first: usize,
    ci: usize,
    k: int,
    j: int,
)
    requires
        first <= old(ms)@.len(),
        ci < u32::MAX,
        call_ensures(tag_child_features, (ms, first, ci), ()),
        0 <= k < old(ms)@.len(),
        0 <= j < old(ms)@[k].points@.len(),
    ensures
        final(ms)@.len() == old(ms)@.len(),
        k < first ==> final(ms)@[k] == old(ms)@[k],
        k >= first ==> {
            let m = old(ms)@[k];
            let t = final(ms)@[k];
            let tag = (((ci + 1) % 0x1_0000) * 0x1_0000) as u32;
            &&& t.a == m.a
            &&& t.b == m.b
            &&& t.normal == m.normal
            &&& t.points@.len() == m.points@.len()
            &&& t.points.space_spec() == (ci + 1) % 0x1_0000
            &&& t.points@[j].point == m.points@[j].point
            &&& t.points@[j].depth == m.points@[j].depth
            &&& t.points@[j].feature == m.points@[j].feature | tag
        },
{
}

/// Two spheres farther apart than they reach touch nowhere; otherwise they touch in one
/// unnamed point, and those in the same place are pushed apart upwards by their radii.
pub proof fn spheres_touch_in_one_point(gap: &SphereGap, r: Option<Touch>, c: SphereCase)
    requires
        call_ensures(SphereGap::touch, (gap,), r),
        call_ensures(sphere_case, (gap.dist, gap.reach), c),
    ensures
        ({
            let same = gap.dist.lt_spec(Scalar { bits: 0x3089_705f });
            &&& r is None <==> !same && gap.reach.lt_spec(gap.dist)
            &&& c == SphereCase::Coincident <==> same
            &&& c == SphereCase::Apart <==> r is None
            &&& r is Some ==> r.unwrap().points@.len() == 1 && r.unwrap().points@[0].feature == 0
                && r.unwrap().points.space_spec() == 0
            &&& same ==> {
                let t = r.unwrap();
                &&& t.normal.x.bits == 0 && t.normal.y.bits == 0x3f80_0000 && t.normal.z.bits == 0
                &&& t.points@[0].point == gap.centre
                &&& t.points@[0].depth == gap.radii
            }
            &&& r is Some && !same ==> {
                let t = r.unwrap();
                &&& t.normal == gap.normal
                &&& t.points@[0].point == gap.point
                &&& t.points@[0].depth == gap.depth
            }
        }),
{
}

/// Setting limits, a motor, an axis or a rest length changes that of the joint alone.
pub proof fn joints_are_set_up_part_by_part(
    j: Joint,
    x: Scalar,
    y: Scalar,
    v: Vec3,
    limited: Joint,
    driven: Joint,
    turned: Joint,
    rested: Joint,
)
    requires
        call_ensures(Joint::with_limits, (j, x, y), limited),
        call_ensures(Joint::with_motor, (j, x, y), driven),
        call_ensures(Joint::with_axis, (j, v), turned),
        call_ensures(Joint::with_rest, (j, x), rested),
    ensures
        limited.limit_lower == x && limited.limit_upper == y,
        driven.motor_target == x && driven.motor_max_force == y,
        turned.axis_a == v && turned.axis_b == v,
        rested.rest == x,
        limited == (Joint { limit_lower: limited.limit_lower, limit_upper: limited.limit_upper, ..j }),
        driven == (Joint {
            motor_target: driven.motor_target,
            motor_max_force: driven.motor_max_force,
            ..j
        }),
        turned == (Joint { axis_a: turned.axis_a, axis_b: turned.axis_b, ..j }),
        rested == (Joint { rest: rested.rest, ..j }),
{
}

/// A joint acts exactly if one of its ends moves and is awake; the acting ones are listed
/// once each, in order. Clearing leaves none.
pub proof fn acting_joints_are_listed(
    joints: &JointSet,
    bodies: &BodySet,
    r: Vec<usize>,
    k: int,
    acts: bool,
    x: int,
    y: int,
    cleared: &mut JointSet,
    empty: bool,
)
    requires
        0 <= k < joints.joints@.len(),
        call_ensures(JointSet::active_joints, (joints, bodies), r),
        call_ensures(
            joint_active,
            (bodies, joints.joints@[k].a as usize, joints.joints@[k].b as usize),
            acts,
        ),
        call_ensures(JointSet::clear, (cleared,), ()),
        call_ensures(JointSet::is_empty, (joints,), empty),
    ensures
        ({
            let (a, b) = (joints.joints@[k].a as int, joints.joints@[k].b as int);
            acts <==> (bodies.dynamic@[a] && bodies.awake@[a]) || (bodies.dynamic@[b]
                && bodies.awake@[b])
        }),
        acts <==> exists|q: int| 0 <= q < r@.len() && #[trigger] r@[q] == k,
        0 <= x < y < r@.len() ==> r@[x] < r@[y],
        0 <= x < r@.len() ==> r@[x] < joints.joints@.len(),
        final(cleared).joints@.len() == 0,
        !empty,
{
    let p = acting(bodies, joints.joints@);
    let n = joints.joints@.len();
    lemma_indices_where(p, n);
    lemma_indices_where_contains(p, n, k);
    let s = indices_where(p, n);
    assert(s == ints_usize(r@));
    assert(s.len() == r@.len());
    assert forall|q: int| 0 <= q < r@.len() implies #[trigger] r@[q] == s[q] by {
        assert(s[q] == ints_usize(r@)[q]);
    }
    assert(p(k) == acts);
    if s.contains(k) {
        let q = choose|q: int| 0 <= q < s.len() && s[q] == k;
        assert(r@[q] == k);
    }
    if exists|q: int| 0 <= q < r@.len() && #[trigger] r@[q] == k {
        let q = choose|q: int| 0 <= q < r@.len() && #[trigger] r@[q] == k;
        assert(s[q] == k);
        assert(s.contains(k));
    }
    if 0 <= x < r@.len() {
        assert(r@[x] == s[x]);
    }
    if 0 <= x < y < r@.len() {
        assert(r@[x] == s[x]);
        assert(r@[y] == s[y]);
    }
}

/// Taking counters hands them out and starts them over; taking them again gives zeros, and
/// the others are left alone.
pub proof fn counters_are_taken_once(
    a: &mut Counters,
    ra: (u64, u64),
    b: &mut Counters,
    rb: (u64, u64, u64, u64),
    c: &mut Counters,
    rc: (u64, u64),
    d: &mut Counters,
    rd: (u64, u64, u64, u64),
    e: &mut Counters,
    re: (u64, u64, u64),
    f: &mut Counters,
    rf: (u64, u64, u64, u64),
)
    requires
        call_ensures(sleep_diag_deep_take, (a,), ra),
        call_ensures(sleep_diag_take, (b,), rb),
        call_ensures(warm_normal_flip_take, (c,), rc),
        call_ensures(warm_fallback_kind_take, (d,), rd),
        call_ensures(warm_match_stats_take, (e,), re),
        call_ensures(solve_accounting_take, (f,), rf),
    ensures
        ra.0 == old(a).sleep_fast_body && ra.1 == old(a).sleep_body_all,
        final(a).sleep_fast_body == 0 && final(a).sleep_body_all == 0,
        (Counters { sleep_fast_body: ra.0, sleep_body_all: ra.1, ..*final(a) }) == *old(a),
        rb.0 == old(b).sleep_fast && rb.1 == old(b).sleep_wait && rb.2 == old(b).sleep_slept && rb.3
            == old(b).sleep_wait_max_ms,
        final(b).sleep_fast == 0 && final(b).sleep_wait == 0 && final(b).sleep_slept == 0
            && final(b).sleep_wait_max_ms == 0,
        (Counters {
            sleep_fast: rb.0,
            sleep_wait: rb.1,
            sleep_slept: rb.2,
            sleep_wait_max_ms: rb.3,
            ..*final(b)
        }) == *old(b),
        rc.0 == old(c).normal_flip && rc.1 == old(c).normal_same,
        final(c).normal_flip == 0 && final(c).normal_same == 0,
        (Counters { normal_flip: rc.0, normal_same: rc.1, ..*final(c) }) == *old(c),
        rd.0 == old(d).fallback_side && rd.1 == old(d).fallback_clip && rd.2 == old(d).fallback_hash
            && rd.3 == old(d).fallback_same,
        final(d).fallback_side == 0 && final(d).fallback_clip == 0 && final(d).fallback_hash == 0
            && final(d).fallback_same == 0,
        (Counters {
            fallback_side: rd.0,
            fallback_clip: rd.1,
            fallback_hash: rd.2,
            fallback_same: rd.3,
            ..*final(d)
        }) == *old(d),
        re.0 == old(e).warm_exact && re.1 == old(e).warm_fallback && re.2 == old(e).warm_miss,
        final(e).warm_exact == 0 && final(e).warm_fallback == 0 && final(e).warm_miss == 0,
        (Counters { warm_exact: re.0, warm_fallback: re.1, warm_miss: re.2, ..*final(e) }) == *old(e),
        rf.0 == old(f).points && rf.1 == old(f).separated && rf.2 == old(f).closing_milli && rf.3
            == old(f).bias_milli,
        final(f).points == 0 && final(f).separated == 0 && final(f).closing_milli == 0
            && final(f).bias_milli == 0,
        (Counters {
            points: rf.0,
            separated: rf.1,
            closing_milli: rf.2,
            bias_milli: rf.3,
            ..*final(f)
        }) == *old(f),
{
}

/// The points can be rewritten in place; their number and feature space stay.
pub proof fn points_are_rewritten_in_place(c: &mut ContactPoints, r: &mut [ContactPoint], space: u16)
    requires
        call_ensures(ContactPoints::as_mut_slice, (c,), r),
        call_ensures(ContactPoints::space, (&*final(c),), space),
    ensures
        old(r)@ == old(c)@,
        final(r)@.len() == old(r)@.len() ==> final(c)@ == final(r)@,
        space == old(c).space_spec(),
{
}

} // verus!
