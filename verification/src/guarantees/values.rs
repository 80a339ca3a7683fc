//! What comparing values, naming features and routing promise.

use crate::constraint::material_slot;
use crate::contact::{ContactPoint, ContactPoints};
use crate::dispatch::{
    chunk_count, collide_chunks, first_feature, oriented_normal, predict_time, provider_query,
    terrain_query, ClipProbe, ProviderQuery, TerrainQuery,
};
use crate::feature::{feat_intersect, feature_hash_part, feature_kind};
use crate::group::local_slot;
use crate::narrow::DefaultNarrowPhase;
use crate::scalar::{bounds_of, greatest_corner, least_corner, Scalar, Vec3};
use crate::shape::{heightfield_marker_shape, min_half_extent, Shape};
use crate::solver::{group_mode, GroupMode};
use vstd::prelude::*;

verus! {

/// Comparing numbers: those without a sign compare as their patterns, those with one the
/// other way round, any with a sign is below any without unless both are zero, and
/// nothing compares with what is no number.
pub proof fn numbers_compare_by_their_patterns(
    a: Scalar,
    b: Scalar,
    lt: bool,
    le: bool,
    same: bool,
)
    requires
        call_ensures(Scalar::lt, (a, b), lt),
        call_ensures(Scalar::le, (a, b), le),
        call_ensures(Scalar::same, (a, b), same),
    ensures
        a.bits <= 0x7f80_0000 && b.bits <= 0x7f80_0000 ==> (lt <==> a.bits < b.bits) && (le <==> a.bits
            <= b.bits) && (same <==> a.bits == b.bits),
        0x8000_0000 <= a.bits <= 0xff80_0000 && 0x8000_0000 <= b.bits <= 0xff80_0000 ==> (lt
            <==> b.bits < a.bits) && (le <==> b.bits <= a.bits) && (same <==> a.bits == b.bits),
        0x8000_0000 <= a.bits <= 0xff80_0000 && b.bits <= 0x7f80_0000 ==> le && (lt <==> a.bits
            != 0x8000_0000 || b.bits != 0) && (same <==> a.bits == 0x8000_0000 && b.bits == 0),
        a.bits <= 0x7f80_0000 && 0x8000_0000 <= b.bits <= 0xff80_0000 ==> !lt && (le <==> a.bits == 0
            && b.bits == 0x8000_0000) && (same <==> le),
        (0x7f80_0000 < a.bits < 0x8000_0000 || 0xff80_0000 < a.bits) ==> !lt && !le && !same,
        (0x7f80_0000 < b.bits < 0x8000_0000 || 0xff80_0000 < b.bits) ==> !lt && !le && !same,
{
}

/// Every pattern has its own place in the total order, where those with a sign come
/// first, the largest first.
pub proof fn patterns_are_totally_ordered(a: Scalar, b: Scalar, lt: bool, gt: bool)
    requires
        call_ensures(Scalar::total_lt, (a, b), lt),
        call_ensures(Scalar::total_lt, (b, a), gt),
    ensures
        a.bits == b.bits <==> !lt && !gt,
        a.bits < 0x8000_0000 && b.bits < 0x8000_0000 ==> (lt <==> a.bits < b.bits),
        a.bits >= 0x8000_0000 && b.bits >= 0x8000_0000 ==> (lt <==> a.bits > b.bits),
        a.bits >= 0x8000_0000 && b.bits < 0x8000_0000 ==> lt,
{
}

/// Negation flips the sign alone; the tests for zero, for a finite value and for no number
/// look at the rest.
pub proof fn signs_are_flipped_alone(
    a: Scalar,
    n: Scalar,
    zero: bool,
    finite: bool,
    nan: bool,
)
    requires
        call_ensures(Scalar::neg, (a,), n),
        call_ensures(Scalar::is_zero, (a,), zero),
        call_ensures(Scalar::is_finite, (a,), finite),
        call_ensures(Scalar::is_nan, (a,), nan),
    ensures
        n.bits == if a.bits < 0x8000_0000 {
            a.bits + 0x8000_0000
        } else {
            a.bits - 0x8000_0000
        },
        zero <==> a.bits == 0 || a.bits == 0x8000_0000,
        finite <==> a.bits < 0x7f80_0000 || 0x8000_0000 <= a.bits < 0xff80_0000,
        nan <==> 0x7f80_0000 < a.bits < 0x8000_0000 || 0xff80_0000 < a.bits,
{
}

/// The larger and the smaller of two values are one of them and bound both; what is no
/// number gives way to the other.
pub proof fn the_larger_and_the_smaller_bound_both(a: Scalar, b: Scalar, hi: Scalar, lo: Scalar)
    requires
        call_ensures(Scalar::max, (a, b), hi),
        call_ensures(Scalar::min, (a, b), lo),
    ensures
        hi == a || hi == b,
        lo == a || lo == b,
        !a.is_nan_spec() && !b.is_nan_spec() ==> a.le_spec(hi) && b.le_spec(hi) && lo.le_spec(a)
            && lo.le_spec(b),
        a.is_nan_spec() ==> hi == b && lo == b,
        b.is_nan_spec() && !a.is_nan_spec() ==> hi == a && lo == a,
        a.same_spec(b) ==> hi == a && lo == a,
{
}

/// Vectors are compared and negated value by value.
pub proof fn vectors_go_value_by_value(v: Vec3, w: Vec3, hi: Vec3, lo: Vec3, n: Vec3)
    requires
        call_ensures(Vec3::max, (v, w), hi),
        call_ensures(Vec3::min, (v, w), lo),
        call_ensures(Vec3::neg, (v,), n),
    ensures
        hi.x == v.x.max_spec(w.x) && hi.y == v.y.max_spec(w.y) && hi.z == v.z.max_spec(w.z),
        lo.x == v.x.min_spec(w.x) && lo.y == v.y.min_spec(w.y) && lo.z == v.z.min_spec(w.z),
        n.x == v.x.neg_spec() && n.y == v.y.neg_spec() && n.z == v.z.neg_spec(),
{
}

/// Every corner of the least box is taken from a point, or is where it started.
pub proof fn lemma_corner_taken(points: Seq<Vec3>, lo: Vec3, hi: Vec3)
    ensures
        ({
            let a = least_corner(points, lo);
            let b = greatest_corner(points, hi);
            &&& a.x == lo.x || exists|i: int| 0 <= i < points.len() && (#[trigger] points[i]).x == a.x
            &&& a.y == lo.y || exists|i: int| 0 <= i < points.len() && (#[trigger] points[i]).y == a.y
            &&& a.z == lo.z || exists|i: int| 0 <= i < points.len() && (#[trigger] points[i]).z == a.z
            &&& b.x == hi.x || exists|i: int| 0 <= i < points.len() && (#[trigger] points[i]).x == b.x
            &&& b.y == hi.y || exists|i: int| 0 <= i < points.len() && (#[trigger] points[i]).y == b.y
            &&& b.z == hi.z || exists|i: int| 0 <= i < points.len() && (#[trigger] points[i]).z == b.z
        }),
    decreases points.len(),
{
    if points.len() > 0 {
        let rest = points.drop_last();
        lemma_corner_taken(rest, lo, hi);
        assert forall|i: int| 0 <= i < rest.len() implies #[trigger] rest[i] == points[i] by {}
        assert(points[points.len() - 1] == points.last());
        let a = least_corner(rest, lo);
        let b = greatest_corner(rest, hi);
        if a.x != lo.x {
            let i = choose|i: int| 0 <= i < rest.len() && (#[trigger] rest[i]).x == a.x;
            assert(points[i].x == a.x);
        }
        if a.y != lo.y {
            let i = choose|i: int| 0 <= i < rest.len() && (#[trigger] rest[i]).y == a.y;
            assert(points[i].y == a.y);
        }
        if a.z != lo.z {
            let i = choose|i: int| 0 <= i < rest.len() && (#[trigger] rest[i]).z == a.z;
            assert(points[i].z == a.z);
        }
        if b.x != hi.x {
            let i = choose|i: int| 0 <= i < rest.len() && (#[trigger] rest[i]).x == b.x;
            assert(points[i].x == b.x);
        }
        if b.y != hi.y {
            let i = choose|i: int| 0 <= i < rest.len() && (#[trigger] rest[i]).y == b.y;
            assert(points[i].y == b.y);
        }
        if b.z != hi.z {
            let i = choose|i: int| 0 <= i < rest.len() && (#[trigger] rest[i]).z == b.z;
            assert(points[i].z == b.z);
        }
    }
}

/// The box of a cloud of points holds every one of them and is no larger than needed: its
/// corners are made of their coordinates. No points, no box.
pub proof fn boxes_hold_their_points(points: &[Vec3], r: Option<(Vec3, Vec3)>, k: int)
    requires
        call_ensures(bounds_of, (points,), r),
        forall|j: int|
            0 <= j < points@.len() ==> (#[trigger] points@[j]).x.is_finite_spec()
                && points@[j].y.is_finite_spec() && points@[j].z.is_finite_spec(),
        0 <= k < points@.len(),
    ensures
        r is Some,
        ({
            let (lo, hi) = r.unwrap();
            let p = points@[k];
            &&& lo.x.le_spec(p.x) && p.x.le_spec(hi.x)
            &&& lo.y.le_spec(p.y) && p.y.le_spec(hi.y)
            &&& lo.z.le_spec(p.z) && p.z.le_spec(hi.z)
            &&& exists|i: int| 0 <= i < points@.len() && (#[trigger] points@[i]).x == lo.x
            &&& exists|i: int| 0 <= i < points@.len() && (#[trigger] points@[i]).y == lo.y
            &&& exists|i: int| 0 <= i < points@.len() && (#[trigger] points@[i]).z == lo.z
            &&& exists|i: int| 0 <= i < points@.len() && (#[trigger] points@[i]).x == hi.x
            &&& exists|i: int| 0 <= i < points@.len() && (#[trigger] points@[i]).y == hi.y
            &&& exists|i: int| 0 <= i < points@.len() && (#[trigger] points@[i]).z == hi.z
        }),
{
    crate::scalar::bounds_hold_every_point(points@, k);
    let inf = crate::scalar::splat_spec(Scalar { bits: 0x7f80_0000 });
    let neg = crate::scalar::splat_spec(Scalar { bits: 0xff80_0000 });
    lemma_corner_taken(points@, inf, neg);
    assert(points@[k] == points@[k]);
}

/// The smallest half extent of a box is that of its smallest side, of a sphere its radius,
/// of a cylinder the smaller of its two; terrain counts as infinitely large.
pub proof fn extents_are_those_of_the_smallest_side(shape: &Shape, r: Scalar, marker: Shape, id: u32)
    requires
        call_ensures(min_half_extent, (shape,), r),
        call_ensures(heightfield_marker_shape, (id,), marker),
    ensures
        *shape matches Shape::Box { half } ==> (r == half.x || r == half.y || r == half.z) && (
        half.x.is_finite_spec() && half.y.is_finite_spec() && half.z.is_finite_spec() ==> r.le_spec(
            half.x,
        ) && r.le_spec(half.y) && r.le_spec(half.z)),
        *shape matches Shape::Sphere { radius } ==> r == radius,
        *shape matches Shape::Cylinder { half_height, radius } ==> (r == half_height || r == radius)
            && (half_height.is_finite_spec() && radius.is_finite_spec() ==> r.le_spec(half_height)
            && r.le_spec(radius)),
        *shape is HeightField || *shape is Provider ==> r.bits == 0x7f80_0000,
        marker == Shape::HeightField(id),
{
}

/// The name of a cut is marked as one, is never on the second side, and mixes the names of
/// the two ends and the number of the plane.
pub proof fn cuts_are_named_by_their_ends(fa: u32, fb: u32, k: usize, f: u32, kind: (bool, bool), h: u32)
    requires
        call_ensures(feat_intersect, (fa, fb, k), f),
        call_ensures(feature_kind, (f,), kind),
        call_ensures(feature_hash_part, (f,), h),
    ensures
        kind == (false, true),
        h == f & 0x3fff_ffff,
        f == 0x4000_0000 | (((((fa * 73_856_093) % 0x1_0000_0000) as u32) ^ (((fb * 19_349_663)
            % 0x1_0000_0000) as u32) ^ ((((k as u32) * 83_492_791) % 0x1_0000_0000) as u32))
            & 0x3fff_ffff),
{
}

/// The first four points of a list are taken over; renaming one changes its name alone, and
/// the feature space is set alone.
pub proof fn points_are_taken_and_renamed(
    s: &[ContactPoint],
    made: ContactPoints,
    c: &mut ContactPoints,
    i: usize,
    feature: u32,
    d: &mut ContactPoints,
    space: u16,
    j: int,
)
    requires
        call_ensures(ContactPoints::from_slice, (s,), made),
        i < old(c)@.len(),
        call_ensures(ContactPoints::set_feature, (c, i, feature), ()),
        call_ensures(ContactPoints::set_space, (d, space), ()),
        0 <= j,
    ensures
        made@.len() == if s@.len() < 4 {
            s@.len() as int
        } else {
            4
        },
        j < made@.len() ==> made@[j] == s@[j],
        made.space_spec() == 0,
        final(c)@.len() == old(c)@.len(),
        j < old(c)@.len() ==> final(c)@[j].point == old(c)@[j].point && final(c)@[j].depth == old(c)@[j].depth && final(c)@[j].feature == if j == i {
            feature
        } else {
            old(c)@[j].feature
        },
        final(c).space_spec() == old(c).space_spec(),
        final(d)@ == old(d)@,
        final(d).space_spec() == space,
{
}

/// What is asked about a shape: a provider is asked for the shape itself, the points of a
/// hull or the spheres of a capsule; a height field likewise, for the vertices of what has
/// flat faces.
pub proof fn queries_follow_the_shape(
    shape: &Shape,
    p: ProviderQuery,
    t: TerrainQuery,
    f: u32,
)
    requires
        call_ensures(provider_query, (shape,), p),
        call_ensures(terrain_query, (shape,), t),
        call_ensures(first_feature, (&t,), f),
    ensures
        *shape matches Shape::Box { half } ==> p == (ProviderQuery::Box { half })
            && t == TerrainQuery::PolyVertices,
        *shape matches Shape::Sphere { radius } ==> p == (ProviderQuery::Sphere { radius }) && t == (
        TerrainQuery::Sphere { radius }),
        *shape matches Shape::ConvexHull { hull, half } ==> p == (ProviderQuery::HullPoints { hull })
            && t == (TerrainQuery::HullPoints { hull }),
        *shape matches Shape::Capsule { half_height, radius } ==> p == (
        ProviderQuery::CapsuleSpheres { half_height, radius }) && t == (
        TerrainQuery::CapsuleSpheres { half_height, radius }),
        *shape is Cylinder || *shape is Cone ==> p == ProviderQuery::Unsupported && t
            == TerrainQuery::PolyVertices,
        *shape is HeightField || *shape is Provider || *shape is Compound ==> p
            == ProviderQuery::Unsupported && t == TerrainQuery::Unsupported,
        f == if *shape is ConvexHull || *shape is Capsule {
            1u32
        } else {
            0u32
        },
{
}

/// The solid that stands for a shape has its measures; terrain and compounds have none, nor
/// has a hull that is not stored.
pub proof fn solids_follow_the_shape(
    shape: &Shape,
    hulls: &crate::store::HullStore,
    r: Option<crate::dispatch::SolidKind>,
)
    requires
        call_ensures(crate::dispatch::solid_of, (shape, hulls), r),
    ensures
        r is None <==> *shape is Compound || *shape is HeightField || *shape is Provider || (
        *shape is ConvexHull && shape->hull >= hulls.hulls@.len()),
        *shape matches Shape::Box { half } ==> r == Some(crate::dispatch::SolidKind::Box { half }),
        *shape matches Shape::Sphere { radius } ==> r == Some(
            crate::dispatch::SolidKind::Sphere { radius },
        ),
        *shape matches Shape::Capsule { half_height, radius } ==> r == Some(
            crate::dispatch::SolidKind::Capsule { half_height, radius },
        ),
        *shape matches Shape::Cylinder { half_height, radius } ==> r == Some(
            crate::dispatch::SolidKind::Prism { half_height, radius, cone: false },
        ),
        *shape matches Shape::Cone { half_height, radius } ==> r == Some(
            crate::dispatch::SolidKind::Prism { half_height, radius, cone: true },
        ),
        *shape matches Shape::ConvexHull { hull, half } ==> r is Some ==> r == Some(
            crate::dispatch::SolidKind::Hull { hull },
        ),
{
}

/// Pairs go to threads in runs without gap or overlap, of one length but for the last; one
/// run unless there are several threads and two thousand pairs, never more runs than
/// threads, and none for fewer than that many pairs on average.
pub proof fn chunks_share_the_pairs(threads: usize, pairs: usize, r: Vec<(usize, usize)>, k: int)
    requires
        call_ensures(collide_chunks, (threads, pairs), r),
        0 <= k < r@.len(),
    ensures
        r@.len() >= 1,
        threads <= 1 || pairs < 2048 ==> r@.len() == 1,
        threads > 1 && pairs >= 2048 ==> r@.len() <= threads && (r@.len() == threads || (r@.len() - 1)
            * 2048 < pairs <= r@.len() * 2048) && (r@.len() - 1) * 2048 < pairs,
        r@[0].0 == 0,
        r@[r@.len() - 1].1 == pairs,
        k + 1 < r@.len() ==> r@[k].1 == r@[k + 1].0,
        r@[k].0 <= r@[k].1 || k == r@.len() - 1,
{
    assert(r@[k].0 <= r@[k].1 || k == r@.len() - 1);
    let n = chunk_count(threads as int, pairs as int);
    if threads > 1 && pairs >= 2048 {
        let most = (pairs + 2048 - 1) / 2048;
        assert((most - 1) * 2048 < pairs <= most * 2048);
    }
}

/// The counters of cutting add up, and the largest ring is kept.
pub proof fn probes_add_up(
    p: &mut ClipProbe,
    vertices: u64,
    crossings: u64,
    q: &mut ClipProbe,
    candidates: u64,
    stats: (u64, u64, u64, u64, u64),
)
    requires
        call_ensures(ClipProbe::count_plane, (p, vertices, crossings), ()),
        call_ensures(ClipProbe::count_call, (q, candidates), ()),
        call_ensures(ClipProbe::probe_stats, (&*final(q),), stats),
    ensures
        final(p).iters == (old(p).iters + vertices) % 0x1_0000_0000_0000_0000,
        final(p).crossings == (old(p).crossings + crossings) % 0x1_0000_0000_0000_0000,
        final(p).largest >= vertices && final(p).largest >= old(p).largest,
        final(p).largest == vertices || final(p).largest == old(p).largest,
        final(p).calls == old(p).calls && final(p).candidates == old(p).candidates,
        final(q).calls == (old(q).calls + 1) % 0x1_0000_0000_0000_0000,
        final(q).candidates == (old(q).candidates + candidates) % 0x1_0000_0000_0000_0000,
        final(q).iters == old(q).iters && final(q).crossings == old(q).crossings,
        stats == (final(q).calls, final(q).iters, final(q).crossings, final(q).candidates, final(q).largest),
{
}

/// Looking ahead is on exactly for a positive time; only then is the reach extended, and
/// then no axis is given up for being far apart.
pub proof fn looking_ahead_takes_a_positive_time(
    np: &mut DefaultNarrowPhase,
    dt: Scalar,
    t: Scalar,
    travel: Scalar,
    more: Scalar,
    limit: Scalar,
)
    requires
        call_ensures(DefaultNarrowPhase::set_predict_dt, (np, dt), ()),
        call_ensures(predict_time, (dt,), t),
        call_ensures(DefaultNarrowPhase::predict_inflate, (&*final(np), travel), more),
        call_ensures(DefaultNarrowPhase::sat_limit, (&*final(np),), limit),
    ensures
        0 < dt.bits <= 0x7f80_0000 ==> final(np).predict_dt == dt && t == dt && more == travel
            && limit.bits == 0x7f80_0000,
        !(0 < dt.bits <= 0x7f80_0000) ==> final(np).predict_dt.bits == 0 && t.bits == 0 && more.bits
            == 0 && limit == old(np).skin,
        final(np).skin == old(np).skin,
        final(np).min_point_sep == old(np).min_point_sep,
        final(np).hulls == old(np).hulls,
        final(np).compounds == old(np).compounds,
{
}

/// A new narrow phase is empty and keeps contacts twice the skin apart, but at least a
/// hundredth.
pub proof fn narrow_phases_start_empty(skin: Scalar, twice: Scalar, r: DefaultNarrowPhase)
    requires
        call_ensures(DefaultNarrowPhase::new, (skin, twice), r),
        !twice.is_nan_spec(),
    ensures
        r.skin == skin,
        r.predict_dt.bits == 0,
        r.hulls.hulls@.len() == 0 && r.compounds.items@.len() == 0 && r.polys.polys@.len() == 0,
        twice.le_spec(r.min_point_sep) && (Scalar { bits: 0x3c23_d70a }).le_spec(r.min_point_sep),
        r.min_point_sep == twice || r.min_point_sep.bits == 0x3c23_d70a,
{
}

/// The normal of a surface points away from it if it is the first body's, against it
/// otherwise; a body has the material that its entry names if both exist; a body has a
/// place unless it is marked as having none; groups work in parallel if there are several,
/// one after the other if there are islands, and not at all otherwise.
pub proof fn small_choices_follow_their_inputs(
    n: Vec3,
    first: bool,
    out: Vec3,
    entries: &[u32],
    materials: usize,
    body: usize,
    slot: Option<usize>,
    local_of: &[u32],
    i: usize,
    at: Option<usize>,
    groups: usize,
    islands: usize,
    mode: GroupMode,
)
    requires
        call_ensures(oriented_normal, (n, first), out),
        call_ensures(material_slot, (entries, materials, body), slot),
        call_ensures(local_slot, (local_of, i), at),
        call_ensures(group_mode, (groups, islands), mode),
    ensures
        first ==> out == n,
        !first ==> out == n.neg_spec(),
        slot is Some <==> body < entries@.len() && entries@[body as int] < materials,
        slot is Some ==> slot.unwrap() == entries@[body as int],
        at is None <==> local_of@[i as int] == 0xffff_ffff,
        at is Some ==> at.unwrap() == local_of@[i as int],
        mode == GroupMode::Parallel <==> groups > 1,
        mode == GroupMode::Serial <==> groups <= 1 && islands > 0,
        mode == GroupMode::Idle <==> groups <= 1 && islands == 0,
{
}

} // verus!
