//! Orders, islands, caches, schedules and rules on plain values.

use vxl_phys::body::BodySet;
use vxl_phys::constraint::{
    collect_warm, count_point, match_warm_point, material_slot, resolve_anchor, softness,
    tangential_drift, AnchorGeom, ContactConstraint, PointConstraint, PointTerms, Recycled,
    WarmCandidate, WarmMatch,
};
use vxl_phys::contact::{
    assemble, tag_child_features, ContactPoint, ContactPoints, Manifold, Touch,
};
use vxl_phys::cut::{clip_halfspace, straddling_pairs};
use vxl_phys::dispatch::{
    collide_chunks, oriented_normal, predict_time, provider_query, route, sphere_case,
    terrain_query, ClipProbe, ProviderQuery, Route, SphereCase, SphereGap, TerrainQuery,
};
use vxl_phys::epa::{
    axis_sat, expand, initial_faces, way_out, AxisOverlap, AxisWay, EpaArith, Tri, WayOut,
};
use vxl_phys::feature::{feat_intersect, feature_hash_part, feature_kind, FEAT_CLIPPED, FEAT_SIDE_B};
use vxl_phys::fracture::{seed_side, seeds_jittered};
use vxl_phys::gjk::{
    closest_simplex, gjk_step, Between, EdgeTest, GjkStep, PlanePoint, SimplexArith, SimplexVertex,
};
use vxl_phys::group::{gather_groups, group_count, local_slot, scatter_groups, split_groups};
use vxl_phys::island::{build_union_find, fill_island_buckets};
use vxl_phys::narrow::axis_reach;
use vxl_phys::order::{stable_order, SortKey};
use vxl_phys::prepare::{cached_start, Agreement};
use vxl_phys::reduce::{
    band_contacts, deepest_vertices, four_corner_points, hull_contacts, pick_dominant_normal,
    select_contacts, SurfaceContact,
};
use vxl_phys::scalar::{bounds_of, Quat, Scalar, Vec3};
use vxl_phys::schedule::{
    needs_ccd, step_count, visit, IterationConfig, PhaseParams, Sweep, SweepPlan,
};
use vxl_phys::select::{find_first_least, keep_distinct};
use vxl_phys::shape::{heightfield_marker_shape, min_half_extent, Shape};
use vxl_phys::sleep::{sleep_pass, Heat, Motion, SleepConfig};
use vxl_phys::solver::{group_mode, GroupMode, ImpulseSolver, PhaseTimes};
use vxl_phys::stats::{
    sleep_diag_deep_take, sleep_diag_take, solve_accounting_take, warm_fallback_kind_take,
    warm_match_stats_take, warm_normal_flip_take, Counters,
};
use vxl_phys::union_find::{find_small_root, union_small_root};
use vxl_phys::warm::{WarmKey, WarmManifold, WarmOutEntry, WarmPoint, WarmTable, NONE};

fn bits(v: f32) -> Scalar {
    Scalar { bits: v.to_bits() }
}

fn num(s: Scalar) -> f32 {
    f32::from_bits(s.bits)
}

fn all(v: &[f32]) -> Vec<Scalar> {
    v.iter().map(|x| bits(*x)).collect()
}

fn vec3(x: f32, y: f32, z: f32) -> Vec3 {
    Vec3 { x: bits(x), y: bits(y), z: bits(z) }
}

fn upright() -> Quat {
    Quat { x: bits(0.0), y: bits(0.0), z: bits(0.0), w: bits(1.0) }
}

// ---- scalars

const SAMPLES: [f32; 11] = [
    f32::NEG_INFINITY,
    -3.5,
    -1e-40,
    -0.0,
    0.0,
    1e-40,
    0.25,
    1.0,
    3.5,
    f32::MAX,
    f32::INFINITY,
];

#[test]
fn scalars_compare_like_numbers() {
    for a in SAMPLES {
        for b in SAMPLES {
            assert_eq!(bits(a).lt(bits(b)), a < b, "{a} {b}");
            assert_eq!(bits(a).le(bits(b)), a <= b, "{a} {b}");
            assert_eq!(bits(a).same(bits(b)), a == b, "{a} {b}");
            assert_eq!(bits(a).total_lt(bits(b)), a.total_cmp(&b).is_lt(), "{a} {b}");
            if a != b {
                assert_eq!(num(bits(a).max(bits(b))), a.max(b), "{a} {b}");
                assert_eq!(num(bits(a).min(bits(b))), a.min(b), "{a} {b}");
            }
        }
        assert_eq!(num(bits(a).neg()).to_bits(), (-a).to_bits());
        assert_eq!(bits(a).is_finite(), a.is_finite());
        assert_eq!(bits(a).is_zero(), a == 0.0);
    }
}

#[test]
fn nothing_compares_with_nan() {
    let nan = bits(f32::NAN);
    assert!(nan.is_nan() && !nan.is_finite());
    for a in SAMPLES {
        let a = bits(a);
        assert!(!a.lt(nan) && !nan.lt(a) && !a.le(nan) && !nan.le(a) && !nan.same(a));
        assert_eq!((a.max(nan), nan.max(a), a.min(nan), nan.min(a)), (a, a, a, a));
    }
    assert!(!nan.same(nan));
}

#[test]
fn bounds_of_points() {
    assert!(bounds_of(&[]).is_none());
    let (lo, hi) =
        bounds_of(&[vec3(1.0, -2.0, 3.0), vec3(-1.0, 2.0, 3.5), vec3(0.0, 0.0, 0.0)]).unwrap();
    assert_eq!((lo, hi), (vec3(-1.0, -2.0, 0.0), vec3(1.0, 2.0, 3.5)));
}

#[test]
fn least_and_distinct_values() {
    let inf = bits(f32::INFINITY);
    let d = all(&[3.0, 1.0, 1.0, 0.5]);
    assert_eq!(find_first_least(&d, &[true, true, true, false], inf), Some(1));
    assert_eq!(find_first_least(&d, &[true, true, true, true], bits(0.5)), None);
    assert_eq!(find_first_least(&[], &[], inf), None);
    let near = |a: Vec3, b: Vec3| (num(a.x) - num(b.x)).abs() < 0.5;
    let kept = keep_distinct(
        &[vec3(0.0, 0.0, 0.0), vec3(0.3, 0.0, 0.0), vec3(0.6, 0.0, 0.0), vec3(1.0, 0.0, 0.0)],
        &[true, true, true, true],
        near,
    );
    assert_eq!(kept, vec![vec3(0.0, 0.0, 0.0), vec3(0.6, 0.0, 0.0)]);
}

#[test]
fn sorting_keeps_equal_keys_in_order() {
    let key = |a: i64, b: i64| SortKey { a, b, c: 0, d: 0 };
    let order = stable_order(&[key(2, 0), key(1, 5), key(2, 0), key(1, -5), key(0, 9)]);
    assert_eq!(order, vec![4, 3, 1, 0, 2]);
    assert!(stable_order(&[]).is_empty());
}

// ---- features and contacts

#[test]
fn features_name_their_origin() {
    let f = feat_intersect(3, 5, 2);
    let h = 3u32.wrapping_mul(73_856_093)
        ^ 5u32.wrapping_mul(19_349_663)
        ^ 2u32.wrapping_mul(83_492_791);
    assert_eq!(f, FEAT_CLIPPED | (h & 0x3fff_ffff));
    assert_eq!(feature_kind(f), (false, true));
    assert_eq!(feature_kind(f | FEAT_SIDE_B), (true, true));
    assert_eq!(feature_kind(7), (false, false));
    assert_eq!(feature_hash_part(f), h & 0x3fff_ffff);
    assert_ne!(feat_intersect(3, 5, 2), feat_intersect(5, 3, 2));
}

fn contact(x: f32, depth: f32, feature: u32) -> ContactPoint {
    ContactPoint { point: vec3(x, 0.0, 0.0), depth: bits(depth), feature }
}

#[test]
fn contact_lists_hold_four() {
    let five: Vec<ContactPoint> = (0..5).map(|k| contact(k as f32, 0.0, k)).collect();
    let mut c = ContactPoints::from_slice(&five);
    assert_eq!(c.len(), 4);
    assert_eq!(c.get(3), five[3]);
    c.set_feature(1, 77);
    c.as_mut_slice()[0].feature = 99;
    assert_eq!((c.get(0).feature, c.get(1).feature, c.get(2).feature), (99, 77, 2));
    assert_eq!(c.space(), 0);
    c.set_space(9);
    assert_eq!(c.space(), 9);
    assert_eq!(ContactPoints::empty().len(), 0);
}

fn manifold(a: u32, b: u32) -> Manifold {
    let points = ContactPoints::from_slice(&[contact(0.0, 0.1, 5)]);
    Manifold { a, b, normal: vec3(0.0, 1.0, 0.0), points }
}

#[test]
fn children_tag_their_contacts() {
    let mut ms = vec![manifold(0, 1), manifold(0, 1)];
    tag_child_features(&mut ms, 1, 2);
    assert_eq!((ms[0].points.get(0).feature, ms[0].points.space()), (5, 0));
    assert_eq!((ms[1].points.get(0).feature, ms[1].points.space()), (5 ^ (3 << 16), 3));
}

#[test]
fn four_contacts_are_kept_by_depth() {
    let near = |a: ContactPoint, b: ContactPoint| (num(a.point.x) - num(b.point.x)).abs() < 0.5;
    let mut c = vec![
        contact(0.0, 0.1, 1),
        contact(1.0, 0.5, 2),
        contact(1.2, 0.4, 3),
        contact(2.0, 0.3, 4),
        contact(3.0, 0.3, 5),
        contact(4.0, 0.2, 6),
    ];
    assert!(select_contacts(&mut c, near));
    let f: Vec<u32> = c.iter().map(|p| p.feature).collect();
    assert_eq!(f, vec![2, 4, 5, 6]);
    let mut none: Vec<ContactPoint> = Vec::new();
    assert!(!select_contacts(&mut none, near));
}

#[test]
fn deep_vertices_come_first() {
    assert_eq!(
        deepest_vertices(&all(&[0.1, 0.5, -1.0, 0.5, 0.2, 0.3, -0.005]), bits(-0.01)),
        vec![1, 3, 5, 4]
    );
    assert!(deepest_vertices(&all(&[-1.0]), bits(-0.01)).is_empty());
}

#[test]
fn bands_of_contacts() {
    let pts = [vec3(0.0, 0.0, 0.0), vec3(1.0, 0.0, 0.0), vec3(2.0, 0.0, 0.0)];
    let c = band_contacts(&pts, &all(&[0.5, -0.5, -0.01]), bits(-0.1), 1);
    let f: Vec<(u32, f32)> = c.iter().map(|p| (p.feature, num(p.depth))).collect();
    assert_eq!(f, vec![(1, 0.5), (3, -0.01)]);
}

fn surface(key: (i32, i32, i32), at: (f32, f32), depth: f32, feature: u32) -> SurfaceContact {
    SurfaceContact {
        point: vec3(at.0, 0.0, at.1),
        normal: vec3(key.0 as f32 / 10.0, key.1 as f32 / 10.0, key.2 as f32 / 10.0),
        depth: bits(depth),
        feature,
        key,
        closing: bits(0.0),
    }
}

#[test]
fn faces_compete_for_the_normal() {
    let up = (0, 10, 0);
    let side = (10, 0, 0);
    let buf = [
        surface(up, (0.0, 0.0), 0.1, 1),
        surface(side, (0.0, 0.0), 0.2, 2),
        surface(up, (1.0, 0.0), 0.1, 3),
        surface(up, (1.0, 1.0), 0.1, 4),
    ];
    assert!(pick_dominant_normal(&[], false).is_none());
    let only = pick_dominant_normal(&buf[1..2], false).unwrap();
    assert_eq!(only.0, side);
    let picked = pick_dominant_normal(&buf, true).unwrap();
    assert_eq!((picked.0, picked.1), (up, vec3(0.0, 1.0, 0.0)));
    let mut centred = buf;
    centred[1].feature = 32;
    assert_eq!(pick_dominant_normal(&centred, true).unwrap().0, side);
    centred[3].closing = bits(0.5);
    assert_eq!(pick_dominant_normal(&centred, true).unwrap().0, up);
    let c = four_corner_points(&buf, up);
    assert_eq!(c.len(), 3);
}

// ---- islands

#[test]
fn small_roots_win() {
    let mut p: Vec<u32> = (0..5).collect();
    union_small_root(&mut p, 4, 2);
    union_small_root(&mut p, 3, 4);
    assert_eq!(find_small_root(&mut p, 3), 2);
    assert_eq!(find_small_root(&mut p, 4), 2);
    assert_eq!(find_small_root(&mut p, 1), 1);
    union_small_root(&mut p, 3, 0);
    assert_eq!(find_small_root(&mut p, 4), 0);
}

#[test]
fn finding_halves_the_path() {
    let mut parent = vec![0u32, 0, 1, 2];
    assert_eq!(find_small_root(&mut parent, 3), 0);
    assert_eq!(parent, vec![0, 0, 1, 1]);
    let mut longer = vec![0u32, 0, 1, 2, 3];
    assert_eq!(find_small_root(&mut longer, 4), 0);
    assert_eq!(longer, vec![0, 0, 0, 2, 2]);
}

#[test]
fn order_of_unions_is_free() {
    let pairs = [(5u32, 2u32), (7, 5), (1, 3), (2, 6), (6, 7)];
    let roots = |list: &[(u32, u32)]| {
        let mut p: Vec<u32> = (0..8).collect();
        for (x, y) in list {
            union_small_root(&mut p, *x, *y);
        }
        assert!(p.iter().enumerate().all(|(i, q)| *q as usize <= i));
        (0..8).map(|i| find_small_root(&mut p, i)).collect::<Vec<u32>>()
    };
    let all = roots(&pairs);
    assert_eq!(all, vec![0, 1, 2, 1, 4, 2, 2, 2]);
    let mut turned: Vec<(u32, u32)> = pairs.iter().map(|(x, y)| (*y, *x)).collect();
    assert_eq!(roots(&turned), all);
    turned.reverse();
    turned.push(turned[0]);
    assert_eq!(roots(&turned), all);
}

/// Bodies 0 to 3 move, body 4 is still.
fn bodies() -> BodySet {
    let mut b = BodySet::new();
    for i in 0..5 {
        b.push(i != 4, vec3(i as f32, 0.0, 0.0), upright());
    }
    b
}

#[test]
fn still_bodies_join_no_islands() {
    let b = bodies();
    let ms = [manifold(0, 4), manifold(4, 1), manifold(2, 1), manifold(4, 4)];
    let mut parent = build_union_find(&b, &ms);
    assert_eq!(find_small_root(&mut parent, 2), 1);
    assert_eq!(find_small_root(&mut parent, 0), 0);
    let islands = fill_island_buckets(&b, &ms, &mut parent);
    let bodies: Vec<Vec<u32>> = islands.iter().map(|i| i.bodies.clone()).collect();
    assert_eq!(bodies, vec![vec![0], vec![1, 2], vec![3]]);
    let manifs: Vec<Vec<usize>> = islands.iter().map(|i| i.manifs.clone()).collect();
    assert_eq!(manifs, vec![vec![0], vec![1, 2], vec![]]);
}

#[test]
fn sleeping_islands_are_left_out() {
    let mut b = bodies();
    b.awake = vec![false, false, true, false, false];
    let ms = [manifold(0, 3), manifold(1, 2)];
    let mut parent = build_union_find(&b, &ms);
    let islands = fill_island_buckets(&b, &ms, &mut parent);
    assert_eq!(islands.len(), 1);
    assert!(islands[0].bodies.contains(&2));
    assert_eq!(islands[0].manifs, vec![1]);
}

#[test]
fn groups_share_the_islands() {
    let b = bodies();
    let ms = [manifold(0, 4), manifold(1, 4), manifold(2, 4), manifold(2, 4)];
    let mut parent = build_union_find(&b, &ms);
    let islands = fill_island_buckets(&b, &ms, &mut parent);
    let g = split_groups(&islands, 3);
    assert_eq!(g.ranges, vec![(0, 1), (1, 2), (2, 4)]);
    assert_eq!(g.manifolds, vec![1, 1, 2]);
    assert_eq!(group_count(1, 9999, 9), 1);
    assert_eq!(group_count(4, 4095, 9), 1);
    assert_eq!(group_count(4, 4096, 9), 4);
    assert_eq!(group_count(4, 4096, 3), 3);
    assert_eq!(group_count(4, 4096, 0), 1);
    assert_eq!(group_mode(2, 5), GroupMode::Parallel);
    assert_eq!(group_mode(1, 5), GroupMode::Serial);
    assert_eq!(group_mode(1, 0), GroupMode::Idle);
}

#[test]
fn groups_give_back_what_they_took() {
    let mut b = bodies();
    for i in 0..5 {
        b.linvel[i] = vec3(i as f32, 0.0, 0.0);
        b.angvel[i] = vec3(0.0, i as f32, 0.0);
    }
    let ms = [manifold(0, 1)];
    let mut parent = build_union_find(&b, &ms);
    let islands = fill_island_buckets(&b, &ms, &mut parent);
    let (g, mut bufs) = gather_groups(&b, &islands, 2, false);
    assert_eq!(local_slot(&bufs.local_of, 4), None);
    assert_eq!(bufs.lv[0], vec![vec3(0.0, 0.0, 0.0), vec3(1.0, 0.0, 0.0)]);
    bufs.lv[1][0] = vec3(9.0, 9.0, 9.0);
    scatter_groups(&mut b, &islands, &g, &bufs);
    assert_eq!(b.linvel[2], vec3(9.0, 9.0, 9.0));
    assert_eq!(b.linvel[1], vec3(1.0, 0.0, 0.0));
    assert_eq!(b.linvel[4], vec3(4.0, 0.0, 0.0));
    assert_eq!(b.angvel[3], vec3(0.0, 3.0, 0.0));
}

// ---- the cache

fn entry(slot: u32, a: u32, b: u32, pn: f32) -> WarmOutEntry {
    let mut value = WarmManifold::empty();
    value.n = 1;
    value.points[0] = WarmPoint { pn: bits(pn), feature: 3, ..WarmPoint::empty() };
    WarmOutEntry { slot, key: WarmKey { a, b, space: 0 }, value }
}

fn kept(t: &WarmTable, a: u32, b: u32) -> Option<f32> {
    let s = t.lookup(WarmKey { a, b, space: 0 });
    if s == NONE {
        None
    } else {
        Some(num(t.slots[s as usize].value.points[0].pn))
    }
}

#[test]
fn cache_keeps_what_was_committed() {
    let awake = vec![true, true, true];
    let mut t = WarmTable::new();
    t.commit_warm_slots(&vec![vec![entry(NONE, 0, 1, 1.0)], vec![entry(NONE, 1, 2, 2.0)]], true, &awake);
    assert_eq!((kept(&t, 0, 1), kept(&t, 1, 2), kept(&t, 1, 0)), (Some(1.0), Some(2.0), None));
    let s = t.lookup(WarmKey { a: 0, b: 1, space: 0 });
    t.commit_warm_slots(&vec![vec![entry(s, 0, 1, 5.0)]], true, &awake);
    assert_eq!((kept(&t, 0, 1), kept(&t, 1, 2)), (Some(5.0), None));
    t.commit_warm_slots(&vec![vec![entry(NONE, 0, 2, 7.0), entry(s, 0, 1, 6.0)]], true, &awake);
    assert_eq!((kept(&t, 0, 1), kept(&t, 0, 2)), (Some(6.0), Some(7.0)));
    assert_eq!(t.slots.len(), 2);
}

#[test]
fn sleeping_pairs_stay_cached() {
    let mut t = WarmTable::new();
    t.commit_warm_slots(&vec![vec![entry(NONE, 0, 1, 1.0)]], true, &vec![true, true, true]);
    t.commit_warm_slots(&vec![vec![]], true, &vec![true, false, true]);
    assert_eq!(kept(&t, 0, 1), Some(1.0));
    t.commit_warm_slots(&vec![vec![]], true, &vec![true, true, true]);
    assert_eq!(kept(&t, 0, 1), None);
    t.commit_warm_slots(&vec![vec![entry(NONE, 0, 1, 1.0)]], true, &vec![true, true, true]);
    assert_eq!(kept(&t, 0, 1), Some(1.0));
    t.commit_warm_slots(&vec![], false, &vec![true, false, true]);
    assert_eq!(kept(&t, 0, 1), None);
    assert!(t.slots.is_empty());
}

#[test]
fn keys_are_packed_by_their_parts() {
    let k = WarmKey { a: 1, b: 2, space: 3 };
    assert_eq!(k.packed(), (1u128 << 64) | (2u128 << 32) | 3);
    assert_ne!(k.packed(), WarmKey { a: 2, b: 1, space: 3 }.packed());
    assert_eq!(WarmKey::dead().a, NONE);
}

fn candidate(feature: u32, near: bool, acceptable: bool, d: f32) -> WarmCandidate {
    WarmCandidate { feature, near, acceptable, dist2: bits(d) }
}

#[test]
fn contacts_find_their_past() {
    let mut c = Counters::new();
    let cands = [
        candidate(4, true, true, 0.3),
        candidate(7, false, true, 0.2),
        candidate(7, true, true, 0.4),
        candidate(9, true, true, 0.2),
    ];
    assert_eq!(match_warm_point(7, &cands, true, true, &mut c), WarmMatch::Exact(2));
    assert_eq!(match_warm_point(8, &cands, true, true, &mut c), WarmMatch::Fallback(1));
    assert_eq!(match_warm_point(0, &cands[..1], true, true, &mut c), WarmMatch::Fallback(0));
    let far = [candidate(4, false, false, 9.0)];
    assert_eq!(match_warm_point(4, &far, true, true, &mut c), WarmMatch::Miss);
    assert_eq!(match_warm_point(4, &cands, false, true, &mut c), WarmMatch::Unaligned);
    assert_eq!(warm_match_stats_take(&mut c), (1, 2, 1));
    assert_eq!(warm_match_stats_take(&mut c), (0, 0, 0));
}

#[test]
fn contacts_start_from_their_own_cache() {
    let mut t = WarmTable::new();
    t.commit_warm_slots(
        &vec![vec![entry(NONE, 0, 1, 1.5), entry(NONE, 0, 2, 9.0)]],
        true,
        &vec![true, true, true],
    );
    let mut c = Counters::new();
    let same = Agreement { aligned: true, kept: true };
    let probe = |_: usize, _: ContactPoint, w: WarmPoint| candidate(w.feature, true, true, 0.1);
    let key = |a: u32, b: u32| WarmKey { a, b, space: 0 };
    let cp = contact(1.0, 0.25, 3);
    let w = cached_start(0, &cp, &t, key(0, 1), same, &probe, &mut c).unwrap();
    assert_eq!((num(w.pn), w.feature), (1.5, 3));
    let w = cached_start(0, &cp, &t, key(0, 2), same, &probe, &mut c).unwrap();
    assert_eq!(num(w.pn), 9.0);
    assert!(cached_start(0, &cp, &t, key(1, 2), same, &probe, &mut c).is_none());
    let turned = Agreement { aligned: false, kept: false };
    assert!(cached_start(0, &cp, &t, key(0, 1), turned, &probe, &mut c).is_none());
    let other = contact(1.0, 0.25, 8);
    assert!(cached_start(0, &other, &t, key(0, 1), same, &probe, &mut c).is_some());
    assert_eq!(warm_match_stats_take(&mut c), (2, 1, 0));
}

#[test]
fn counts_of_threads_add_up() {
    let mut c = Counters::new();
    let mut d = Counters::new();
    c.warm_exact = 3;
    c.sleep_wait_max_ms = 7;
    c.points = u64::MAX;
    d.warm_exact = 4;
    d.sleep_wait_max_ms = 5;
    d.points = 2;
    c.merge(&d);
    assert_eq!((c.warm_exact, c.sleep_wait_max_ms, c.points, c.warm_miss), (7, 7, 1, 0));
}

#[test]
fn anchors_hold_while_they_are_near() {
    let cp = contact(1.0, 0.25, 1);
    let w = WarmPoint { depth0: bits(0.5), la: vec3(1.0, 1.0, 1.0), ..WarmPoint::empty() };
    let baked = (vec3(2.0, 0.0, 0.0), vec3(3.0, 0.0, 0.0));
    let r = Recycled {
        within: true,
        midpoint: vec3(9.0, 0.0, 0.0),
        depth: bits(0.75),
        separation: vec3(0.0, 0.1, 0.0),
    };
    let g = resolve_anchor(&cp, Some((w, r)), baked);
    assert_eq!((g.pt_world, g.depth, g.depth0, g.la), (r.midpoint, r.depth, w.depth0, w.la));
    let fresh = AnchorGeom {
        pt_world: cp.point,
        depth: cp.depth,
        depth0: cp.depth,
        la: baked.0,
        lb: baked.1,
        drift: Vec3::zero(),
    };
    assert_eq!(resolve_anchor(&cp, Some((w, Recycled { within: false, ..r })), baked), fresh);
    assert_eq!(resolve_anchor(&cp, None, baked), fresh);
}

#[test]
fn small_rules_of_contacts() {
    let (hard, still, moving) = (bits(1.0), bits(0.5), bits(0.25));
    assert_eq!(softness(bits(0.0), true, hard, still, moving), hard);
    assert_eq!(softness(bits(-0.1), true, hard, still, moving), still);
    assert_eq!(softness(bits(-0.1), false, hard, still, moving), moving);
    let pull = (bits(1.0), bits(2.0));
    let none = (bits(0.0), bits(0.0));
    assert_eq!(tangential_drift(Some(false), true, pull), pull);
    assert_eq!(tangential_drift(Some(true), true, pull), none);
    assert_eq!(tangential_drift(Some(false), false, pull), none);
    assert_eq!(tangential_drift(None, true, pull), none);
    assert_eq!(material_slot(&[2, 9], 3, 0), Some(2));
    assert_eq!(material_slot(&[2, 9], 3, 1), None);
    assert_eq!(material_slot(&[2, 9], 3, 2), None);
}

fn constraint(slot: u32, pns: &[f32]) -> ContactConstraint {
    let zero = bits(0.0);
    let terms = PointTerms {
        ra: Vec3::zero(),
        rb: Vec3::zero(),
        t1: Vec3::zero(),
        t2: Vec3::zero(),
        nmass: zero,
        tmass1: zero,
        tmass2: zero,
        tcross: zero,
        trhs1: zero,
        trhs2: zero,
        rhs: zero,
        cfm: zero,
        friction: zero,
        anchor: resolve_anchor(&contact(0.0, 0.0, 0), None, (Vec3::zero(), Vec3::zero())),
        warm: None,
    };
    let points = pns
        .iter()
        .enumerate()
        .map(|(k, pn)| {
            let mut p = PointConstraint::start(terms, k as u32);
            p.pn = bits(*pn);
            p
        })
        .collect();
    ContactConstraint {
        a: 3,
        b: 4,
        normal: vec3(0.0, 1.0, 0.0),
        warm_slot: slot,
        warm_space: 2,
        points,
    }
}

#[test]
fn impulses_are_handed_back() {
    let mut out = vec![entry(NONE, 0, 1, 1.0)];
    let cs = vec![constraint(5, &[0.5, 0.0]), constraint(NONE, &[])];
    let totals = collect_warm(&cs, &mut out);
    assert_eq!(totals, (2, 1));
    assert_eq!(out.len(), 3);
    assert_eq!(out[1].slot, 5);
    assert_eq!(out[1].key.packed(), WarmKey { a: 3, b: 4, space: 2 }.packed());
    assert_eq!((out[1].value.n, num(out[1].value.points[0].pn)), (2, 0.5));
    assert_eq!(out[1].value.points[1].feature, 1);
    assert_eq!(out[2].value.n, 0);
}

// ---- schedules

#[test]
fn phases_have_their_counts() {
    let config = IterationConfig {
        velocity_iterations: 0,
        stabilization_iterations: 3,
        shock_iterations: 2,
        normal_inner: 0,
        settled_hold_iterations: 1,
        joint_iterations: 1,
    };
    let p = PhaseParams::from_config(&config, false);
    assert_eq!((p.iters, p.shock, p.normal_inner, p.settled_hold, p.corrects_depth), (1, 2, 1, 1, true));
    let q = PhaseParams::from_config(&config, true);
    assert_eq!((q.iters, q.shock, q.normal_inner, q.settled_hold, q.corrects_depth), (3, 0, 1, 1, false));
}

#[test]
fn sweeps_alternate_and_stop() {
    let p = PhaseParams { iters: 8, shock: 1, normal_inner: 1, settled_hold: 1, corrects_depth: true };
    let mut plan = SweepPlan::new(&p);
    let mut seen = Vec::new();
    loop {
        let s = plan.next();
        if s == Sweep::Done {
            break;
        }
        seen.push(s);
        plan.advance(bits(0.0));
    }
    assert_eq!(
        seen,
        vec![
            Sweep::Relax { reverse: false, reduce: false },
            Sweep::Relax { reverse: true, reduce: false },
            Sweep::Relax { reverse: false, reduce: true },
            Sweep::Relax { reverse: true, reduce: true },
            Sweep::Shock,
            Sweep::Hold,
        ]
    );
    let mut plan = SweepPlan::new(&p);
    for _ in 0..8 {
        assert!(matches!(plan.next(), Sweep::Relax { .. }));
        plan.advance(bits(0.002));
    }
    assert_eq!(plan.next(), Sweep::Shock);
    assert_eq!((visit(5, 1, false), visit(5, 1, true)), (1, 3));
}

#[test]
fn fast_bodies_are_swept() {
    let ask = |dynamic, awake, speed, threshold, travel, extent, reach| {
        let b = |v: f32| bits(v);
        needs_ccd(dynamic, awake, b(speed), b(threshold), b(travel), b(extent), b(reach))
    };
    assert!(ask(true, true, 10.0, 5.0, 1.0, 0.5, 0.25));
    assert!(ask(true, true, 5.0, 5.0, 0.25, 0.5, 0.25));
    assert!(!ask(false, true, 10.0, 5.0, 1.0, 0.5, 0.25));
    assert!(!ask(true, false, 10.0, 5.0, 1.0, 0.5, 0.25));
    assert!(!ask(true, true, 4.0, 5.0, 1.0, 0.5, 0.25));
    assert!(!ask(true, true, 10.0, f32::INFINITY, 1.0, 0.5, 0.25));
    assert!(!ask(true, true, 10.0, 5.0, 0.1, 0.5, 0.25));
    assert!(!ask(true, true, 10.0, 5.0, 1.0, 0.0, 0.0));
    assert!(!ask(true, true, 10.0, 5.0, 1.0, f32::INFINITY, 0.25));
    assert_eq!((step_count(0, 8), step_count(5, 8), step_count(9, 8), step_count(9, 0)), (1, 5, 8, 1));
}

#[test]
fn counters_start_over_when_read() {
    let mut c = Counters::new();
    count_point(&mut c, bits(-0.5), 7, 9);
    count_point(&mut c, bits(0.5), 1, 1);
    assert_eq!(solve_accounting_take(&mut c), (2, 1, 8, 10));
    assert_eq!(solve_accounting_take(&mut c), (0, 0, 0, 0));
    c.sleep_fast = 1;
    c.sleep_wait = 2;
    c.sleep_slept = 3;
    c.sleep_wait_max_ms = 4;
    c.sleep_fast_body = 5;
    c.sleep_body_all = 6;
    c.normal_flip = 7;
    c.normal_same = 8;
    c.fallback_clip = 9;
    assert_eq!(sleep_diag_take(&mut c), (1, 2, 3, 4));
    assert_eq!(sleep_diag_deep_take(&mut c), (5, 6));
    assert_eq!(warm_normal_flip_take(&mut c), (7, 8));
    assert_eq!(warm_fallback_kind_take(&mut c).1, 9);
    assert_eq!(sleep_diag_take(&mut c), (0, 0, 0, 0));
}

#[test]
fn solves_are_put_on_record() {
    let b = bodies();
    let ms = [manifold(0, 1), manifold(2, 4)];
    let mut solver = ImpulseSolver::new();
    let phase = solver.begin_phase(&b, &ms, 1, false);
    let times = || PhaseTimes {
        islands_and_fill: 9,
        fill: 4,
        solve: 3,
        scope: 7,
        build: 1,
        warm: 2,
        iter: 3,
        group: vec![7],
    };
    let slot = std::mem::size_of::<WarmManifold>() as u32;
    solver.record_times(times());
    solver.record_counts(&phase, 2, (8, 3));
    let d = &solver.island_diag;
    assert_eq!((d.islands, d.manifolds, d.g_count, d.points), (3, 2, 1, 8));
    assert_eq!((d.gather_us, d.island_build_us, d.fill_us), (5, 5, 4));
    assert_eq!((d.scope_us, d.scatter_us), (7, 0));
    assert_eq!((d.build_us, d.warm_us, d.iter_us), (1, 2, 3));
    assert_eq!((d.warm_count, d.warm_bytes_per_slot), (0, slot));
    assert_eq!((&d.group_us, &d.group_manifs), (&vec![7], &vec![2]));
    let still = BodySet { awake: vec![false; b.awake.len()], ..b };
    let idle = solver.begin_phase(&still, &ms, 1, false);
    solver.record_counts(&idle, 2, (0, 0));
    assert_eq!(solver.last_points, (8, 3));
    assert_eq!((solver.island_diag.islands, solver.island_diag.points), (0, 8));
    assert_eq!(solver.island_diag.scope_us, 7);
}

// ---- sleep

fn rest(sleep_time: f32, per_body: bool, gate: u32) -> SleepConfig {
    SleepConfig { sleep_time: bits(sleep_time), wake_gate_k: gate, per_body, deep: true }
}

/// One pass of the rule over two touching bodies and a lone one.
fn judge(b: &mut BodySet, config: &SleepConfig, slow: [bool; 3], hot: &[bool]) -> u32 {
    let ms: Vec<Manifold> = hot.iter().map(|_| manifold(0, 1)).collect();
    let mut parent = build_union_find(b, &ms);
    let islands = fill_island_buckets(b, &ms, &mut parent);
    let motion: Vec<Motion> = (0..3)
        .map(|i| Motion {
            slow: slow[i],
            fast: !slow[i],
            advanced: bits(num(b.sleep_timer[i]) + 0.1),
        })
        .collect();
    let heat: Vec<Heat> =
        hot.iter().map(|h| Heat { hot_from_a: *h, hot_from_b: *h, fast: false }).collect();
    let mut streak = Vec::new();
    let mut resets = 0u32;
    let mut counters = Counters::new();
    sleep_pass(
        b,
        &islands,
        &ms,
        &heat,
        &motion,
        config,
        bits(0.1),
        false,
        &mut streak,
        &mut resets,
        &mut counters,
    );
    resets
}

fn trio() -> BodySet {
    let mut b = BodySet::new();
    for i in 0..3 {
        b.push(true, vec3(i as f32, 0.0, 0.0), upright());
    }
    b
}

#[test]
fn islands_sleep_together() {
    let mut b = trio();
    let config = rest(0.25, false, 0);
    b.linvel[0] = vec3(0.01, 0.0, 0.0);
    assert_eq!(judge(&mut b, &config, [true, true, true], &[false]), 0);
    assert_eq!(judge(&mut b, &config, [true, false, true], &[false]), 2);
    assert_eq!(num(b.sleep_timer[0]), 0.0);
    assert_eq!(judge(&mut b, &config, [true, true, true], &[false]), 0);
    assert_eq!(b.awake, vec![true, true, false]);
    judge(&mut b, &config, [true, true, true], &[false]);
    judge(&mut b, &config, [true, true, true], &[false]);
    assert_eq!(b.awake, vec![false, false, false]);
    assert_eq!(b.linvel[0], Vec3::zero());
}

#[test]
fn bodies_sleep_on_their_own() {
    let mut b = trio();
    let config = rest(0.25, true, 0);
    for _ in 0..3 {
        judge(&mut b, &config, [true, false, true], &[false]);
    }
    assert_eq!(b.awake, vec![false, true, false]);
    judge(&mut b, &config, [true, false, true], &[true]);
    assert!(b.awake[0]);
}

#[test]
fn the_gate_delays_waking() {
    let mut b = trio();
    let config = rest(0.25, true, 2);
    for _ in 0..3 {
        judge(&mut b, &config, [true, false, true], &[false]);
    }
    assert!(!b.awake[0]);
    judge(&mut b, &config, [true, false, true], &[true]);
    assert!(!b.awake[0]);
    judge(&mut b, &config, [true, false, true], &[true, false, true]);
    assert!(!b.awake[0]);
    judge(&mut b, &config, [true, false, true], &[true, true]);
    assert!(b.awake[0]);
}

// ---- shapes and pairs

fn sphere() -> Shape {
    Shape::Sphere { radius: bits(0.5) }
}

fn cube() -> Shape {
    Shape::Box { half: vec3(1.0, 2.0, 0.5) }
}

#[test]
fn smallest_extents() {
    assert_eq!(min_half_extent(&sphere()), bits(0.5));
    assert_eq!(min_half_extent(&cube()), bits(0.5));
    let c = Shape::Cylinder { half_height: bits(2.0), radius: bits(3.0) };
    assert_eq!(min_half_extent(&c), bits(2.0));
    assert_eq!(min_half_extent(&heightfield_marker_shape(4)), bits(f32::INFINITY));
    assert_eq!(heightfield_marker_shape(4), Shape::HeightField(4));
}

#[test]
fn pairs_take_their_route() {
    assert_eq!(route(&sphere(), &sphere()), Route::SphereSphere);
    assert_ne!(route(&cube(), &cube()), route(&sphere(), &cube()));
    assert_ne!(route(&sphere(), &cube()), route(&cube(), &sphere()));
    assert!(matches!(provider_query(&cube()), ProviderQuery::Box { .. }));
    assert!(matches!(provider_query(&sphere()), ProviderQuery::Sphere { .. }));
    assert!(matches!(terrain_query(&sphere()), TerrainQuery::Sphere { .. }));
    assert!(matches!(terrain_query(&cube()), TerrainQuery::PolyVertices));
    assert!(matches!(terrain_query(&Shape::HeightField(0)), TerrainQuery::Unsupported));
    let up = vec3(0.0, 1.0, 0.0);
    assert_eq!(oriented_normal(up, true), up);
    assert_eq!(num(oriented_normal(up, false).y), -1.0);
    assert_eq!((predict_time(bits(-1.0)), predict_time(bits(0.5))), (bits(0.0), bits(0.5)));
    assert_eq!(sphere_case(bits(2.0), bits(1.0)), SphereCase::Apart);
    assert_eq!(sphere_case(bits(1.0), bits(1.0)), SphereCase::Touching);
    assert_eq!(sphere_case(bits(0.0), bits(1.0)), SphereCase::Coincident);
}

#[test]
fn spheres_give_one_point() {
    let g = SphereGap {
        dist: bits(1.005),
        reach: bits(1.01),
        radii: bits(1.0),
        centre: vec3(7.0, 0.0, 0.0),
        normal: vec3(1.0, 0.0, 0.0),
        point: vec3(0.5, 0.0, 0.0),
        depth: bits(-0.005),
    };
    let t = g.touch().unwrap();
    assert_eq!((t.normal, t.points.len(), t.points.space()), (g.normal, 1, 0));
    let p = t.points.get(0);
    assert_eq!((p.point, p.depth, p.feature), (g.point, g.depth, 0));
    assert!(SphereGap { dist: bits(1.02), ..g }.touch().is_none());
    let t = SphereGap { dist: bits(0.0), ..g }.touch().unwrap();
    assert_eq!((t.normal, t.points.get(0).point), (vec3(0.0, 1.0, 0.0), g.centre));
    assert_eq!(t.points.get(0).depth, g.radii);
}

#[test]
fn touches_become_manifolds_of_their_pair() {
    let one = ContactPoints::from_slice(&[contact(1.0, 0.5, 3)]);
    let t = Touch { normal: vec3(0.0, 1.0, 0.0), points: one };
    let m = assemble((4, 9), Some(t)).unwrap();
    assert_eq!((m.a, m.b, m.normal, m.points.get(0).feature), (4, 9, t.normal, 3));
    assert!(assemble((4, 9), None).is_none());
    assert!(assemble((4, 9), Some(Touch { points: ContactPoints::empty(), ..t })).is_none());
}

#[test]
fn hull_contacts_are_counted_from_one() {
    let points: Vec<Vec3> = (0..6).map(|i| vec3(i as f32, 0.0, 0.0)).collect();
    let depths = all(&[0.1, -1.0, 0.3, 0.1, 0.2, 0.05]);
    let up = vec3(0.0, 1.0, 0.0);
    let t = hull_contacts(&points, &depths, bits(-0.01), up).unwrap();
    let names: Vec<u32> = (0..t.points.len()).map(|k| t.points.get(k).feature).collect();
    assert_eq!(names, vec![3, 5, 1, 4]);
    assert_eq!((t.normal, t.points.get(0).point), (up, points[2]));
    assert_eq!(t.points.get(0).depth, depths[2]);
    assert!(hull_contacts(&points, &depths, bits(0.3), up).is_none());
    assert!(hull_contacts(&[], &[], bits(0.0), up).is_none());
}

#[test]
fn chunks_cover_the_pairs() {
    assert_eq!(collide_chunks(4, 100), vec![(0, 100)]);
    assert_eq!(collide_chunks(1, 9000), vec![(0, 9000)]);
    let chunks = collide_chunks(3, 9000);
    assert!(chunks.len() > 1 && chunks.len() <= 3);
    assert_eq!((chunks[0].0, chunks[chunks.len() - 1].1), (0, 9000));
    for w in chunks.windows(2) {
        assert_eq!(w[0].1, w[1].0);
    }
}

#[test]
fn probes_wrap_around() {
    let mut p = ClipProbe::new();
    p.count_plane(4, 2);
    p.count_plane(6, 0);
    p.count_call(3);
    assert_eq!(p.probe_stats(), (1, 10, 2, 3, 6));
    p.calls = u64::MAX;
    p.count_call(0);
    assert_eq!(p.probe_stats().0, 0);
}

// ---- solids

fn vertex(x: f32, y: f32, z: f32) -> SimplexVertex {
    SimplexVertex { w: vec3(x, y, z), a: vec3(x, y, z), b: Vec3::zero() }
}

/// The nearest point to the origin on the part of a simplex at or above height one;
/// distances are heights.
#[test]
fn simplices_shrink_to_what_carries_the_point() {
    let height = |v: Vec3| bits(num(v.y) * num(v.y));
    let along = |p: Vec3, q: Vec3| {
        let t = if num(p.x) * num(q.x) >= 0.0 {
            if num(p.x).abs() < num(q.x).abs() { 0.0 } else { 1.0 }
        } else {
            num(p.x).abs() / (num(p.x).abs() + num(q.x).abs())
        };
        Between { t: bits(t), point: vec3(0.0, 1.0, 0.0), first: bits(1.0 - t) }
    };
    let edge = |_a: Vec3, _b: Vec3, _c: Vec3, e: usize| EdgeTest {
        outside: e == 2,
        dist2: bits(e as f32 + 1.0),
        point: vec3(0.0, e as f32, 0.0),
        first: bits(if e == 2 { 0.25 } else { 0.5 }),
        second: bits(if e == 2 { 0.75 } else { 0.5 }),
    };
    let onto = |_a: Vec3, _b: Vec3, _c: Vec3| PlanePoint {
        point: vec3(0.0, 5.0, 0.0),
        first: bits(0.2),
        second: bits(0.3),
        third: bits(0.5),
    };
    let arith = SimplexArith {
        along,
        flat: |a: Vec3, _b: Vec3, _c: Vec3| num(a.x) == 7.0,
        edge,
        onto,
        beyond: |a: Vec3, b: Vec3, _c: Vec3, _d: Vec3| num(a.z) == 0.0 && num(b.z) == 1.0,
        measure: height,
    };
    let bary = |s: &mut Vec<SimplexVertex>| {
        let r = closest_simplex(s, &arith);
        (num(r.point.y), r.bary.map(num))
    };

    let mut s = vec![vertex(-1.0, 1.0, 0.0)];
    assert_eq!(bary(&mut s), (1.0, [1.0, 0.0, 0.0, 0.0]));
    let mut s = vec![vertex(-1.0, 1.0, 0.0), vertex(1.0, 1.0, 0.0)];
    assert_eq!(bary(&mut s), (1.0, [0.5, 0.5, 0.0, 0.0]));
    assert_eq!(s.len(), 2);
    let mut s = vec![vertex(1.0, 2.0, 0.0), vertex(3.0, 4.0, 0.0)];
    assert_eq!(bary(&mut s), (2.0, [1.0, 0.0, 0.0, 0.0]));
    assert_eq!(s, vec![vertex(1.0, 2.0, 0.0)]);
    let mut s = vec![vertex(3.0, 2.0, 0.0), vertex(1.0, 4.0, 0.0)];
    assert_eq!(bary(&mut s), (4.0, [1.0, 0.0, 0.0, 0.0]));
    assert_eq!(s, vec![vertex(1.0, 4.0, 0.0)]);

    let mut s = vec![vertex(0.0, 0.0, 0.0), vertex(1.0, 0.0, 0.0), vertex(2.0, 0.0, 0.0)];
    assert_eq!(bary(&mut s), (2.0, [0.25, 0.75, 0.0, 0.0]));
    assert_eq!(s, vec![vertex(1.0, 0.0, 0.0), vertex(2.0, 0.0, 0.0)]);
    let mut s = vec![vertex(7.0, 0.0, 0.0), vertex(1.0, 0.0, 0.0), vertex(2.0, 0.0, 0.0)];
    assert_eq!(bary(&mut s), (0.0, [0.5, 0.5, 0.0, 0.0]));
    assert_eq!(s, vec![vertex(7.0, 0.0, 0.0), vertex(1.0, 0.0, 0.0)]);

    let mut s: Vec<SimplexVertex> = (0..4).map(|k| vertex(k as f32, 0.0, 2.0)).collect();
    assert_eq!(bary(&mut s), (0.0, [0.25, 0.25, 0.25, 0.25]));
    assert_eq!(s.len(), 4);
    let mut s: Vec<SimplexVertex> =
        (0..4).map(|k| vertex(k as f32, 0.0, if k == 0 { 0.0 } else { 1.0 })).collect();
    assert_eq!(bary(&mut s), (2.0, [0.25, 0.75, 0.0, 0.0]));
    assert_eq!(s, vec![vertex(1.0, 0.0, 1.0), vertex(2.0, 0.0, 1.0)]);

    let inside = SimplexArith {
        along,
        flat: |_a: Vec3, _b: Vec3, _c: Vec3| false,
        edge: |a: Vec3, b: Vec3, c: Vec3, e: usize| EdgeTest { outside: false, ..edge(a, b, c, e) },
        onto,
        beyond: |_a: Vec3, _b: Vec3, _c: Vec3, _d: Vec3| false,
        measure: height,
    };
    let mut s = vec![vertex(0.0, 0.0, 0.0), vertex(1.0, 0.0, 0.0), vertex(2.0, 0.0, 0.0)];
    let r = closest_simplex(&mut s, &inside);
    assert_eq!((num(r.point.y), r.bary.map(num)), (5.0, [0.2, 0.3, 0.5, 0.0]));
    assert_eq!(s.len(), 3);
}

#[test]
fn rounds_end_when_nothing_gets_closer() {
    assert_eq!(gjk_step(bits(1e-13), bits(1.0)), GjkStep::Intersecting);
    assert_eq!(gjk_step(bits(1.0), bits(1.0)), GjkStep::Converged);
    assert_eq!(gjk_step(bits(0.5), bits(1.0)), GjkStep::Closer);
}

#[test]
fn polytopes_grow_over_their_horizon() {
    let faces = initial_faces(&[false, false, true, false]);
    assert_eq!(faces[0], Tri { a: 0, b: 1, c: 2 });
    assert_eq!(faces[2], Tri { a: 0, b: 3, c: 2 });
    let next = expand(&faces, &[true, false, false, false], 4).unwrap();
    assert_eq!(next.len(), 6);
    assert_eq!(next[3], Tri { a: 0, b: 1, c: 4 });
    assert!(expand(&faces, &[false; 4], 4).is_none());
    assert!(expand(&faces, &[true; 4], 4).is_none());
}

#[test]
fn the_smallest_overlap_decides() {
    let t = |over: f32, a: f32, b: f32| AxisOverlap {
        over: bits(over),
        reach_a: bits(a),
        reach_b: bits(b),
    };
    let tests = [t(0.5, 1.0, 2.0), t(0.2, 2.0, 1.0), t(0.3, 0.0, 0.0)];
    assert_eq!(axis_sat(&tests), AxisWay::Along { axis: 1, against: false });
    let tests = [t(0.1, 1.0, 2.0), t(0.2, 2.0, 1.0), t(0.3, 0.0, 0.0)];
    assert_eq!(axis_sat(&tests), AxisWay::Along { axis: 0, against: true });
    assert_eq!(axis_sat(&[t(0.1, 0.0, 0.0), t(-0.2, 0.0, 0.0), t(0.1, 0.0, 0.0)]), AxisWay::Apart);
    let nan = t(f32::NAN, 0.0, 0.0);
    assert_eq!(axis_sat(&[nan, nan, nan]), AxisWay::Unknown);
}

#[test]
fn approaches_end_early_or_after_four_rounds() {
    let halve = |p: Vec3| vec3(num(p.x) / 2.0, 0.0, 0.0);
    let close = |d: f32| move |p: Vec3, q: Vec3| (num(p.x) - num(q.x)).abs() <= d;
    assert_eq!(axis_reach(vec3(16.0, 0.0, 0.0), &halve, &close(0.0)), vec3(1.0, 0.0, 0.0));
    assert_eq!(axis_reach(vec3(16.0, 0.0, 0.0), &halve, &close(4.0)), vec3(4.0, 0.0, 0.0));
}

#[test]
fn pairs_that_straddle_a_plane() {
    assert_eq!(straddling_pairs(&[false, true, false]), vec![(0, 1), (1, 2)]);
    assert!(straddling_pairs(&[true, true]).is_empty());
    let pts = [vec3(0.0, 0.0, 0.0), vec3(1.0, 0.0, 0.0)];
    let same = |a: Vec3, b: Vec3| a == b;
    let half = |a: Vec3, b: Vec3| vec3((num(a.x) + num(b.x)) * 0.5, num(b.y), num(b.z));
    let place = |p: Vec3| (p.y, p.z);
    let turn = |o: (Scalar, Scalar), a: (Scalar, Scalar), b: (Scalar, Scalar)| {
        let (o, a, b) =
            ((num(o.0), num(o.1)), (num(a.0), num(a.1)), (num(b.0), num(b.1)));
        (a.0 - o.0) * (b.1 - o.1) - (a.1 - o.1) * (b.0 - o.0) <= 0.0
    };
    let run = |pts: &[Vec3], inside: &[bool], beyond: &[bool]| {
        clip_halfspace(pts, inside, beyond, &half, &place, &turn, same)
    };
    assert!(run(&pts, &[false, false], &[true, true]).unwrap().is_empty());
    let cut = run(&pts, &[true, false], &[false, true]).unwrap();
    assert_eq!(cut, vec![vec3(0.0, 0.0, 0.0), vec3(0.5, 0.0, 0.0)]);
    let mut fan = vec![vec3(0.0, 0.0, 0.0)];
    for (y, z) in [(0.0, 0.0), (2.0, 0.0), (2.0, 2.0), (0.0, 2.0), (1.0, 1.0)] {
        fan.push(vec3(2.0, y, z));
    }
    let inside = [true, false, false, false, false, false];
    let beyond = [false, true, true, true, true, true];
    let cut = run(&fan, &inside, &beyond).unwrap();
    let corners: Vec<(f32, f32)> = cut[1..].iter().map(|p| (num(p.y), num(p.z))).collect();
    assert_eq!(corners, vec![(0.0, 0.0), (2.0, 0.0), (2.0, 2.0), (0.0, 2.0)]);
    assert!(cut[1..].iter().all(|p| num(p.x) == 1.0));
    fan[5].y = bits(f32::NAN);
    assert!(run(&fan, &inside, &beyond).is_none());
    assert!(run(&fan[..4], &inside[..4], &beyond[..4]).is_some());
}

#[test]
fn seeds_fill_a_cube() {
    assert_eq!((seed_side(1), seed_side(8), seed_side(9), seed_side(27)), (1, 2, 3, 3));
    let seeds = seeds_jittered(5);
    assert_eq!(seeds.len(), 5);
    for (k, s) in seeds.iter().enumerate() {
        assert_eq!(s.ix, k % 2);
        assert!(s.ix < 2 && s.iy < 2 && s.iz < 2);
    }
    let again = seeds_jittered(5);
    assert!((0..5).all(|k| seeds[k].jx == again[k].jx && seeds[k].jy == again[k].jy));
}

/// The corner of a solid that is turned so that its corners are where they are.
fn corner(x: f32, y: f32, z: f32) -> SimplexVertex {
    let w = vec3(x, y, z);
    SimplexVertex { w, a: w, b: Vec3::zero() }
}

#[test]
fn flat_simplices_are_answered_by_the_axes() {
    let arith = EpaArith {
        plane: |_: Vec3, _: Vec3, _: Vec3| Some((vec3(1.0, 0.0, 0.0), bits(0.5))),
        enough: |_: Vec3, _: Vec3, _: Scalar| true,
        sees: |_: Vec3, _: Vec3, _: Vec3, _: Vec3| false,
        witness: |a: SimplexVertex, _: SimplexVertex, _: SimplexVertex, _: Vec3, _: Scalar| a.a,
    };
    let support = |_: Vec3| corner(1.0, 0.0, 0.0);
    let alike = |p: Vec3, q: Vec3| p == q;
    let flat = |a: Vec3, b: Vec3, c: Vec3, d: Vec3| a.y == b.y && b.y == c.y && c.y == d.y;
    let facing = |_: Vec3, _: Vec3, _: Vec3, _: Vec3| [false; 4];
    let test = |over: f32| AxisOverlap { over: bits(over), reach_a: bits(1.0), reach_b: bits(2.0) };
    let axes = || [test(0.5), test(0.25), test(0.75)];
    let run = |s: &[SimplexVertex]| {
        way_out(s, 8, alike, &flat, &facing, &axes, &support, &arith)
    };
    let by_axis = WayOut::Axis(AxisWay::Along { axis: 1, against: true });
    let plane = [
        corner(0.0, 0.0, 0.0),
        corner(1.0, 0.0, 0.0),
        corner(0.0, 0.0, 1.0),
        corner(1.0, 0.0, 1.0),
    ];
    assert_eq!(run(&plane), by_axis);
    assert_eq!(run(&plane[..3]), by_axis);
    let mut solid = plane;
    solid[3] = corner(0.0, 1.0, 0.0);
    match run(&solid) {
        WayOut::Expanded(best) => {
            assert_eq!((num(best.depth), num(best.normal.x)), (0.5, -1.0));
        }
        WayOut::Axis(_) => panic!("the tetrahedron has a volume"),
    }
    solid[2] = solid[1];
    assert_eq!(run(&solid), by_axis);
}
