//! What preparing contacts promises.

use crate::constraint::{AnchorGeom, PointTerms, Recycled, WarmCandidate, WarmMatch};
use crate::contact::{ContactPoint, Manifold};
use crate::guarantees::phases::summed;
use crate::prepare::{
    agreed, cached_points, manifold_key, manifold_prepared, point_prepared, point_tallied, points_tallied,
    prepare_points, prepared, taken, Agreement, ContactPrep, PointNumbers, PointStory,
};
use crate::scalar::{Scalar, Vec3};
use crate::stats::Counters;
use crate::warm::{WarmKey, WarmManifold, WarmPoint, WarmState, WarmTable};
use vstd::prelude::*;

verus! {

/// What the cache holds for two bodies and a feature space.
pub open spec fn held_for(st: WarmState, a: u32, b: u32, space: u32) -> Option<WarmManifold> {
    let p = (a * 0x1_0000_0000_0000_0000 + b * 0x1_0000_0000 + space) as u128;
    if st.index.contains_key(p) {
        Some(st.slots[st.index[p] as int].value)
    } else {
        None
    }
}

/// The cached points that a manifold may continue: as many as the entry says, at most
/// four; none without an entry.
pub open spec fn open_to(v: Option<WarmManifold>) -> Seq<WarmPoint> {
    match v {
        Some(m) => Seq::new(
            if m.n < 4 {
                m.n as nat
            } else {
                4
            },
            |i: int| m.points@[i],
        ),
        None => Seq::empty(),
    }
}

/// The number is zero or above.
pub open spec fn not_negative(x: Scalar) -> bool {
    x.bits <= 0x7f80_0000 || x.bits == 0x8000_0000
}

/// Candidate `i` has the feature of the contact, which has one, and is near.
pub open spec fn same_feature(cands: Seq<WarmCandidate>, feature: u32, i: int) -> bool {
    feature != 0 && cands[i].feature == feature && cands[i].near
}

/// Which cached point a contact continues: with the normals in agreement the first near
/// one with its feature; without such a one the closest acceptable one, the first of
/// several; otherwise none.
pub open spec fn continues(
    aligned: bool,
    feature: u32,
    cached: Seq<WarmPoint>,
    cands: Seq<WarmCandidate>,
    start: Option<WarmPoint>,
) -> bool {
    &&& !aligned ==> start is None
    &&& forall|i: int|
        #![trigger cands[i]]
        aligned && 0 <= i < cands.len() && same_feature(cands, feature, i) && (forall|j: int|
            #![trigger cands[j]]
            0 <= j < i ==> !same_feature(cands, feature, j)) ==> start == Some(cached[i])
    &&& forall|i: int|
        #![trigger cands[i]]
        aligned && 0 <= i < cands.len() && cands[i].acceptable && (forall|j: int|
            #![trigger cands[j]]
            0 <= j < cands.len() ==> !same_feature(cands, feature, j)) && (forall|j: int|
            #![trigger cands[j]]
            0 <= j < cands.len() && cands[j].acceptable ==> cands[i].dist2.total_rank()
                < cands[j].dist2.total_rank() || (cands[i].dist2 == cands[j].dist2 && i <= j))
            ==> start == Some(cached[i])
    &&& start is Some ==> exists|i: int|
        #![trigger cands[i]]
        0 <= i < cands.len() && start == Some(cached[i]) && (same_feature(cands, feature, i)
            || cands[i].acceptable)
    &&& start is None && aligned ==> forall|i: int|
        #![trigger cands[i]]
        0 <= i < cands.len() ==> !same_feature(cands, feature, i) && !cands[i].acceptable
}

/// What the terms of a contact point must be. `x` is what `numbers` measured for it,
/// `cands` what `probe` made of the cached points, `kept` what `recycle` said of the
/// one that it continues, and `fresh` what `bake` made.
pub open spec fn point_held<
    A: Fn(usize, Vec3) -> Agreement,
    C: Fn(usize, ContactPoint, WarmPoint) -> WarmCandidate,
    K: Fn(usize, WarmPoint) -> Recycled,
    B: Fn(usize, ContactPoint) -> (Vec3, Vec3),
    P: Fn(usize, ContactPoint, AnchorGeom, Option<WarmPoint>) -> PointNumbers,
>(
    prep: ContactPrep<A, C, K, B, P>,
    mi: usize,
    cp: ContactPoint,
    cached: Seq<WarmPoint>,
    aligned: bool,
    t: PointTerms,
    x: PointNumbers,
    cands: Seq<WarmCandidate>,
    kept: Recycled,
    fresh: (Vec3, Vec3),
) -> bool {
    &&& prep.numbers.ensures((mi, cp, t.anchor, t.warm), x)
    &&& t.friction == x.friction
    &&& t.ra == x.ra
    &&& t.rb == x.rb
    &&& t.t1 == x.t1
    &&& t.t2 == x.t2
    &&& t.nmass == x.nmass
    &&& t.tmass1 == x.tmass1
    &&& t.tmass2 == x.tmass2
    &&& t.tcross == x.tcross
    &&& t.rhs == x.rhs
    &&& not_negative(t.anchor.depth) ==> t.cfm.bits == 0x3f80_0000
    &&& !not_negative(t.anchor.depth) && x.fixed ==> t.cfm == x.soft_fixed
    &&& !not_negative(t.anchor.depth) && !x.fixed ==> t.cfm == x.soft_moving
    &&& t.warm is Some && !x.slid && x.strayed ==> t.trhs1 == x.pull1 && t.trhs2 == x.pull2
    &&& t.warm is None || x.slid || !x.strayed ==> t.trhs1.bits == 0 && t.trhs2.bits == 0
    &&& cands.len() == cached.len()
    &&& forall|i: int|
        0 <= i < cands.len() ==> prep.probe.ensures((mi, cp, cached[i]), #[trigger] cands[i])
    &&& continues(aligned, cp.feature, cached, cands, t.warm)
    &&& prep.bake.ensures((mi, cp), fresh)
    &&& t.warm is Some ==> prep.recycle.ensures((mi, t.warm.unwrap()), kept)
    &&& if t.warm is Some && kept.within {
        &&& t.anchor.pt_world == kept.midpoint
        &&& t.anchor.depth == kept.depth
        &&& t.anchor.drift == kept.separation
        &&& t.anchor.depth0 == t.warm.unwrap().depth0
        &&& t.anchor.la == t.warm.unwrap().la
        &&& t.anchor.lb == t.warm.unwrap().lb
    } else {
        &&& t.anchor.pt_world == cp.point
        &&& t.anchor.depth == cp.depth
        &&& t.anchor.depth0 == cp.depth
        &&& t.anchor.la == fresh.0
        &&& t.anchor.lb == fresh.1
        &&& t.anchor.drift.x.bits == 0 && t.anchor.drift.y.bits == 0 && t.anchor.drift.z.bits == 0
    }
}

proof fn lemma_continues(
    aligned: bool,
    feature: u32,
    cached: Seq<WarmPoint>,
    cands: Seq<WarmCandidate>,
    found: WarmMatch,
)
    requires
        crate::constraint::matches_spec(cands, aligned, feature, found),
        cands.len() == cached.len(),
    ensures
        continues(aligned, feature, cached, cands, taken(cached, found)),
{
    use_first(aligned, feature, cands, found);
    match found {
        WarmMatch::Exact(k) => {
            assert(same_feature(cands, feature, k as int));
            assert(cands[k as int] == cands[k as int]);
        },
        WarmMatch::Fallback(k) => {
            assert(cands[k as int].acceptable);
            assert forall|i: int|
                #![trigger cands[i]]
                aligned && 0 <= i < cands.len() && cands[i].acceptable && (forall|j: int|
                    #![trigger cands[j]]
                    0 <= j < cands.len() ==> !same_feature(cands, feature, j)) && (forall|j: int|
                    #![trigger cands[j]]
                    0 <= j < cands.len() && cands[j].acceptable ==> cands[i].dist2.total_rank()
                        < cands[j].dist2.total_rank() || (cands[i].dist2 == cands[j].dist2 && i <= j))
                implies taken(cached, found) == Some(cached[i]) by {
                assert(i == k) by {
                    let kk = k as int;
                    assert(cands[kk].acceptable);
                }
            }
        },
        WarmMatch::Miss => {
            assert forall|i: int|
                #![trigger cands[i]]
                0 <= i < cands.len() implies !same_feature(cands, feature, i)
                && !cands[i].acceptable by {}
        },
        WarmMatch::Unaligned => {},
    }
}

proof fn use_first(aligned: bool, feature: u32, cands: Seq<WarmCandidate>, found: WarmMatch)
    requires
        crate::constraint::matches_spec(cands, aligned, feature, found),
    ensures
        forall|i: int|
            #![trigger cands[i]]
            aligned && 0 <= i < cands.len() && same_feature(cands, feature, i) && (forall|j: int|
                #![trigger cands[j]]
                0 <= j < i ==> !same_feature(cands, feature, j)) ==> found == WarmMatch::Exact(
                i as usize,
            ) && i == i as usize,
{
    assert forall|i: int|
        #![trigger cands[i]]
        aligned && 0 <= i < cands.len() && same_feature(cands, feature, i) && (forall|j: int|
            #![trigger cands[j]]
            0 <= j < i ==> !same_feature(cands, feature, j)) implies found == WarmMatch::Exact(
        i as usize,
    ) && i == i as usize by {
        assert(crate::constraint::exact_match(cands[i], feature));
        match found {
            WarmMatch::Exact(k) => {
                assert(crate::constraint::exact_match(cands[k as int], feature));
                assert(same_feature(cands, feature, k as int));
            },
            _ => {},
        }
    }
}

/// In every prepared manifold each point's terms are what was measured for it: friction,
/// masses, lever arms, tangents and the wanted speed are those that `numbers` gave for
/// the point, the place where it acts and the cached point that it continues. A
/// touching point is rigid and a separated one as soft as was measured; the tangents
/// pull back exactly if a continued point stuck and strayed. The point continues the
/// cached one that matches it under the manifold's bodies and feature space.
pub proof fn points_get_what_was_measured<
    A: Fn(usize, Vec3) -> Agreement,
    C: Fn(usize, ContactPoint, WarmPoint) -> WarmCandidate,
    K: Fn(usize, WarmPoint) -> Recycled,
    B: Fn(usize, ContactPoint) -> (Vec3, Vec3),
    P: Fn(usize, ContactPoint, AnchorGeom, Option<WarmPoint>) -> PointNumbers,
>(
    prep: &ContactPrep<A, C, K, B, P>,
    mi: usize,
    m: &Manifold,
    table: &WarmTable,
    counters: &mut Counters,
    terms: Vec<PointTerms>,
    k: int,
)
    requires
        call_ensures(prepare_points::<A, C, K, B, P>, (prep, mi, m, table, counters), terms),
        0 <= k < m.points@.len(),
    ensures
        terms@.len() == m.points@.len(),
        exists|aligned: bool, x: PointNumbers, cands: Seq<WarmCandidate>, kept: Recycled, fresh: (Vec3, Vec3)|
            #[trigger] point_held(
                *prep,
                mi,
                m.points@[k],
                open_to(held_for(table@, m.a, m.b, m.points.space_spec() as u32)),
                aligned,
                terms@[k],
                x,
                cands,
                kept,
                fresh,
            ) && (held_for(table@, m.a, m.b, m.points.space_spec() as u32) is None ==> !aligned) && (
            held_for(table@, m.a, m.b, m.points.space_spec() as u32) is Some ==> exists|kept_normal: bool|
                #[trigger] prep.agree.ensures(
                    (
                        mi,
                        held_for(table@, m.a, m.b, m.points.space_spec() as u32).unwrap().normal,
                    ),
                    (Agreement { aligned, kept: kept_normal }),
                )),
{
    lemma_prepared(*prep, mi, m, table@, terms@, *old(counters), *final(counters), k);
}

pub proof fn lemma_prepared<
    A: Fn(usize, Vec3) -> Agreement,
    C: Fn(usize, ContactPoint, WarmPoint) -> WarmCandidate,
    K: Fn(usize, WarmPoint) -> Recycled,
    B: Fn(usize, ContactPoint) -> (Vec3, Vec3),
    P: Fn(usize, ContactPoint, AnchorGeom, Option<WarmPoint>) -> PointNumbers,
>(
    prep: ContactPrep<A, C, K, B, P>,
    mi: usize,
    m: &Manifold,
    st: WarmState,
    terms: Seq<PointTerms>,
    before: Counters,
    after: Counters,
    k: int,
)
    requires
        prepared(prep, mi, m, st, terms, before, after),
        0 <= k < m.points@.len(),
    ensures
        terms.len() == m.points@.len(),
        exists|aligned: bool, x: PointNumbers, cands: Seq<WarmCandidate>, kept: Recycled, fresh: (Vec3, Vec3)|
            #[trigger] point_held(
                prep,
                mi,
                m.points@[k],
                open_to(held_for(st, m.a, m.b, m.points.space_spec() as u32)),
                aligned,
                terms[k],
                x,
                cands,
                kept,
                fresh,
            ) && (held_for(st, m.a, m.b, m.points.space_spec() as u32) is None ==> !aligned) && (held_for(
                st,
                m.a,
                m.b,
                m.points.space_spec() as u32,
            ) is Some ==> exists|kept_normal: bool| #[trigger]
                prep.agree.ensures(
                    (mi, held_for(st, m.a, m.b, m.points.space_spec() as u32).unwrap().normal),
                    (Agreement { aligned, kept: kept_normal }),
                )),
{
    let cached = cached_points(st, manifold_key(m));
    let (agreement, stories) = choose|agreement: Agreement, stories: Seq<PointStory>| #[trigger]
        manifold_prepared(prep, mi, m, st, agreement, stories, terms) && after == points_tallied(
            before,
            m.points@,
            cached,
            agreement,
            stories,
            terms.len() as int,
        );
    let held = held_for(st, m.a, m.b, m.points.space_spec() as u32);
    assert(cached =~= open_to(held));
    let s = stories[k];
    let t = terms[k];
    assert(point_prepared(prep, mi, m.points@[k], cached, agreement, s, t));
    lemma_continues(agreement.aligned, m.points@[k].feature, cached, s.cands, s.found);
    assert(point_held(
        prep,
        mi,
        m.points@[k],
        open_to(held),
        agreement.aligned,
        t,
        s.numbers,
        s.cands,
        s.recycled,
        s.baked,
    ));
    if held is Some {
        assert(agreement == (Agreement { aligned: agreement.aligned, kept: agreement.kept }));
        assert(prep.agree.ensures(
            (mi, held.unwrap().normal),
            (Agreement { aligned: agreement.aligned, kept: agreement.kept }),
        ));
    }
}

/// One if the number is below zero.
pub open spec fn one_if_below(x: Scalar) -> int {
    if x.lt_spec(Scalar { bits: 0 }) {
        1
    } else {
        0
    }
}

/// The closing speeds of the numbers, added up.
pub open spec fn closing_sum(xs: Seq<PointNumbers>) -> int {
    summed(|k: int| xs[k].closing_milli as int, xs.len() as int)
}

/// The wanted speeds of the numbers, added up.
pub open spec fn bias_sum(xs: Seq<PointNumbers>) -> int {
    summed(|k: int| xs[k].bias_milli as int, xs.len() as int)
}

/// How many of the points are separated.
pub open spec fn below_sum(terms: Seq<PointTerms>) -> int {
    summed(|k: int| one_if_below(terms[k].anchor.depth), terms.len() as int)
}

/// Lookups were counted: `t` by feature, by distance and missed, of those by distance how
/// many kept the normal and how many did not.
pub open spec fn lookups_counted(c: Counters, d: Counters, t: (int, int, int, int, int)) -> bool {
    &&& t.0 >= 0 && t.1 >= 0 && t.2 >= 0 && t.3 >= 0 && t.4 >= 0
    &&& t.3 + t.4 == t.1
    &&& d.warm_exact == (c.warm_exact + t.0) % 0x1_0000_0000_0000_0000
    &&& d.warm_fallback == (c.warm_fallback + t.1) % 0x1_0000_0000_0000_0000
    &&& d.warm_miss == (c.warm_miss + t.2) % 0x1_0000_0000_0000_0000
    &&& d.normal_same == (c.normal_same + t.3) % 0x1_0000_0000_0000_0000
    &&& d.normal_flip == (c.normal_flip + t.4) % 0x1_0000_0000_0000_0000
    &&& d.sleep_fast == c.sleep_fast
    &&& d.sleep_wait == c.sleep_wait
    &&& d.sleep_slept == c.sleep_slept
}

proof fn lemma_lookup(
    c: Counters,
    cp: ContactPoint,
    cached: Seq<WarmPoint>,
    agreement: Agreement,
    s: PointStory,
) -> (t: (int, int, int, int, int))
    requires
        s.cands.len() == cached.len(),
        crate::constraint::matches_spec(s.cands, agreement.aligned, cp.feature, s.found),
    ensures
        lookups_counted(c, point_tallied(c, cp, cached, agreement, s), t),
        t.0 + t.1 + t.2 == if agreement.aligned && cached.len() > 0 {
            1int
        } else {
            0
        },
        t.0 <= 1 && t.1 <= 1 && t.2 <= 1 && t.3 <= 1 && t.4 <= 1,
        ({
            let d = point_tallied(c, cp, cached, agreement, s);
            &&& d.points == (c.points + 1) % 0x1_0000_0000_0000_0000
            &&& d.separated == (c.separated + one_if_below(s.anchor(cp, cached).depth))
                % 0x1_0000_0000_0000_0000
            &&& d.closing_milli == (c.closing_milli + s.numbers.closing_milli)
                % 0x1_0000_0000_0000_0000
            &&& d.bias_milli == (c.bias_milli + s.numbers.bias_milli) % 0x1_0000_0000_0000_0000
        }),
{
    match s.found {
        WarmMatch::Exact(k) => (1, 0, 0, 0, 0),
        WarmMatch::Fallback(k) => if agreement.kept {
            (0, 1, 0, 1, 0)
        } else {
            (0, 1, 0, 0, 1)
        },
        WarmMatch::Miss => (0, 0, 1, 0, 0),
        WarmMatch::Unaligned => (0, 0, 0, 0, 0),
    }
}

proof fn lemma_wraps(x: int, u: int)
    ensures
        (x % 0x1_0000_0000_0000_0000 + u) % 0x1_0000_0000_0000_0000 == (x + u)
            % 0x1_0000_0000_0000_0000,
{
    vstd::arithmetic::div_mod::lemma_add_mod_noop_right(u, x, 0x1_0000_0000_0000_0000);
}

proof fn lemma_add_up(
    c: Counters,
    d: Counters,
    e: Counters,
    t: (int, int, int, int, int),
    u: (int, int, int, int, int),
)
    requires
        lookups_counted(c, d, t),
        lookups_counted(d, e, u),
    ensures
        lookups_counted(c, e, (t.0 + u.0, t.1 + u.1, t.2 + u.2, t.3 + u.3, t.4 + u.4)),
{
    lemma_wraps(c.warm_exact + t.0, u.0);
    lemma_wraps(c.warm_fallback + t.1, u.1);
    lemma_wraps(c.warm_miss + t.2, u.2);
    lemma_wraps(c.normal_same + t.3, u.3);
    lemma_wraps(c.normal_flip + t.4, u.4);
}

proof fn lemma_tallied<
    A: Fn(usize, Vec3) -> Agreement,
    C: Fn(usize, ContactPoint, WarmPoint) -> WarmCandidate,
    K: Fn(usize, WarmPoint) -> Recycled,
    B: Fn(usize, ContactPoint) -> (Vec3, Vec3),
    P: Fn(usize, ContactPoint, AnchorGeom, Option<WarmPoint>) -> PointNumbers,
>(
    prep: ContactPrep<A, C, K, B, P>,
    mi: usize,
    m: &Manifold,
    st: WarmState,
    agreement: Agreement,
    stories: Seq<PointStory>,
    terms: Seq<PointTerms>,
    c: Counters,
    n: int,
) -> (t: (int, int, int, int, int))
    requires
        manifold_prepared(prep, mi, m, st, agreement, stories, terms),
        0 <= n <= terms.len(),
    ensures
        ({
            let d = points_tallied(
                c,
                m.points@,
                cached_points(st, manifold_key(m)),
                agreement,
                stories,
                n,
            );
            let open = agreement.aligned && cached_points(st, manifold_key(m)).len() > 0;
            let below = summed(|k: int| one_if_below(terms[k].anchor.depth), n);
            let closing = summed(|k: int| stories[k].numbers.closing_milli as int, n);
            let bias = summed(|k: int| stories[k].numbers.bias_milli as int, n);
            &&& d.points == (c.points + n) % 0x1_0000_0000_0000_0000
            &&& d.separated == (c.separated + below) % 0x1_0000_0000_0000_0000
            &&& d.closing_milli == (c.closing_milli + closing) % 0x1_0000_0000_0000_0000
            &&& d.bias_milli == (c.bias_milli + bias) % 0x1_0000_0000_0000_0000
            &&& lookups_counted(c, d, t)
            &&& t.0 + t.1 + t.2 == if open {
                n
            } else {
                0
            }
            &&& below >= 0 && closing >= 0 && bias >= 0
        }),
    decreases n,
{
    if n <= 0 {
        (0, 0, 0, 0, 0)
    } else {
        let t = lemma_tallied(prep, mi, m, st, agreement, stories, terms, c, n - 1);
        let cached = cached_points(st, manifold_key(m));
        let s = stories[n - 1];
        let cp = m.points@[n - 1];
        assert(point_prepared(prep, mi, cp, cached, agreement, s, terms[n - 1]));
        let d = points_tallied(c, m.points@, cached, agreement, stories, n - 1);
        let u = lemma_lookup(d, cp, cached, agreement, s);
        lemma_add_up(c, d, point_tallied(d, cp, cached, agreement, s), t, u);
        assert(terms[n - 1].anchor == s.anchor(cp, cached));
        lemma_wraps(c.points + n - 1, 1);
        lemma_wraps(
            c.separated + summed(|k: int| one_if_below(terms[k].anchor.depth), n - 1),
            one_if_below(s.anchor(cp, cached).depth),
        );
        lemma_wraps(
            c.closing_milli + summed(|k: int| stories[k].numbers.closing_milli as int, n - 1),
            s.numbers.closing_milli as int,
        );
        lemma_wraps(
            c.bias_milli + summed(|k: int| stories[k].numbers.bias_milli as int, n - 1),
            s.numbers.bias_milli as int,
        );
        (t.0 + u.0, t.1 + u.1, t.2 + u.2, t.3 + u.3, t.4 + u.4)
    }
}

/// Every point of a prepared manifold is counted once and the separated ones once more; the
/// closing and wanted speeds measured for them add up. Where cached points could be
/// continued each point counts as one lookup, and each lookup by distance says once
/// whether the normal was kept.
pub proof fn points_are_tallied<
    A: Fn(usize, Vec3) -> Agreement,
    C: Fn(usize, ContactPoint, WarmPoint) -> WarmCandidate,
    K: Fn(usize, WarmPoint) -> Recycled,
    B: Fn(usize, ContactPoint) -> (Vec3, Vec3),
    P: Fn(usize, ContactPoint, AnchorGeom, Option<WarmPoint>) -> PointNumbers,
>(
    prep: &ContactPrep<A, C, K, B, P>,
    mi: usize,
    m: &Manifold,
    table: &WarmTable,
    counters: &mut Counters,
    terms: Vec<PointTerms>,
)
    requires
        call_ensures(prepare_points::<A, C, K, B, P>, (prep, mi, m, table, counters), terms),
    ensures
        final(counters).points == (old(counters).points + m.points@.len()) % 0x1_0000_0000_0000_0000,
        final(counters).separated == (old(counters).separated + below_sum(terms@))
            % 0x1_0000_0000_0000_0000,
        exists|t: (int, int, int, int, int)| #[trigger]
            lookups_counted(*old(counters), *final(counters), t) && (held_for(
                table@,
                m.a,
                m.b,
                m.points.space_spec() as u32,
            ) is None ==> t.0 + t.1 + t.2 == 0) && ((exists|k: int|
                0 <= k < terms@.len() && (#[trigger] terms@[k]).warm is Some) ==> t.0 + t.1 + t.2
                == m.points@.len()),
        exists|xs: Seq<PointNumbers>|
            #![trigger closing_sum(xs)]
            {
                &&& xs.len() == m.points@.len()
                &&& forall|k: int|
                    0 <= k < m.points@.len() ==> prep.numbers.ensures(
                        (mi, m.points@[k], (#[trigger] terms@[k]).anchor, terms@[k].warm),
                        xs[k],
                    )
                &&& final(counters).closing_milli == (old(counters).closing_milli + closing_sum(xs))
                    % 0x1_0000_0000_0000_0000
                &&& final(counters).bias_milli == (old(counters).bias_milli + bias_sum(xs))
                    % 0x1_0000_0000_0000_0000
            },
{
    let st = table@;
    let cached = cached_points(st, manifold_key(m));
    let n = m.points@.len() as int;
    let (agreement, stories) = choose|agreement: Agreement, stories: Seq<PointStory>| #[trigger]
        manifold_prepared(*prep, mi, m, st, agreement, stories, terms@) && *final(counters)
            == points_tallied(
            *old(counters),
            m.points@,
            cached,
            agreement,
            stories,
            terms@.len() as int,
        );
    let t = lemma_tallied(*prep, mi, m, st, agreement, stories, terms@, *old(counters), n);
    assert(lookups_counted(*old(counters), *final(counters), t));
    let held = held_for(st, m.a, m.b, m.points.space_spec() as u32);
    assert(cached =~= open_to(held));
    let xs = Seq::new(n as nat, |k: int| stories[k].numbers);
    crate::guarantees::phases::lemma_summed_alike(
        |k: int| stories[k].numbers.closing_milli as int,
        |k: int| xs[k].closing_milli as int,
        n,
    );
    crate::guarantees::phases::lemma_summed_alike(
        |k: int| stories[k].numbers.bias_milli as int,
        |k: int| xs[k].bias_milli as int,
        n,
    );
    let closing = closing_sum(xs);
    let bias = bias_sum(xs);
    assert(final(counters).closing_milli == (old(counters).closing_milli + closing)
        % 0x1_0000_0000_0000_0000);
    assert(final(counters).bias_milli == (old(counters).bias_milli + bias)
        % 0x1_0000_0000_0000_0000);
    assert(xs.len() == n);
    assert forall|k: int| 0 <= k < n implies prep.numbers.ensures(
        (mi, m.points@[k], (#[trigger] terms@[k]).anchor, terms@[k].warm),
        xs[k],
    ) by {
        assert(point_prepared(*prep, mi, m.points@[k], cached, agreement, stories[k], terms@[k]));
    }
    if exists|k: int| 0 <= k < terms@.len() && (#[trigger] terms@[k]).warm is Some {
        let k = choose|k: int| 0 <= k < terms@.len() && (#[trigger] terms@[k]).warm is Some;
        assert(point_prepared(*prep, mi, m.points@[k], cached, agreement, stories[k], terms@[k]));
        assert(agreement.aligned && cached.len() > 0);
        assert(t.0 + t.1 + t.2 == n);
    }
    if held is None {
        assert(t.0 + t.1 + t.2 == 0);
    }
}

} // verus!
