//! How the islands are split into groups does not matter: a solve with any number of
//! threads gives the same result.

use crate::body::BodySet;
use crate::constraint::{
    constraint_of, hands_back, point_totals, AnchorGeom, ContactConstraint, PointConstraint,
    PointTerms, Recycled, WarmCandidate,
};
use crate::contact::{ContactPoint, Manifold};
use crate::contact_solve::{
    all_entries, built, gives_terms, group_result, handed_back, island_fits, island_result,
    islands_run, manifold_fits, sum_totals, terms_given, to_solve, GroupSpeeds, SolveScene,
};
use crate::group::{
    group_members, group_start, groups_tile_the_islands, lemma_members_split, listed_once,
    members, scattered, NO_LOCAL,
};
use crate::island::{
    chain, connected, in_island, island_of, islands_are_disjoint, leaders,
    lemma_connected_self, lemma_in_island, manifold_with, manifolds_in,
    root_is_smallest_of_component, roots_of, touch, Island,
};
use crate::locality::{
    agree_in_speed, alike_places, island_depends_on_its_own, steady_contact, takes_part,
};
use crate::prepare::{
    preparing_is_determined, steady_prep, Agreement, ContactPrep, PointNumbers,
};
use crate::relax::{
    foreign, fresh_plan, held, island_solved, lemma_nudge_frame, lemma_nudge_sweep,
    lemma_relax_frame, lemma_sweeps_keep, nudge_sweep, place_of, places_fit, points_of,
    same_contacts, same_points, same_speeds, side_at, solving_changes_only_its_own, sweep_step,
    sweeps_run, ContactArith, IslandState, Relaxed, Side, Speeds,
};
use crate::scalar::{Scalar, Vec3};
use crate::schedule::{at_least_one, PhaseParams, Sweep, SweepPlan};
use crate::select::{indices_where, ints_u32, ints_usize, lemma_indices_where};
use crate::sleep::{
    all_judged, fresh_streak, lemma_same_rest, resets, same_frame, settled_with, sleep_state,
    slept, untouched, Heat, Motion, SleepConfig, SleepState,
};
use crate::solver::{
    group_totals, groups_done, groups_solved, lemma_group_fits, lemma_listed_len,
    lemma_members_come_from, lemma_members_hold, solve_went, speeds_taken, ImpulseSolver, Phase,
    SolveConfig, SolveTrace,
};
use crate::stats::Counters;
use crate::union_find::{lemma_root_is_fixed, root_of};
use crate::warm::{joined, WarmOutEntry, WarmPoint};
use vstd::prelude::*;

verus! {

/// The body is in a manifold of the island.
pub open spec fn in_contact(isl: Island, ms: Seq<Manifold>, u: u32) -> bool {
    exists|k: int|
        0 <= k < isl.manifs@.len() && (ms[(#[trigger] isl.manifs@[k]) as int].a == u
            || ms[isl.manifs@[k] as int].b == u)
}

/// The body belongs to the island or is in one of its manifolds.
pub open spec fn concerns(isl: Island, ms: Seq<Manifold>, u: u32) -> bool {
    isl.bodies@.contains(u) || in_contact(isl, ms, u)
}

/// The contacts of an island are among its manifolds, and have places.
proof fn lemma_built(
    cs: Seq<ContactConstraint>,
    isl: Island,
    scene: SolveScene,
    ts: Seq<Seq<PointTerms>>,
    n: nat,
)
    requires
        built(cs, isl.manifs@, scene.manifolds@, scene.bodies, scene.table@, ts),
        island_fits(&isl, scene.manifolds@, scene.local_of@, n),
    ensures
        places_fit(cs, scene.local_of@, n),
        forall|u: u32| #[trigger] takes_part(cs, u) ==> in_contact(isl, scene.manifolds@, u),
        cs.len() <= isl.manifs@.len(),
{
    let ms = scene.manifolds@;
    let p = to_solve(isl.manifs@, ms, scene.bodies);
    let sel = indices_where(p, isl.manifs@.len());
    lemma_indices_where(p, isl.manifs@.len());
    assert forall|c: int| 0 <= c < cs.len() implies {
        &&& (#[trigger] cs[c]).a < scene.local_of@.len()
        &&& cs[c].b < scene.local_of@.len()
        &&& scene.local_of@[cs[c].a as int] == crate::group::NO_LOCAL
            || scene.local_of@[cs[c].a as int] < n
        &&& scene.local_of@[cs[c].b as int] == crate::group::NO_LOCAL
            || scene.local_of@[cs[c].b as int] < n
    } by {
        assert(constraint_of(&cs[c], &ms[isl.manifs@[sel[c]] as int], scene.table@, ts[sel[c]]));
        assert(manifold_fits(&ms[isl.manifs@[sel[c]] as int], scene.local_of@, n));
    }
    assert forall|u: u32| #[trigger] takes_part(cs, u) implies in_contact(isl, ms, u) by {
        let c = choose|c: int| 0 <= c < cs.len() && ((#[trigger] cs[c]).a == u || cs[c].b == u);
        assert(constraint_of(&cs[c], &ms[isl.manifs@[sel[c]] as int], scene.table@, ts[sel[c]]));
        assert(ms[isl.manifs@[sel[c]] as int].a == cs[c].a);
    }
    assert(sel.len() <= isl.manifs@.len());
}

/// Solving an island keeps the speeds at a place that none of its bodies has.
proof fn lemma_island_keeps<
    A: Fn(usize, Vec3) -> Agreement,
    C: Fn(usize, ContactPoint, WarmPoint) -> WarmCandidate,
    K: Fn(usize, WarmPoint) -> Recycled,
    B: Fn(usize, ContactPoint) -> (Vec3, Vec3),
    P: Fn(usize, ContactPoint, AnchorGeom, Option<WarmPoint>) -> PointNumbers,
    W: Fn(PointConstraint, Vec3, Side, Side) -> Option<(Speeds, Speeds)>,
    D: Fn(PointConstraint, Vec3, Side, Side) -> Scalar,
    R: Fn(PointConstraint, Scalar, Vec3, Side, Side) -> Relaxed,
    H: Fn(PointConstraint, Vec3, Side, Side) -> Option<(Speeds, Speeds)>,
>(
    scene: SolveScene,
    prep: ContactPrep<A, C, K, B, P>,
    arith: ContactArith<W, D, R, H>,
    isl: Island,
    x: GroupSpeeds,
    y: GroupSpeeds,
    entries: Seq<WarmOutEntry>,
    totals: (int, int),
    counts: (Counters, Counters),
    q: usize,
)
    requires
        island_result(scene, prep, arith, isl, x, y, entries, totals, counts),
        x.lv.len() == x.av.len(),
        island_fits(&isl, scene.manifolds@, scene.local_of@, x.lv.len()),
    ensures
        y.lv.len() == x.lv.len(),
        y.av.len() == x.av.len(),
        q < x.lv.len() && (forall|u: u32| #[trigger]
            in_contact(isl, scene.manifolds@, u) ==> place_of(scene.local_of@, u) != Some(q))
            ==> y.lv[q as int] == x.lv[q as int] && y.av[q as int] == x.av[q as int],
{
    let zero = Scalar::zero_spec();
    let (ts, tally, cs, done) = choose|
        ts: Seq<Seq<PointTerms>>,
        tally: Seq<Counters>,
        cs: Seq<ContactConstraint>,
        done: Seq<ContactConstraint>,
    |
        {
            &&& #[trigger] terms_given(
                prep,
                isl.manifs@,
                scene.manifolds@,
                scene.bodies,
                scene.table@,
                ts,
                tally,
            )
            &&& tally[0] == counts.0
            &&& tally.last() == counts.1
            &&& #[trigger] built(
                cs,
                isl.manifs@,
                scene.manifolds@,
                scene.bodies,
                scene.table@,
                ts,
            )
            &&& island_solved(
                arith,
                cs,
                scene.local_of@,
                scene.params,
                held(cs, x.lv, x.av, zero),
                held(done, y.lv, y.av, zero),
            )
            &&& same_contacts(cs, done)
            &&& #[trigger] handed_back(entries, done)
            &&& totals == point_totals(done)
        };
    lemma_built(cs, isl, scene, ts, x.lv.len());
    let (sx, sy) = (held(cs, x.lv, x.av, zero), held(done, y.lv, y.av, zero));
    solving_changes_only_its_own(arith, cs, scene.local_of@, scene.params, sx, sy);
    if q < x.lv.len() && (forall|u: u32| #[trigger]
        in_contact(isl, scene.manifolds@, u) ==> place_of(scene.local_of@, u) != Some(q)) {
        assert(foreign(cs, scene.local_of@, q)) by {
            assert forall|c: int| 0 <= c < cs.len() implies place_of(
                scene.local_of@,
                (#[trigger] cs[c]).a,
            ) != Some(q) && place_of(scene.local_of@, cs[c].b) != Some(q) by {
                assert(takes_part(cs, cs[c].a));
                assert(takes_part(cs, cs[c].b));
                assert(in_contact(isl, scene.manifolds@, cs[c].a));
                assert(in_contact(isl, scene.manifolds@, cs[c].b));
            }
        }
        assert(same_speeds(sx, sy, q as int));
    }
}

/// A solve reads of the contacts only what it leaves.
proof fn lemma_solved_frame<
    W: Fn(PointConstraint, Vec3, Side, Side) -> Option<(Speeds, Speeds)>,
    D: Fn(PointConstraint, Vec3, Side, Side) -> Scalar,
    R: Fn(PointConstraint, Scalar, Vec3, Side, Side) -> Relaxed,
    H: Fn(PointConstraint, Vec3, Side, Side) -> Option<(Speeds, Speeds)>,
>(
    arith: ContactArith<W, D, R, H>,
    c: Seq<ContactConstraint>,
    d: Seq<ContactConstraint>,
    local_of: Seq<u32>,
    params: PhaseParams,
    before: IslandState,
    after: IslandState,
)
    requires
        same_contacts(c, d),
        island_solved(arith, d, local_of, params, before, after),
        before.points.len() == d.len(),
        before.lv.len() == before.av.len(),
        places_fit(d, local_of, before.lv.len()),
    ensures
        island_solved(arith, c, local_of, params, before, after),
{
    let inner = at_least_one(params.normal_inner) as int;
    let (plans, states) = choose|plans: Seq<SweepPlan>, states: Seq<IslandState>|
        {
            &&& states.len() > 0
            &&& nudge_sweep(arith.warm, d, local_of, true, before, states[0])
            &&& plans[0] == fresh_plan(params)
            &&& #[trigger] sweeps_run(arith, d, local_of, inner, plans, states)
            &&& plans.last().next_spec() == Sweep::Done
            &&& after.points == states.last().points
            &&& after.lv == states.last().lv
            &&& after.av == states.last().av
        };
    lemma_nudge_frame(arith.warm, c, d, local_of, true, before, states[0]);
    lemma_nudge_sweep(arith.warm, d, local_of, true, before, states[0]);
    assert forall|k: int| 0 <= k < states.len() - 1 implies sweep_step(
        arith,
        c,
        local_of,
        inner,
        plans[k],
        #[trigger] states[k],
        states[k + 1],
    ) && plans[k + 1] == plans[k].after(states[k + 1].resid) by {
        let (st, next) = (states[k], states[k + 1]);
        assert(sweep_step(arith, d, local_of, inner, plans[k], st, next));
        lemma_sweeps_keep(arith, d, local_of, inner, plans, states, k);
        assert(same_points(states[0].points, st.points));
        match plans[k].next_spec() {
            Sweep::Relax { reverse, reduce } => {
                lemma_relax_frame(arith.relax, c, d, local_of, inner, reverse, reduce, st, next);
            },
            Sweep::Shock => {
                lemma_relax_frame(arith.relax, c, d, local_of, inner, true, false, st, next);
            },
            Sweep::Hold => {
                lemma_nudge_frame(arith.hold, c, d, local_of, false, st, next);
            },
            Sweep::Done => {},
        }
    }
    assert(sweeps_run(arith, c, local_of, inner, plans, states));
}

/// A body as it enters the solve.
pub open spec fn entering_side(bodies: &BodySet, freeze: bool, u: u32) -> Side {
    if bodies.dynamic@[u as int] {
        Side {
            body: u,
            placed: true,
            speeds: Speeds {
                lin: crate::group::entering_linvel(bodies, freeze, u as int),
                ang: crate::group::entering_angvel(bodies, freeze, u as int),
            },
        }
    } else {
        Side {
            body: u,
            placed: false,
            speeds: Speeds { lin: Vec3::zero_spec(), ang: Vec3::zero_spec() },
        }
    }
}

/// The bodies of the island have places of their own in lists that hold the speeds
/// with which they enter the solve.
pub open spec fn starts_fresh(
    scene: SolveScene,
    freeze: bool,
    isl: Island,
    x: GroupSpeeds,
) -> bool {
    let l = scene.local_of@;
    &&& x.lv.len() == x.av.len()
    &&& island_fits(&isl, scene.manifolds@, l, x.lv.len())
    &&& forall|u: u32| #[trigger]
        concerns(isl, scene.manifolds@, u) ==> side_at(l, x.lv, x.av, u) == entering_side(
            scene.bodies,
            freeze,
            u,
        )
    &&& forall|u: u32, v: u32|
        #![trigger concerns(isl, scene.manifolds@, u), concerns(isl, scene.manifolds@, v)]
        concerns(isl, scene.manifolds@, u) && concerns(isl, scene.manifolds@, v) && place_of(l, u)
            == place_of(l, v) && place_of(l, u) is Some ==> u == v
    &&& forall|u: u32|
        #![trigger isl.bodies@.contains(u)]
        isl.bodies@.contains(u) ==> scene.bodies.dynamic@[u as int] && (place_of(l, u) matches Some(
            q,
        ) ==> q < x.lv.len())
}

/// The bodies of the island got the speeds that the lists hold.
pub open spec fn ends_in(scene: SolveScene, isl: Island, moved: BodySet, y: GroupSpeeds) -> bool {
    let l = scene.local_of@;
    forall|u: u32|
        #![trigger isl.bodies@.contains(u)]
        isl.bodies@.contains(u) ==> (place_of(l, u) matches Some(q) ==> {
            &&& moved.linvel@[u as int] == y.lv[q as int]
            &&& moved.angvel@[u as int] == y.av[q as int]
        })
}

/// What an island of a solve came to: it was solved from the speeds with which its
/// bodies entered, handed back its part, and its bodies got their speeds.
pub open spec fn outcome<
    A: Fn(usize, Vec3) -> Agreement,
    C: Fn(usize, ContactPoint, WarmPoint) -> WarmCandidate,
    K: Fn(usize, WarmPoint) -> Recycled,
    B: Fn(usize, ContactPoint) -> (Vec3, Vec3),
    P: Fn(usize, ContactPoint, AnchorGeom, Option<WarmPoint>) -> PointNumbers,
    W: Fn(PointConstraint, Vec3, Side, Side) -> Option<(Speeds, Speeds)>,
    D: Fn(PointConstraint, Vec3, Side, Side) -> Scalar,
    R: Fn(PointConstraint, Scalar, Vec3, Side, Side) -> Relaxed,
    H: Fn(PointConstraint, Vec3, Side, Side) -> Option<(Speeds, Speeds)>,
>(
    scene: SolveScene,
    prep: ContactPrep<A, C, K, B, P>,
    arith: ContactArith<W, D, R, H>,
    freeze: bool,
    isl: Island,
    moved: BodySet,
    part: Seq<WarmOutEntry>,
) -> bool {
    exists|
        x: GroupSpeeds,
        y: GroupSpeeds,
        totals: (int, int),
        counts: (Counters, Counters),
    |
        {
            &&& #[trigger] island_result(scene, prep, arith, isl, x, y, part, totals, counts)
            &&& starts_fresh(scene, freeze, isl, x)
            &&& ends_in(scene, isl, moved, y)
        }
}

/// Two entries that hand back the same points under the same key are the same.
proof fn lemma_same_entry(
    e: WarmOutEntry,
    f: WarmOutEntry,
    c: ContactConstraint,
    d: ContactConstraint,
)
    requires
        hands_back(e, c),
        hands_back(f, d),
        c.a == d.a,
        c.b == d.b,
        c.normal == d.normal,
        c.warm_slot == d.warm_slot,
        c.warm_space == d.warm_space,
        c.points@ == d.points@,
    ensures
        e == f,
{
    assert(e.value.points@ == f.value.points@);
    assert(e.value.points =~= f.value.points);
}

/// The contacts that an island is built from do not depend on where its bodies have
/// their places.
proof fn lemma_same_built<
    A: Fn(usize, Vec3) -> Agreement,
    C: Fn(usize, ContactPoint, WarmPoint) -> WarmCandidate,
    K: Fn(usize, WarmPoint) -> Recycled,
    B: Fn(usize, ContactPoint) -> (Vec3, Vec3),
    P: Fn(usize, ContactPoint, AnchorGeom, Option<WarmPoint>) -> PointNumbers,
>(
    s1: SolveScene,
    s2: SolveScene,
    prep: ContactPrep<A, C, K, B, P>,
    manifs: Seq<usize>,
    ts1: Seq<Seq<PointTerms>>,
    ts2: Seq<Seq<PointTerms>>,
    tally1: Seq<Counters>,
    tally2: Seq<Counters>,
    c1: Seq<ContactConstraint>,
    c2: Seq<ContactConstraint>,
)
    requires
        steady_prep(prep),
        s1.manifolds == s2.manifolds,
        s1.bodies == s2.bodies,
        s1.table == s2.table,
        terms_given(prep, manifs, s1.manifolds@, s1.bodies, s1.table@, ts1, tally1),
        terms_given(prep, manifs, s1.manifolds@, s1.bodies, s1.table@, ts2, tally2),
        built(c1, manifs, s1.manifolds@, s1.bodies, s1.table@, ts1),
        built(c2, manifs, s1.manifolds@, s1.bodies, s1.table@, ts2),
    ensures
        same_contacts(c1, c2),
        points_of(c1) == points_of(c2),
{
    let ms = s1.manifolds@;
    let p = to_solve(manifs, ms, s1.bodies);
    let sel = indices_where(p, manifs.len());
    lemma_indices_where(p, manifs.len());
    assert forall|j: int| 0 <= j < c1.len() implies c1[j].a == c2[j].a && c1[j].b == c2[j].b
        && c1[j].normal == c2[j].normal && c1[j].warm_slot == c2[j].warm_slot && c1[j].warm_space
        == c2[j].warm_space && #[trigger] c1[j].points@ == c2[j].points@ by {
        let i = sel[j];
        let m = ms[manifs[i] as int];
        assert(p(i));
        assert(constraint_of(&c1[j], &m, s1.table@, ts1[i]));
        assert(constraint_of(&c2[j], &m, s1.table@, ts2[i]));
        assert(gives_terms(
            prep,
            manifs[i],
            &m,
            s1.bodies,
            s1.table@,
            ts1[i],
            tally1[i],
            tally1[i + 1],
        ));
        assert(gives_terms(
            prep,
            manifs[i],
            &m,
            s1.bodies,
            s1.table@,
            ts2[i],
            tally2[i],
            tally2[i + 1],
        ));
        preparing_is_determined(
            prep,
            manifs[i],
            &m,
            s1.table@,
            ts1[i],
            ts2[i],
            (tally1[i], tally1[i + 1]),
            (tally2[i], tally2[i + 1]),
        );
        assert(c1[j].points@ =~= c2[j].points@);
    }
    assert forall|c: int|
        #![trigger c1[c]]
        #![trigger c2[c]]
        0 <= c < c1.len() implies c1[c].a == c2[c].a && c1[c].b == c2[c].b && c1[c].normal
        == c2[c].normal && c1[c].warm_slot == c2[c].warm_slot && c1[c].warm_space
        == c2[c].warm_space && c1[c].points@.len() == c2[c].points@.len() by {
        assert(c1[c].points@ == c2[c].points@);
    }
    assert(points_of(c1) =~= points_of(c2));
}

/// Two solves of an island from the same scene come to the same, wherever its bodies
/// have their places.
proof fn lemma_outcomes_match<
    A: Fn(usize, Vec3) -> Agreement,
    C: Fn(usize, ContactPoint, WarmPoint) -> WarmCandidate,
    K: Fn(usize, WarmPoint) -> Recycled,
    B: Fn(usize, ContactPoint) -> (Vec3, Vec3),
    P: Fn(usize, ContactPoint, AnchorGeom, Option<WarmPoint>) -> PointNumbers,
    W: Fn(PointConstraint, Vec3, Side, Side) -> Option<(Speeds, Speeds)>,
    D: Fn(PointConstraint, Vec3, Side, Side) -> Scalar,
    R: Fn(PointConstraint, Scalar, Vec3, Side, Side) -> Relaxed,
    H: Fn(PointConstraint, Vec3, Side, Side) -> Option<(Speeds, Speeds)>,
>(
    s1: SolveScene,
    s2: SolveScene,
    prep: ContactPrep<A, C, K, B, P>,
    arith: ContactArith<W, D, R, H>,
    freeze: bool,
    i1: Island,
    i2: Island,
    m1: BodySet,
    m2: BodySet,
    p1: Seq<WarmOutEntry>,
    p2: Seq<WarmOutEntry>,
)
    requires
        steady_prep(prep),
        steady_contact(arith),
        s1.manifolds == s2.manifolds,
        s1.bodies == s2.bodies,
        s1.table == s2.table,
        s1.params == s2.params,
        i1.bodies@ == i2.bodies@,
        i1.manifs@ == i2.manifs@,
        outcome(s1, prep, arith, freeze, i1, m1, p1),
        outcome(s2, prep, arith, freeze, i2, m2, p2),
    ensures
        p1 == p2,
        forall|u: u32| #[trigger]
            i1.bodies@.contains(u) ==> m1.linvel@[u as int] == m2.linvel@[u as int]
                && m1.angvel@[u as int] == m2.angvel@[u as int],
{
    let zero = Scalar::zero_spec();
    let ms = s1.manifolds@;
    let (x1, y1, n1, k1) = choose|
        x: GroupSpeeds,
        y: GroupSpeeds,
        totals: (int, int),
        counts: (Counters, Counters),
    |
        {
            &&& #[trigger] island_result(s1, prep, arith, i1, x, y, p1, totals, counts)
            &&& starts_fresh(s1, freeze, i1, x)
            &&& ends_in(s1, i1, m1, y)
        };
    let (x2, y2, n2, k2) = choose|
        x: GroupSpeeds,
        y: GroupSpeeds,
        totals: (int, int),
        counts: (Counters, Counters),
    |
        {
            &&& #[trigger] island_result(s2, prep, arith, i2, x, y, p2, totals, counts)
            &&& starts_fresh(s2, freeze, i2, x)
            &&& ends_in(s2, i2, m2, y)
        };
    let (l1, l2) = (s1.local_of@, s2.local_of@);
    let (ts1, tally1, c1, d1) = choose|
        ts: Seq<Seq<PointTerms>>,
        tally: Seq<Counters>,
        cs: Seq<ContactConstraint>,
        done: Seq<ContactConstraint>,
    |
        {
            &&& #[trigger] terms_given(prep, i1.manifs@, ms, s1.bodies, s1.table@, ts, tally)
            &&& tally[0] == k1.0
            &&& tally.last() == k1.1
            &&& #[trigger] built(cs, i1.manifs@, ms, s1.bodies, s1.table@, ts)
            &&& island_solved(
                arith,
                cs,
                l1,
                s1.params,
                held(cs, x1.lv, x1.av, zero),
                held(done, y1.lv, y1.av, zero),
            )
            &&& same_contacts(cs, done)
            &&& #[trigger] handed_back(p1, done)
            &&& n1 == point_totals(done)
        };
    let (ts2, tally2, c2, d2) = choose|
        ts: Seq<Seq<PointTerms>>,
        tally: Seq<Counters>,
        cs: Seq<ContactConstraint>,
        done: Seq<ContactConstraint>,
    |
        {
            &&& #[trigger] terms_given(prep, i1.manifs@, ms, s1.bodies, s1.table@, ts, tally)
            &&& tally[0] == k2.0
            &&& tally.last() == k2.1
            &&& #[trigger] built(cs, i1.manifs@, ms, s1.bodies, s1.table@, ts)
            &&& island_solved(
                arith,
                cs,
                l2,
                s1.params,
                held(cs, x2.lv, x2.av, zero),
                held(done, y2.lv, y2.av, zero),
            )
            &&& same_contacts(cs, done)
            &&& #[trigger] handed_back(p2, done)
            &&& n2 == point_totals(done)
        };
    lemma_same_built(s1, s2, prep, i1.manifs@, ts1, ts2, tally1, tally2, c1, c2);
    lemma_built(c1, i1, s1, ts1, x1.lv.len());
    assert(island_fits(&i2, ms, l2, x2.lv.len()));
    lemma_built(c2, i2, s2, ts2, x2.lv.len());
    let (sx1, sy1) = (held(c1, x1.lv, x1.av, zero), held(d1, y1.lv, y1.av, zero));
    let (sx2, sy2) = (held(c2, x2.lv, x2.av, zero), held(d2, y2.lv, y2.av, zero));
    lemma_solved_frame(arith, c1, c2, l2, s1.params, sx2, sy2);
    assert(places_fit(c1, l2, x2.lv.len())) by {
        assert forall|c: int| 0 <= c < c1.len() implies {
            &&& (#[trigger] c1[c]).a < l2.len()
            &&& c1[c].b < l2.len()
            &&& l2[c1[c].a as int] == crate::group::NO_LOCAL || l2[c1[c].a as int] < x2.lv.len()
            &&& l2[c1[c].b as int] == crate::group::NO_LOCAL || l2[c1[c].b as int] < x2.lv.len()
        } by {
            assert(c2[c].a < l2.len());
            assert(c1[c].a == c2[c].a && c1[c].b == c2[c].b);
        }
    }
    lemma_contacts_apart(s1, s2, freeze, i1, i2, x1, x2, c1);
    island_depends_on_its_own(arith, c1, l1, l2, s1.params, sx1, sy1, sx2, sy2);
    assert(points_of(d1) == points_of(d2));
    assert forall|i: int| 0 <= i < p1.len() implies p1[i] == p2[i] by {
        assert(hands_back(p1[i], d1[i]));
        assert(hands_back(p2[i], d2[i]));
        assert(c1[i].a == d1[i].a);
        assert(c2[i].a == d2[i].a);
        assert(c1[i].a == c2[i].a);
        assert(points_of(d1)[i] == d1[i].points@);
        assert(points_of(d2)[i] == d2[i].points@);
        lemma_same_entry(p1[i], p2[i], d1[i], d2[i]);
    }
    assert(p1 =~= p2);
    assert forall|u: u32| #[trigger] i1.bodies@.contains(u) implies m1.linvel@[u as int]
        == m2.linvel@[u as int] && m1.angvel@[u as int] == m2.angvel@[u as int] by {
        assert(i2.bodies@.contains(u));
        assert(concerns(i1, ms, u) && concerns(i2, ms, u));
        assert(side_at(l1, x1.lv, x1.av, u) == entering_side(s1.bodies, freeze, u));
        assert(side_at(l2, x2.lv, x2.av, u) == entering_side(s1.bodies, freeze, u));
        assert(s1.bodies.dynamic@[u as int]);
        let q1 = place_of(l1, u)->0;
        let q2 = place_of(l2, u)->0;
        if takes_part(c1, u) {
            assert(side_at(l1, sy1.lv, sy1.av, u) == side_at(l2, sy2.lv, sy2.av, u));
        } else {
            lemma_idle_body(s1, prep, arith, freeze, i1, x1, y1, p1, n1, k1, c1, ts1, u, q1);
            lemma_idle_body(s2, prep, arith, freeze, i2, x2, y2, p2, n2, k2, c2, ts2, u, q2);
        }
    }
}

/// Places of their own tell the bodies of the contacts apart alike.
proof fn lemma_contacts_apart(
    s1: SolveScene,
    s2: SolveScene,
    freeze: bool,
    i1: Island,
    i2: Island,
    x1: GroupSpeeds,
    x2: GroupSpeeds,
    cs: Seq<ContactConstraint>,
)
    requires
        s1.manifolds == s2.manifolds,
        s1.bodies == s2.bodies,
        i1.bodies@ == i2.bodies@,
        i1.manifs@ == i2.manifs@,
        starts_fresh(s1, freeze, i1, x1),
        starts_fresh(s2, freeze, i2, x2),
        forall|u: u32| #[trigger] takes_part(cs, u) ==> in_contact(i1, s1.manifolds@, u),
    ensures
        alike_places(cs, s1.local_of@, s2.local_of@),
        agree_in_speed(
            cs,
            s1.local_of@,
            held(cs, x1.lv, x1.av, Scalar::zero_spec()),
            s2.local_of@,
            held(cs, x2.lv, x2.av, Scalar::zero_spec()),
        ),
{
    let ms = s1.manifolds@;
    let (l1, l2) = (s1.local_of@, s2.local_of@);
    assert forall|u: u32| #[trigger] takes_part(cs, u) implies side_at(l1, x1.lv, x1.av, u)
        == side_at(l2, x2.lv, x2.av, u) by {
        lemma_contact_both(i1, i2, ms, u);
        assert(concerns(i1, ms, u) && concerns(i2, ms, u));
    }
    assert forall|u: u32, v: u32|
        #![trigger takes_part(cs, u), takes_part(cs, v)]
        takes_part(cs, u) && takes_part(cs, v) implies {
        &&& place_of(l1, u) is None <==> place_of(l2, u) is None
        &&& place_of(l1, u) == place_of(l1, v) <==> place_of(l2, u) == place_of(l2, v)
    } by {
        lemma_contact_both(i1, i2, ms, u);
        lemma_contact_both(i1, i2, ms, v);
        assert(concerns(i1, ms, u) && concerns(i1, ms, v));
        assert(concerns(i2, ms, u) && concerns(i2, ms, v));
        assert(side_at(l1, x1.lv, x1.av, u) == side_at(l2, x2.lv, x2.av, u));
        assert(side_at(l1, x1.lv, x1.av, v) == side_at(l2, x2.lv, x2.av, v));
    }
}

proof fn lemma_contact_both(i1: Island, i2: Island, ms: Seq<Manifold>, u: u32)
    requires
        i1.manifs@ == i2.manifs@,
        in_contact(i1, ms, u),
    ensures
        in_contact(i2, ms, u),
{
    let k = choose|k: int|
        0 <= k < i1.manifs@.len() && (ms[(#[trigger] i1.manifs@[k]) as int].a == u
            || ms[i1.manifs@[k] as int].b == u);
    assert(i2.manifs@[k] == i1.manifs@[k]);
}

/// A body of the island that is in none of its contacts keeps the speeds with which
/// it entered.
proof fn lemma_idle_body<
    A: Fn(usize, Vec3) -> Agreement,
    C: Fn(usize, ContactPoint, WarmPoint) -> WarmCandidate,
    K: Fn(usize, WarmPoint) -> Recycled,
    B: Fn(usize, ContactPoint) -> (Vec3, Vec3),
    P: Fn(usize, ContactPoint, AnchorGeom, Option<WarmPoint>) -> PointNumbers,
    W: Fn(PointConstraint, Vec3, Side, Side) -> Option<(Speeds, Speeds)>,
    D: Fn(PointConstraint, Vec3, Side, Side) -> Scalar,
    R: Fn(PointConstraint, Scalar, Vec3, Side, Side) -> Relaxed,
    H: Fn(PointConstraint, Vec3, Side, Side) -> Option<(Speeds, Speeds)>,
>(
    scene: SolveScene,
    prep: ContactPrep<A, C, K, B, P>,
    arith: ContactArith<W, D, R, H>,
    freeze: bool,
    isl: Island,
    x: GroupSpeeds,
    y: GroupSpeeds,
    part: Seq<WarmOutEntry>,
    totals: (int, int),
    counts: (Counters, Counters),
    cs: Seq<ContactConstraint>,
    ts: Seq<Seq<PointTerms>>,
    u: u32,
    q: usize,
)
    requires
        starts_fresh(scene, freeze, isl, x),
        built(cs, isl.manifs@, scene.manifolds@, scene.bodies, scene.table@, ts),
        exists|done: Seq<ContactConstraint>| #[trigger]
            handed_back(part, done) && island_solved(
                arith,
                cs,
                scene.local_of@,
                scene.params,
                held(cs, x.lv, x.av, Scalar::zero_spec()),
                held(done, y.lv, y.av, Scalar::zero_spec()),
            ),
        isl.bodies@.contains(u),
        !takes_part(cs, u),
        place_of(scene.local_of@, u) == Some(q),
    ensures
        y.lv[q as int] == x.lv[q as int],
        y.av[q as int] == x.av[q as int],
{
    let l = scene.local_of@;
    let ms = scene.manifolds@;
    let zero = Scalar::zero_spec();
    let done = choose|done: Seq<ContactConstraint>| #[trigger]
        handed_back(part, done) && island_solved(
            arith,
            cs,
            l,
            scene.params,
            held(cs, x.lv, x.av, zero),
            held(done, y.lv, y.av, zero),
        );
    lemma_built(cs, isl, scene, ts, x.lv.len());
    let (sx, sy) = (held(cs, x.lv, x.av, zero), held(done, y.lv, y.av, zero));
    solving_changes_only_its_own(arith, cs, l, scene.params, sx, sy);
    assert(concerns(isl, ms, u));
    assert(foreign(cs, l, q)) by {
        assert forall|c: int| 0 <= c < cs.len() implies place_of(l, (#[trigger] cs[c]).a) != Some(q)
            && place_of(l, cs[c].b) != Some(q) by {
            let (a, b) = (cs[c].a, cs[c].b);
            assert(takes_part(cs, a) && takes_part(cs, b));
            assert(concerns(isl, ms, a) && concerns(isl, ms, b));
        }
    }
    assert(same_speeds(sx, sy, q as int));
}

/// Where a body of an island has its place: a body that can move is in the island and
/// in the list of its group, any other has no place.
proof fn lemma_where(
    phase: Phase,
    bodies: &BodySet,
    ms: Seq<Manifold>,
    threads: int,
    freeze: bool,
    g: int,
    s: int,
    u: u32,
)
    requires
        bodies.wf(),
        bodies.count() <= u32::MAX,
        manifolds_in(ms, bodies.count() as int),
        phase.begun(bodies, ms, threads, freeze),
        0 <= g < phase.groups.ranges@.len(),
        phase.groups.ranges@[g].0 <= s < phase.groups.ranges@[g].1,
        concerns(phase.islands@[s], ms, u),
    ensures
        0 <= s < phase.islands@.len(),
        u < bodies.count(),
        bodies.dynamic@[u as int] ==> {
            &&& in_island(phase.islands@, s, u as int)
            &&& exists|k: int|
                0 <= k < group_members(
                    phase.islands@,
                    phase.groups.ranges@.len() as int,
                    g,
                ).len() && #[trigger] group_members(
                    phase.islands@,
                    phase.groups.ranges@.len() as int,
                    g,
                )[k] == u && place_of(phase.bufs.local_of@, u) == Some(k as usize) && k
                    < u32::MAX
        },
        !bodies.dynamic@[u as int] ==> place_of(phase.bufs.local_of@, u) is None,
        phase.islands@[s].bodies@.contains(u) ==> bodies.dynamic@[u as int],
{
    let islands = phase.islands@;
    let count = phase.groups.ranges@.len() as int;
    let m = islands.len() as int;
    let roots = roots_of(phase.parent@);
    groups_tile_the_islands(m, count, g);
    let isl = islands[s];
    let i = u as int;
    let heads = leaders(bodies, roots, bodies.count());
    let r = roots[heads[s]];
    assert(island_of(&islands[s], bodies, roots, ms, r));
    lemma_in_island(islands, bodies, roots, ms, s, i);
    if isl.bodies@.contains(u) {
        let k = choose|k: int| 0 <= k < isl.bodies@.len() && isl.bodies@[k] == u;
        assert(ints_u32(isl.bodies@)[k] == i);
        assert(in_island(islands, s, i));
    } else {
        let k = choose|k: int|
            0 <= k < isl.manifs@.len() && (ms[(#[trigger] isl.manifs@[k]) as int].a == u
                || ms[isl.manifs@[k] as int].b == u);
        let p = manifold_with(bodies, roots, ms, r);
        lemma_indices_where(p, ms.len());
        assert(ints_usize(isl.manifs@)[k] == isl.manifs@[k]);
        let mi = isl.manifs@[k] as int;
        assert(indices_where(p, ms.len())[k] == mi);
        assert(p(mi));
        let (a, b) = (ms[mi].a as int, ms[mi].b as int);
        assert(ms[mi].a < bodies.count() && ms[mi].b < bodies.count());
        if bodies.dynamic@[a] && bodies.dynamic@[b] {
            assert(touch(bodies.dynamic@, ms, a, b));
            let path = seq![a, b];
            assert(chain(bodies.dynamic@, ms, path));
            assert(path[0] == a && path.last() == b);
            assert(connected(bodies.dynamic@, ms, a, b));
            assert(root_of(phase.parent@, a) == root_of(phase.parent@, b));
        }
    }
    if bodies.dynamic@[i] {
        lemma_members_hold(
            islands,
            group_start(m, count, g),
            group_start(m, count, g + 1),
            s,
            i,
        );
        let ids = group_members(islands, count, g);
        let k = choose|k: int| 0 <= k < ids.len() && ids[k] == u;
        assert(phase.bufs.local_of@[group_members(islands, count, g)[k] as int] == k);
        lemma_group_len(islands, bodies.count() as int, count, g);
        assert(group_members(islands, count, g)[k] == u);
    } else {
        if members(islands, 0, m).contains(u) {
            lemma_members_come_from(islands, 0, m, i);
            let t = choose|t: int| 0 <= t < m && #[trigger] in_island(islands, t, i);
            lemma_in_island(islands, bodies, roots, ms, t, i);
        }
        assert(phase.bufs.local_of@[i] == NO_LOCAL);
    }
}

/// A group has no more bodies than there are.
proof fn lemma_group_len(islands: Seq<Island>, n: int, count: int, g: int)
    requires
        listed_once(islands, n),
        count >= 1,
        0 <= g < count,
        n >= 0,
    ensures
        group_members(islands, count, g).len() <= n,
{
    let m = islands.len() as int;
    groups_tile_the_islands(m, count, g);
    lemma_members_split(islands, 0, group_start(m, count, g), m);
    lemma_members_split(islands, group_start(m, count, g), group_start(m, count, g + 1), m);
    lemma_listed_len(islands, n);
}

/// Islands of a run keep the speeds at a place that none of their bodies has.
proof fn lemma_run_keeps<
    A: Fn(usize, Vec3) -> Agreement,
    C: Fn(usize, ContactPoint, WarmPoint) -> WarmCandidate,
    K: Fn(usize, WarmPoint) -> Recycled,
    B: Fn(usize, ContactPoint) -> (Vec3, Vec3),
    P: Fn(usize, ContactPoint, AnchorGeom, Option<WarmPoint>) -> PointNumbers,
    W: Fn(PointConstraint, Vec3, Side, Side) -> Option<(Speeds, Speeds)>,
    D: Fn(PointConstraint, Vec3, Side, Side) -> Scalar,
    R: Fn(PointConstraint, Scalar, Vec3, Side, Side) -> Relaxed,
    H: Fn(PointConstraint, Vec3, Side, Side) -> Option<(Speeds, Speeds)>,
>(
    scene: SolveScene,
    prep: ContactPrep<A, C, K, B, P>,
    arith: ContactArith<W, D, R, H>,
    islands: Seq<Island>,
    lo: int,
    speeds: Seq<GroupSpeeds>,
    parts: Seq<Seq<WarmOutEntry>>,
    totals: Seq<(int, int)>,
    counts: Seq<Counters>,
    n: nat,
    j: int,
    k: int,
    q: usize,
)
    requires
        islands_run(scene, prep, arith, islands, lo, speeds, parts, totals, counts),
        0 <= j <= k <= parts.len(),
        speeds[j].lv.len() == n,
        speeds[j].av.len() == n,
        forall|t: int|
            lo <= t < lo + parts.len() ==> island_fits(
                #[trigger] &islands[t],
                scene.manifolds@,
                scene.local_of@,
                n,
            ),
        q < n,
        forall|t: int, u: u32|
            lo + j <= t < lo + k && #[trigger] in_contact(islands[t], scene.manifolds@, u)
                ==> place_of(scene.local_of@, u) != Some(q),
    ensures
        speeds[k].lv.len() == n,
        speeds[k].av.len() == n,
        speeds[k].lv[q as int] == speeds[j].lv[q as int],
        speeds[k].av[q as int] == speeds[j].av[q as int],
    decreases k - j,
{
    if j < k {
        lemma_run_keeps(
            scene,
            prep,
            arith,
            islands,
            lo,
            speeds,
            parts,
            totals,
            counts,
            n,
            j,
            k - 1,
            q,
        );
        let t = lo + k - 1;
        assert(island_fits(&islands[t], scene.manifolds@, scene.local_of@, n));
        assert(parts[k - 1] == parts[k - 1]);
        lemma_island_keeps(
            scene,
            prep,
            arith,
            islands[lo + (k - 1)],
            speeds[k - 1],
            speeds[k - 1 + 1],
            parts[k - 1],
            totals[k - 1],
            (counts[k - 1], counts[k - 1 + 1]),
            q,
        );
    }
}

/// The lists of a run keep their lengths.
pub proof fn lemma_run_lengths<
    A: Fn(usize, Vec3) -> Agreement,
    C: Fn(usize, ContactPoint, WarmPoint) -> WarmCandidate,
    K: Fn(usize, WarmPoint) -> Recycled,
    B: Fn(usize, ContactPoint) -> (Vec3, Vec3),
    P: Fn(usize, ContactPoint, AnchorGeom, Option<WarmPoint>) -> PointNumbers,
    W: Fn(PointConstraint, Vec3, Side, Side) -> Option<(Speeds, Speeds)>,
    D: Fn(PointConstraint, Vec3, Side, Side) -> Scalar,
    R: Fn(PointConstraint, Scalar, Vec3, Side, Side) -> Relaxed,
    H: Fn(PointConstraint, Vec3, Side, Side) -> Option<(Speeds, Speeds)>,
>(
    scene: SolveScene,
    prep: ContactPrep<A, C, K, B, P>,
    arith: ContactArith<W, D, R, H>,
    islands: Seq<Island>,
    lo: int,
    speeds: Seq<GroupSpeeds>,
    parts: Seq<Seq<WarmOutEntry>>,
    totals: Seq<(int, int)>,
    counts: Seq<Counters>,
    n: nat,
    k: int,
)
    requires
        islands_run(scene, prep, arith, islands, lo, speeds, parts, totals, counts),
        0 <= k <= parts.len(),
        speeds[0].lv.len() == n,
        speeds[0].av.len() == n,
        forall|t: int|
            lo <= t < lo + parts.len() ==> island_fits(
                #[trigger] &islands[t],
                scene.manifolds@,
                scene.local_of@,
                n,
            ),
    ensures
        speeds[k].lv.len() == n,
        speeds[k].av.len() == n,
    decreases k,
{
    if k > 0 {
        lemma_run_lengths(
            scene,
            prep,
            arith,
            islands,
            lo,
            speeds,
            parts,
            totals,
            counts,
            n,
            k - 1,
        );
        assert(island_fits(&islands[lo + (k - 1)], scene.manifolds@, scene.local_of@, n));
        assert(parts[k - 1] == parts[k - 1]);
        lemma_island_keeps(
            scene,
            prep,
            arith,
            islands[lo + (k - 1)],
            speeds[k - 1],
            speeds[k - 1 + 1],
            parts[k - 1],
            totals[k - 1],
            (counts[k - 1], counts[k - 1 + 1]),
            0,
        );
    }
}

/// A place of a body of island `s` is that of no body of another island of the group.
proof fn lemma_foreign_place(
    phase: Phase,
    bodies: &BodySet,
    ms: Seq<Manifold>,
    threads: int,
    freeze: bool,
    g: int,
    s: int,
    t: int,
    u: u32,
    v: u32,
)
    requires
        bodies.wf(),
        bodies.count() <= u32::MAX,
        manifolds_in(ms, bodies.count() as int),
        phase.begun(bodies, ms, threads, freeze),
        0 <= g < phase.groups.ranges@.len(),
        phase.groups.ranges@[g].0 <= s < phase.groups.ranges@[g].1,
        phase.groups.ranges@[g].0 <= t < phase.groups.ranges@[g].1,
        concerns(phase.islands@[s], ms, u),
        concerns(phase.islands@[t], ms, v),
        place_of(phase.bufs.local_of@, u) is Some,
        place_of(phase.bufs.local_of@, u) == place_of(phase.bufs.local_of@, v),
    ensures
        s == t,
        u == v,
{
    let islands = phase.islands@;
    let count = phase.groups.ranges@.len() as int;
    lemma_where(phase, bodies, ms, threads, freeze, g, s, u);
    lemma_where(phase, bodies, ms, threads, freeze, g, t, v);
    let j = choose|k: int|
        0 <= k < group_members(islands, count, g).len() && #[trigger] group_members(
            islands,
            count,
            g,
        )[k] == u && place_of(phase.bufs.local_of@, u) == Some(k as usize) && k < u32::MAX;
    let k = choose|k: int|
        0 <= k < group_members(islands, count, g).len() && #[trigger] group_members(
            islands,
            count,
            g,
        )[k] == v && place_of(phase.bufs.local_of@, v) == Some(k as usize) && k < u32::MAX;
    assert(j == k);
    islands_are_disjoint(islands, bodies, roots_of(phase.parent@), ms);
    assert(in_island(islands, s, u as int) && in_island(islands, t, u as int));
}

/// What the islands of a group came to.
proof fn lemma_group_outcomes<
    A: Fn(usize, Vec3) -> Agreement,
    C: Fn(usize, ContactPoint, WarmPoint) -> WarmCandidate,
    K: Fn(usize, WarmPoint) -> Recycled,
    B: Fn(usize, ContactPoint) -> (Vec3, Vec3),
    P: Fn(usize, ContactPoint, AnchorGeom, Option<WarmPoint>) -> PointNumbers,
    W: Fn(PointConstraint, Vec3, Side, Side) -> Option<(Speeds, Speeds)>,
    D: Fn(PointConstraint, Vec3, Side, Side) -> Scalar,
    R: Fn(PointConstraint, Scalar, Vec3, Side, Side) -> Relaxed,
    H: Fn(PointConstraint, Vec3, Side, Side) -> Option<(Speeds, Speeds)>,
>(
    scene: SolveScene,
    prep: ContactPrep<A, C, K, B, P>,
    arith: ContactArith<W, D, R, H>,
    phase: Phase,
    threads: int,
    freeze: bool,
    lv: Seq<Vec<Vec3>>,
    av: Seq<Vec<Vec3>>,
    moved: BodySet,
    g: int,
    entries: Seq<WarmOutEntry>,
    total: (int, int),
    counts: (Counters, Counters),
) -> (parts: Seq<Seq<WarmOutEntry>>)
    requires
        scene.bodies.wf(),
        scene.bodies.count() <= u32::MAX,
        manifolds_in(scene.manifolds@, scene.bodies.count() as int),
        phase.begun(scene.bodies, scene.manifolds@, threads, freeze),
        scene.local_of@ == phase.bufs.local_of@,
        0 <= g < phase.groups.ranges@.len(),
        group_result(
            scene,
            prep,
            arith,
            phase.islands@,
            phase.groups.ranges@[g].0 as int,
            phase.groups.ranges@[g].1 as int,
            (GroupSpeeds { lv: phase.bufs.lv@[g]@, av: phase.bufs.av@[g]@ }),
            (GroupSpeeds { lv: lv[g]@, av: av[g]@ }),
            entries,
            total,
            counts,
        ),
        scattered(
            scene.bodies.linvel@,
            moved.linvel@,
            lv,
            phase.islands@,
            phase.groups.ranges@.len() as int,
        ),
        scattered(
            scene.bodies.angvel@,
            moved.angvel@,
            av,
            phase.islands@,
            phase.groups.ranges@.len() as int,
        ),
    ensures
        parts.len() == phase.groups.ranges@[g].1 - phase.groups.ranges@[g].0,
        entries == all_entries(parts),
        forall|k: int|
            0 <= k < parts.len() ==> outcome(
                scene,
                prep,
                arith,
                freeze,
                phase.islands@[phase.groups.ranges@[g].0 + k],
                moved,
                #[trigger] parts[k],
            ),
{
    let islands = phase.islands@;
    let (bodies, ms, l) = (scene.bodies, scene.manifolds@, scene.local_of@);
    let count = phase.groups.ranges@.len() as int;
    let (lo, hi) = (phase.groups.ranges@[g].0 as int, phase.groups.ranges@[g].1 as int);
    let ids = group_members(islands, count, g);
    let n = ids.len();
    groups_tile_the_islands(islands.len() as int, count, g);
    let first = GroupSpeeds { lv: phase.bufs.lv@[g]@, av: phase.bufs.av@[g]@ };
    let last = GroupSpeeds { lv: lv[g]@, av: av[g]@ };
    let (speeds, parts, totals, tally) = choose|
        speeds: Seq<GroupSpeeds>,
        parts: Seq<Seq<WarmOutEntry>>,
        totals: Seq<(int, int)>,
        tally: Seq<Counters>,
    |
        {
            &&& #[trigger] islands_run(
                scene,
                prep,
                arith,
                islands,
                lo,
                speeds,
                parts,
                totals,
                tally,
            )
            &&& tally[0] == counts.0
            &&& tally.last() == counts.1
            &&& parts.len() == hi - lo
            &&& speeds[0] == first
            &&& speeds.last() == last
            &&& entries == all_entries(parts)
            &&& total == sum_totals(totals)
        };
    assert(phase.bufs.holds(bodies, freeze, g, ids));
    lemma_group_len(islands, bodies.count() as int, count, g);
    assert forall|t: int| lo <= t < lo + parts.len() implies island_fits(
        #[trigger] &islands[t],
        ms,
        l,
        n,
    ) by {
        lemma_group_fits(phase, bodies, ms, threads, freeze, g, t);
    }
    assert forall|k: int| 0 <= k < parts.len() implies outcome(
        scene,
        prep,
        arith,
        freeze,
        islands[lo + k],
        moved,
        #[trigger] parts[k],
    ) by {
        let s = lo + k;
        let isl = islands[s];
        let (x, y) = (speeds[k], speeds[k + 1]);
        lemma_run_lengths(scene, prep, arith, islands, lo, speeds, parts, totals, tally, n, k);
        lemma_run_lengths(scene, prep, arith, islands, lo, speeds, parts, totals, tally, n, k + 1);
        assert(island_fits(&islands[s], ms, l, n));
        assert forall|u: u32| #[trigger] concerns(isl, ms, u) implies side_at(l, x.lv, x.av, u)
            == entering_side(bodies, freeze, u) && (isl.bodies@.contains(u)
            ==> bodies.dynamic@[u as int] && (place_of(l, u) matches Some(q) ==> {
            &&& q < n
            &&& moved.linvel@[u as int] == y.lv[q as int]
            &&& moved.angvel@[u as int] == y.av[q as int]
        })) by {
            lemma_where(phase, bodies, ms, threads, freeze, g, s, u);
            if bodies.dynamic@[u as int] {
                let p = choose|p: int|
                    0 <= p < ids.len() && #[trigger] group_members(islands, count, g)[p] == u
                        && place_of(l, u) == Some(p as usize) && p < u32::MAX;
                let q = p as usize;
                assert forall|t: int, v: u32|
                    lo <= t < hi && t != s && #[trigger] in_contact(
                        islands[t],
                        ms,
                        v,
                    ) implies place_of(l, v) != Some(q) by {
                    if place_of(l, v) == Some(q) {
                        assert(concerns(islands[t], ms, v));
                        lemma_foreign_place(phase, bodies, ms, threads, freeze, g, s, t, u, v);
                    }
                }
                lemma_run_keeps(
                    scene,
                    prep,
                    arith,
                    islands,
                    lo,
                    speeds,
                    parts,
                    totals,
                    tally,
                    n,
                    0,
                    k,
                    q,
                );
                assert(first.lv[p] == crate::group::entering_linvel(bodies, freeze, ids[p] as int));
                assert(first.av[p] == crate::group::entering_angvel(bodies, freeze, ids[p] as int));
                lemma_run_keeps(
                    scene,
                    prep,
                    arith,
                    islands,
                    lo,
                    speeds,
                    parts,
                    totals,
                    tally,
                    n,
                    k + 1,
                    parts.len() as int,
                    q,
                );
                assert(moved.linvel@[group_members(islands, count, g)[p] as int] == lv[g]@[p]);
                assert(moved.angvel@[group_members(islands, count, g)[p] as int] == av[g]@[p]);
            }
        }
        assert(starts_fresh(scene, freeze, isl, x)) by {
            assert forall|u: u32, v: u32|
                #![trigger concerns(isl, ms, u), concerns(isl, ms, v)]
                concerns(isl, ms, u) && concerns(isl, ms, v) && place_of(l, u) == place_of(l, v)
                    && place_of(l, u) is Some implies u == v by {
                lemma_foreign_place(phase, bodies, ms, threads, freeze, g, s, s, u, v);
            }
            assert forall|u: u32|
                #![trigger isl.bodies@.contains(u)]
                isl.bodies@.contains(u) implies bodies.dynamic@[u as int] && (place_of(
                l,
                u,
            ) matches Some(q) ==> q < x.lv.len()) by {
                assert(concerns(isl, ms, u));
            }
        }
        assert(ends_in(scene, isl, moved, y)) by {
            assert forall|u: u32|
                #![trigger isl.bodies@.contains(u)]
                isl.bodies@.contains(u) implies (place_of(l, u) matches Some(q) ==> {
                &&& moved.linvel@[u as int] == y.lv[q as int]
                &&& moved.angvel@[u as int] == y.av[q as int]
            }) by {
                assert(concerns(isl, ms, u));
            }
        }
        assert(island_result(
            scene,
            prep,
            arith,
            islands[lo + k],
            x,
            y,
            parts[k],
            totals[k],
            (tally[k], tally[k + 1]),
        ));
    }
    parts
}

/// Lists one after the other, joined.
proof fn lemma_all_entries_join(x: Seq<Seq<WarmOutEntry>>, y: Seq<Seq<WarmOutEntry>>)
    ensures
        all_entries(x + y) == all_entries(x) + all_entries(y),
    decreases y.len(),
{
    if y.len() == 0 {
        assert(x + y =~= x);
        assert(all_entries(x) + all_entries(y) =~= all_entries(x));
    } else {
        lemma_all_entries_join(x, y.drop_last());
        assert((x + y).drop_last() =~= x + y.drop_last());
        assert((x + y).last() == y.last());
        assert(all_entries(x + y) =~= all_entries(x) + all_entries(y));
    }
}

/// What the islands of the first `k` groups came to.
pub proof fn lemma_all_outcomes<
    A: Fn(usize, Vec3) -> Agreement,
    C: Fn(usize, ContactPoint, WarmPoint) -> WarmCandidate,
    K: Fn(usize, WarmPoint) -> Recycled,
    B: Fn(usize, ContactPoint) -> (Vec3, Vec3),
    P: Fn(usize, ContactPoint, AnchorGeom, Option<WarmPoint>) -> PointNumbers,
    W: Fn(PointConstraint, Vec3, Side, Side) -> Option<(Speeds, Speeds)>,
    D: Fn(PointConstraint, Vec3, Side, Side) -> Scalar,
    R: Fn(PointConstraint, Scalar, Vec3, Side, Side) -> Relaxed,
    H: Fn(PointConstraint, Vec3, Side, Side) -> Option<(Speeds, Speeds)>,
>(
    scene: SolveScene,
    prep: ContactPrep<A, C, K, B, P>,
    arith: ContactArith<W, D, R, H>,
    phase: Phase,
    threads: int,
    freeze: bool,
    lv: Seq<Vec<Vec3>>,
    av: Seq<Vec<Vec3>>,
    outs: Seq<Vec<WarmOutEntry>>,
    totals: Seq<(int, int)>,
    tally: Seq<Counters>,
    moved: BodySet,
    k: int,
) -> (parts: Seq<Seq<WarmOutEntry>>)
    requires
        scene.bodies.wf(),
        scene.bodies.count() <= u32::MAX,
        manifolds_in(scene.manifolds@, scene.bodies.count() as int),
        phase.begun(scene.bodies, scene.manifolds@, threads, freeze),
        scene.local_of@ == phase.bufs.local_of@,
        0 <= k <= phase.groups.ranges@.len(),
        groups_solved(scene, prep, arith, phase, lv, av, outs, totals, tally),
        scattered(
            scene.bodies.linvel@,
            moved.linvel@,
            lv,
            phase.islands@,
            phase.groups.ranges@.len() as int,
        ),
        scattered(
            scene.bodies.angvel@,
            moved.angvel@,
            av,
            phase.islands@,
            phase.groups.ranges@.len() as int,
        ),
    ensures
        parts.len() == group_start(
            phase.islands@.len() as int,
            phase.groups.ranges@.len() as int,
            k,
        ),
        joined(outs, k) == all_entries(parts),
        forall|s: int|
            0 <= s < parts.len() ==> outcome(
                scene,
                prep,
                arith,
                freeze,
                phase.islands@[s],
                moved,
                #[trigger] parts[s],
            ),
    decreases k,
{
    let m = phase.islands@.len() as int;
    let count = phase.groups.ranges@.len() as int;
    groups_tile_the_islands(m, count, 0);
    if k == 0 {
        let none: Seq<Seq<WarmOutEntry>> = Seq::empty();
        none
    } else {
        let before = lemma_all_outcomes(
            scene,
            prep,
            arith,
            phase,
            threads,
            freeze,
            lv,
            av,
            outs,
            totals,
            tally,
            moved,
            k - 1,
        );
        let g = k - 1;
        groups_tile_the_islands(m, count, g);
        assert(outs[g] == outs[g]);
        let more = lemma_group_outcomes(
            scene,
            prep,
            arith,
            phase,
            threads,
            freeze,
            lv,
            av,
            moved,
            g,
            outs[g]@,
            totals[g],
            (tally[g], tally[g + 1]),
        );
        let parts = before + more;
        lemma_all_entries_join(before, more);
        assert forall|s: int| 0 <= s < parts.len() implies outcome(
            scene,
            prep,
            arith,
            freeze,
            phase.islands@[s],
            moved,
            #[trigger] parts[s],
        ) by {
            if s < before.len() {
                assert(parts[s] == before[s]);
            } else {
                assert(parts[s] == more[s - before.len()]);
                assert(phase.groups.ranges@[g].0 + (s - before.len()) == s);
            }
        }
        parts
    }
}

/// The islands hold the same bodies and manifolds.
pub open spec fn same_islands(x: Seq<Island>, y: Seq<Island>) -> bool {
    &&& x.len() == y.len()
    &&& forall|s: int|
        #![trigger x[s]]
        #![trigger y[s]]
        0 <= s < x.len() ==> x[s].bodies@ == y[s].bodies@ && x[s].manifs@ == y[s].manifs@
}

/// A scene has one list of islands, however they are grouped.
pub proof fn islands_are_determined(
    p: Phase,
    q: Phase,
    bodies: &BodySet,
    ms: Seq<Manifold>,
)
    requires
        bodies.wf(),
        p.of(bodies, ms),
        q.of(bodies, ms),
    ensures
        same_islands(p.islands@, q.islands@),
{
    let dynamic = bodies.dynamic@;
    assert forall|i: int| 0 <= i < bodies.count() implies root_of(p.parent@, i) == root_of(
        q.parent@,
        i,
    ) by {
        lemma_connected_self(dynamic, ms, i);
        lemma_root_is_fixed(p.parent@, i);
        lemma_root_is_fixed(q.parent@, i);
        root_is_smallest_of_component(p.parent@, dynamic, ms, i, i);
        root_is_smallest_of_component(q.parent@, dynamic, ms, i, i);
        root_is_smallest_of_component(p.parent@, dynamic, ms, i, root_of(q.parent@, i));
        root_is_smallest_of_component(q.parent@, dynamic, ms, i, root_of(p.parent@, i));
    }
    let roots = roots_of(p.parent@);
    assert(roots =~= roots_of(q.parent@));
    let heads = leaders(bodies, roots, bodies.count());
    assert forall|s: int|
        #![trigger p.islands@[s]]
        #![trigger q.islands@[s]]
        0 <= s < p.islands@.len() implies p.islands@[s].bodies@ == q.islands@[s].bodies@
        && p.islands@[s].manifs@ == q.islands@[s].manifs@ by {
        let (x, y) = (p.islands@[s], q.islands@[s]);
        assert(island_of(&p.islands@[s], bodies, roots, ms, roots[heads[s]]));
        assert(island_of(&q.islands@[s], bodies, roots, ms, roots[heads[s]]));
        assert(ints_u32(x.bodies@) == ints_u32(y.bodies@));
        assert(ints_usize(x.manifs@) == ints_usize(y.manifs@));
        assert(ints_u32(x.bodies@).len() == x.bodies@.len());
        assert(ints_u32(y.bodies@).len() == y.bodies@.len());
        assert(ints_usize(x.manifs@).len() == x.manifs@.len());
        assert(ints_usize(y.manifs@).len() == y.manifs@.len());
        assert forall|k: int| 0 <= k < x.bodies@.len() implies x.bodies@[k] == y.bodies@[k] by {
            assert(ints_u32(x.bodies@)[k] == x.bodies@[k]);
            assert(ints_u32(y.bodies@)[k] == y.bodies@[k]);
        }
        assert forall|k: int| 0 <= k < x.manifs@.len() implies x.manifs@[k] == y.manifs@[k] by {
            assert(ints_usize(x.manifs@)[k] == x.manifs@[k]);
            assert(ints_usize(y.manifs@)[k] == y.manifs@[k]);
        }
        assert(x.bodies@ =~= y.bodies@);
        assert(x.manifs@ =~= y.manifs@);
    }
}

/// The bodies of same islands are the same.
proof fn lemma_same_members(x: Seq<Island>, y: Seq<Island>, k: int)
    requires
        same_islands(x, y),
        0 <= k <= x.len(),
    ensures
        members(x, 0, k) == members(y, 0, k),
    decreases k,
{
    if k > 0 {
        lemma_same_members(x, y, k - 1);
        assert(x[k - 1].bodies@ == y[k - 1].bodies@);
    }
}

/// Two sets of bodies agree in everything.
pub open spec fn same_bodies(x: &BodySet, y: &BodySet) -> bool {
    &&& x.dynamic@ == y.dynamic@
    &&& x.awake@ == y.awake@
    &&& x.position@ == y.position@
    &&& x.rotation@ == y.rotation@
    &&& x.linvel@ == y.linvel@
    &&& x.angvel@ == y.angvel@
    &&& x.sleep_timer@ == y.sleep_timer@
}

/// The measure gives the same answer for the same bodies.
pub open spec fn steady_measure<M: Fn(&BodySet) -> (Vec<Heat>, Vec<Motion>)>(measure: M) -> bool {
    forall|
        x: &BodySet,
        y: &BodySet,
        r: (Vec<Heat>, Vec<Motion>),
        s: (Vec<Heat>, Vec<Motion>),
    | #[trigger]
        measure.ensures((x,), r) && #[trigger] measure.ensures((y,), s) && same_bodies(x, y)
            ==> r.0@ == s.0@ && r.1@ == s.1@
}

proof fn lemma_judged_alike(
    st: SleepState,
    was_awake: Seq<bool>,
    x: Seq<Island>,
    y: Seq<Island>,
    ms: Seq<Manifold>,
    heat: Seq<Heat>,
    motion: Seq<Motion>,
    dt: Scalar,
    sleep_time: Scalar,
    gate: u32,
    k: int,
)
    requires
        same_islands(x, y),
        0 <= k <= x.len(),
    ensures
        all_judged(st, was_awake, x, ms, heat, motion, dt, sleep_time, gate, k) == all_judged(
            st,
            was_awake,
            y,
            ms,
            heat,
            motion,
            dt,
            sleep_time,
            gate,
            k,
        ),
    decreases k,
{
    if k > 0 {
        lemma_judged_alike(
            st,
            was_awake,
            x,
            y,
            ms,
            heat,
            motion,
            dt,
            sleep_time,
            gate,
            k - 1,
        );
        assert(x[k - 1].bodies@ == y[k - 1].bodies@);
    }
}

proof fn lemma_resets_alike(motion: Seq<Motion>, x: Seq<Island>, y: Seq<Island>, k: int)
    requires
        same_islands(x, y),
        0 <= k <= x.len(),
    ensures
        resets(motion, x, k) == resets(motion, y, k),
    decreases k,
{
    if k > 0 {
        lemma_resets_alike(motion, x, y, k - 1);
        assert(x[k - 1].bodies@ == y[k - 1].bodies@);
    }
}

/// The same islands with the same bodies are judged alike.
proof fn lemma_slept_alike(
    m1: &BodySet,
    m2: &BodySet,
    a1: &BodySet,
    a2: &BodySet,
    x: Seq<Island>,
    y: Seq<Island>,
    ms: Seq<Manifold>,
    heat: Seq<Heat>,
    motion: Seq<Motion>,
    config: SleepConfig,
    dt: Scalar,
    cleanup: bool,
    streak: Seq<u32>,
    s1: Seq<u32>,
    s2: Seq<u32>,
)
    requires
        same_islands(x, y),
        same_bodies(m1, m2),
        m1.wf(),
        same_frame(m1, a1),
        same_frame(m2, a2),
        slept(m1, a1, x, ms, heat, motion, config, dt, cleanup, streak, s1),
        slept(m2, a2, y, ms, heat, motion, config, dt, cleanup, streak, s2),
    ensures
        same_bodies(a1, a2),
{
    let m = x.len() as int;
    if cleanup {
    } else if config.per_body {
        let fresh = if m > 0 {
            fresh_streak(streak, m1.count(), config.wake_gate_k)
        } else {
            streak
        };
        lemma_judged_alike(
            sleep_state(m1, fresh),
            m1.awake@,
            x,
            y,
            ms,
            heat,
            motion,
            dt,
            config.sleep_time,
            config.wake_gate_k,
            m,
        );
        assert(sleep_state(m1, fresh) == sleep_state(m2, fresh));
        assert(sleep_state(a1, s1) == sleep_state(a2, s2));
        assert(sleep_state(a1, s1).awake == a1.awake@ && sleep_state(a2, s2).awake == a2.awake@);
    } else {
        lemma_same_members(x, y, m);
        let n = m1.count() as int;
        assert forall|i: int| 0 <= i < n implies #[trigger] a1.awake@[i] == a2.awake@[i]
            && a1.sleep_timer@[i] == a2.sleep_timer@[i] && a1.linvel@[i] == a2.linvel@[i]
            && a1.angvel@[i] == a2.angvel@[i] by {
            let u = i as u32;
            if members(x, 0, m).contains(u) {
                lemma_members_come_from(x, 0, m, i);
                let s = choose|s: int| 0 <= s < m && #[trigger] in_island(x, s, i);
                let ids = x[s].bodies@;
                let k = choose|k: int| 0 <= k < ints_u32(ids).len() && ints_u32(ids)[k] == i;
                assert(ids[k] == u);
                assert(y[s].bodies@ == ids);
                assert(settled_with(m1, a1, motion, dt, config.sleep_time, ids, ids[k] as int));
                assert(settled_with(
                    m2,
                    a2,
                    motion,
                    dt,
                    config.sleep_time,
                    y[s].bodies@,
                    y[s].bodies@[k] as int,
                ));
                lemma_same_rest(m1, m2, motion, dt, ids, ids.len() as int);
            } else {
                assert(untouched(m1, a1, i));
                assert(untouched(m2, a2, i));
            }
        }
        assert(a1.awake@ =~= a2.awake@);
        assert forall|i: int| 0 <= i < n implies a1.sleep_timer@[i] == a2.sleep_timer@[i]
            && a1.linvel@[i] == a2.linvel@[i] && a1.angvel@[i] == a2.angvel@[i] by {
            assert(a1.awake@[i] == a2.awake@[i]);
        }
        assert(a1.sleep_timer@ =~= a2.sleep_timer@);
        assert(a1.linvel@ =~= a2.linvel@);
        assert(a1.angvel@ =~= a2.angvel@);
    }
}

/// The entries and the speeds that the groups of a scene end with are the same for
/// any two groupings.
proof fn lemma_groupings_match<
    A: Fn(usize, Vec3) -> Agreement,
    C: Fn(usize, ContactPoint, WarmPoint) -> WarmCandidate,
    K: Fn(usize, WarmPoint) -> Recycled,
    B: Fn(usize, ContactPoint) -> (Vec3, Vec3),
    P: Fn(usize, ContactPoint, AnchorGeom, Option<WarmPoint>) -> PointNumbers,
    W: Fn(PointConstraint, Vec3, Side, Side) -> Option<(Speeds, Speeds)>,
    D: Fn(PointConstraint, Vec3, Side, Side) -> Scalar,
    R: Fn(PointConstraint, Scalar, Vec3, Side, Side) -> Relaxed,
    H: Fn(PointConstraint, Vec3, Side, Side) -> Option<(Speeds, Speeds)>,
>(
    s1: SolveScene,
    s2: SolveScene,
    prep: ContactPrep<A, C, K, B, P>,
    arith: ContactArith<W, D, R, H>,
    freeze: bool,
    n1: int,
    n2: int,
    t1: SolveTrace,
    t2: SolveTrace,
)
    requires
        s1.bodies.wf(),
        s1.bodies.count() <= u32::MAX,
        manifolds_in(s1.manifolds@, s1.bodies.count() as int),
        steady_prep(prep),
        steady_contact(arith),
        s1.manifolds == s2.manifolds,
        s1.bodies == s2.bodies,
        s1.table == s2.table,
        s1.params == s2.params,
        s1.local_of@ == t1.phase.bufs.local_of@,
        s2.local_of@ == t2.phase.bufs.local_of@,
        t1.phase.begun(s1.bodies, s1.manifolds@, n1, freeze),
        t2.phase.begun(s1.bodies, s1.manifolds@, n2, freeze),
        groups_done(s1, prep, arith, t1.phase, t1.lv, t1.av, t1.outs, t1.total, t1.counts),
        groups_done(s2, prep, arith, t2.phase, t2.lv, t2.av, t2.outs, t2.total, t2.counts),
        speeds_taken(s1.bodies, &t1.moved, t1.phase, t1.lv, t1.av),
        speeds_taken(s1.bodies, &t2.moved, t2.phase, t2.lv, t2.av),
    ensures
        same_islands(t1.phase.islands@, t2.phase.islands@),
        joined(t1.outs, t1.outs.len() as int) == joined(t2.outs, t2.outs.len() as int),
        same_bodies(&t1.moved, &t2.moved),
{
    let (p, q) = (t1.phase, t2.phase);
    let (c1, c2) = (p.groups.ranges@.len() as int, q.groups.ranges@.len() as int);
    let m = p.islands@.len() as int;
    islands_are_determined(p, q, s1.bodies, s1.manifolds@);
    let (tot1, tal1) = choose|totals: Seq<(int, int)>, tally: Seq<Counters>|
        {
            &&& #[trigger] groups_solved(
                s1,
                prep,
                arith,
                p,
                t1.lv,
                t1.av,
                t1.outs,
                totals,
                tally,
            )
            &&& t1.total == group_totals(totals)
            &&& tally[0] == t1.counts.0
            &&& tally.last() == t1.counts.1
        };
    let (tot2, tal2) = choose|totals: Seq<(int, int)>, tally: Seq<Counters>|
        {
            &&& #[trigger] groups_solved(
                s2,
                prep,
                arith,
                q,
                t2.lv,
                t2.av,
                t2.outs,
                totals,
                tally,
            )
            &&& t2.total == group_totals(totals)
            &&& tally[0] == t2.counts.0
            &&& tally.last() == t2.counts.1
        };
    groups_tile_the_islands(m, c1, 0);
    groups_tile_the_islands(m, c2, 0);
    let x = lemma_all_outcomes(
        s1,
        prep,
        arith,
        p,
        n1,
        freeze,
        t1.lv,
        t1.av,
        t1.outs,
        tot1,
        tal1,
        t1.moved,
        c1,
    );
    let y = lemma_all_outcomes(
        s2,
        prep,
        arith,
        q,
        n2,
        freeze,
        t2.lv,
        t2.av,
        t2.outs,
        tot2,
        tal2,
        t2.moved,
        c2,
    );
    assert forall|s: int| 0 <= s < m implies #[trigger] x[s] == y[s] && (forall|u: u32|
        #[trigger] p.islands@[s].bodies@.contains(u) ==> t1.moved.linvel@[u as int]
            == t2.moved.linvel@[u as int] && t1.moved.angvel@[u as int]
            == t2.moved.angvel@[u as int]) by {
        assert(p.islands@[s].bodies@ == q.islands@[s].bodies@);
        assert(y[s] == y[s]);
        lemma_outcomes_match(
            s1,
            s2,
            prep,
            arith,
            freeze,
            p.islands@[s],
            q.islands@[s],
            t1.moved,
            t2.moved,
            x[s],
            y[s],
        );
    }
    assert(x =~= y);
    lemma_same_members(p.islands@, q.islands@, m);
    let n = s1.bodies.count() as int;
    assert forall|i: int| 0 <= i < n implies #[trigger] t1.moved.linvel@[i] == t2.moved.linvel@[i]
        && t1.moved.angvel@[i] == t2.moved.angvel@[i] by {
        let u = i as u32;
        if members(p.islands@, 0, m).contains(u) {
            lemma_members_come_from(p.islands@, 0, m, i);
            let s = choose|s: int| 0 <= s < m && #[trigger] in_island(p.islands@, s, i);
            let ids = p.islands@[s].bodies@;
            let k = choose|k: int| 0 <= k < ints_u32(ids).len() && ints_u32(ids)[k] == i;
            assert(ids[k] == u);
            assert(p.islands@[s].bodies@.contains(u));
            assert(x[s] == y[s]);
        } else {
            assert(t1.moved.linvel@[i] == s1.bodies.linvel@[i]);
            assert(t2.moved.linvel@[i] == s1.bodies.linvel@[i]);
            assert(t1.moved.angvel@[i] == s1.bodies.angvel@[i]);
            assert(t2.moved.angvel@[i] == s1.bodies.angvel@[i]);
        }
    }
    assert(t1.moved.linvel@ =~= t2.moved.linvel@);
    assert forall|i: int| 0 <= i < n implies t1.moved.angvel@[i] == t2.moved.angvel@[i] by {
        assert(t1.moved.linvel@[i] == t2.moved.linvel@[i]);
    }
    assert(t1.moved.angvel@ =~= t2.moved.angvel@);
}

/// The number of threads changes nothing: two solves of the same scene that differ
/// only in it leave the same bodies and the same cache, bit for bit.
pub proof fn threads_change_nothing<
    A: Fn(usize, Vec3) -> Agreement,
    C: Fn(usize, ContactPoint, WarmPoint) -> WarmCandidate,
    K: Fn(usize, WarmPoint) -> Recycled,
    B: Fn(usize, ContactPoint) -> (Vec3, Vec3),
    P: Fn(usize, ContactPoint, AnchorGeom, Option<WarmPoint>) -> PointNumbers,
    W: Fn(PointConstraint, Vec3, Side, Side) -> Option<(Speeds, Speeds)>,
    D: Fn(PointConstraint, Vec3, Side, Side) -> Scalar,
    R: Fn(PointConstraint, Scalar, Vec3, Side, Side) -> Relaxed,
    H: Fn(PointConstraint, Vec3, Side, Side) -> Option<(Speeds, Speeds)>,
    M: Fn(&BodySet) -> (Vec<Heat>, Vec<Motion>),
>(
    before: &BodySet,
    manifolds: &[Manifold],
    config: SolveConfig,
    threads: usize,
    cleanup: bool,
    prep: ContactPrep<A, C, K, B, P>,
    arith: ContactArith<W, D, R, H>,
    measure: M,
    from: ImpulseSolver,
    after1: &BodySet,
    to1: ImpulseSolver,
    t1: SolveTrace,
    after2: &BodySet,
    to2: ImpulseSolver,
    t2: SolveTrace,
)
    requires
        before.wf(),
        before.count() <= u32::MAX,
        manifolds_in(manifolds@, before.count() as int),
        steady_prep(prep),
        steady_contact(arith),
        steady_measure(measure),
        solve_went(
            before,
            after1,
            manifolds,
            config,
            cleanup,
            prep,
            arith,
            measure,
            from,
            to1,
            t1,
        ),
        solve_went(
            before,
            after2,
            manifolds,
            (SolveConfig { threads, ..config }),
            cleanup,
            prep,
            arith,
            measure,
            from,
            to2,
            t2,
        ),
    ensures
        same_bodies(after1, after2),
        to1.warm@ == to2.warm@,
        to1.warm.stamp == to2.warm.stamp,
        to1.island_count == to2.island_count,
        to1.sleep_resets == to2.sleep_resets,
{
    let params = PhaseParams::of(config.iterations, cleanup);
    let s1 = SolveScene {
        manifolds,
        bodies: before,
        table: &from.warm,
        local_of: &t1.phase.bufs.local_of,
        params,
    };
    let s2 = SolveScene {
        manifolds,
        bodies: before,
        table: &from.warm,
        local_of: &t2.phase.bufs.local_of,
        params,
    };
    lemma_groupings_match(
        s1,
        s2,
        prep,
        arith,
        config.freeze_dormant,
        config.threads as int,
        threads as int,
        t1,
        t2,
    );
    let r1 = choose|r: (Vec<Heat>, Vec<Motion>)| #[trigger]
        measure.ensures((&t1.moved,), r) && r.0@ == t1.heat && r.1@ == t1.motion;
    let r2 = choose|r: (Vec<Heat>, Vec<Motion>)| #[trigger]
        measure.ensures((&t2.moved,), r) && r.0@ == t2.heat && r.1@ == t2.motion;
    assert(t1.heat == t2.heat && t1.motion == t2.motion);
    lemma_slept_alike(
        &t1.moved,
        &t2.moved,
        after1,
        after2,
        t1.phase.islands@,
        t2.phase.islands@,
        manifolds@,
        t1.heat,
        t1.motion,
        config.sleep,
        config.dt,
        cleanup,
        from.wake_streak@,
        to1.wake_streak@,
        to2.wake_streak@,
    );
    lemma_resets_alike(
        t1.motion,
        t1.phase.islands@,
        t2.phase.islands@,
        t1.phase.islands@.len() as int,
    );
}

} // verus!
