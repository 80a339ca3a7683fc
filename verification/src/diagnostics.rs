//! What the counters show over whole runs: the counts of bodies judged stand still
//! unless the deep level is on, and every match by distance has one cause.

use crate::body::BodySet;
use crate::constraint::{
    match_counted, AnchorGeom, ContactConstraint, PointConstraint, PointTerms, Recycled,
    WarmCandidate, WarmMatch,
};
use crate::contact::{ContactPoint, Manifold};
use crate::contact_solve::{
    built, gives_terms, group_result, handed_back, island_result, islands_run, terms_given,
    GroupSpeeds, SolveScene,
};
use crate::island::Island;
use crate::prepare::{
    cached_points, manifold_key, manifold_prepared, point_tallied, points_tallied, Agreement,
    ContactPrep, PointNumbers, PointStory,
};
use crate::relax::{ContactArith, Relaxed, Side, Speeds};
use crate::scalar::{Scalar, Vec3};
use crate::schedule::PhaseParams;
use crate::sleep::{islands_counted, Heat, Motion};
use crate::solver::{
    groups_done, groups_solved, judgement_noted, solve_went, ImpulseSolver, Phase, SolveConfig,
    SolveTrace,
};
use crate::stats::Counters;
use crate::warm::{WarmOutEntry, WarmPoint, WarmState};
use vstd::prelude::*;

verus! {

/// The counts of bodies judged are the same.
pub open spec fn same_deep(c: Counters, d: Counters) -> bool {
    c.sleep_fast_body == d.sleep_fast_body && c.sleep_body_all == d.sleep_body_all
}

/// By how much the causes of matches by distance exceed those matches.
pub open spec fn surplus(c: Counters) -> int {
    c.fallback_side + c.fallback_clip + c.fallback_hash + c.fallback_same - c.warm_fallback
}

/// Matches by distance and their causes have grown alike, up to full turns of the
/// counters.
pub open spec fn same_surplus(c: Counters, d: Counters) -> bool {
    (surplus(d) - surplus(c)) % 0x1_0000_0000_0000_0000 == 0
}

/// Neither the counts of bodies nor the balance of causes has changed.
pub open spec fn in_step(c: Counters, d: Counters) -> bool {
    same_deep(c, d) && same_surplus(c, d)
}

/// The balance carries over from one step to the next.
proof fn lemma_surplus_chain(c: Counters, d: Counters, e: Counters)
    requires
        same_surplus(c, d),
        same_surplus(d, e),
    ensures
        same_surplus(c, e),
{
    lemma_turns_join(surplus(d) - surplus(c), surplus(e) - surplus(d));
}

proof fn lemma_turns_join(x: int, y: int)
    requires
        x % 0x1_0000_0000_0000_0000 == 0,
        y % 0x1_0000_0000_0000_0000 == 0,
    ensures
        (x + y) % 0x1_0000_0000_0000_0000 == 0,
{
}

/// Beyond the lookup, preparing a point changes neither the matches nor their causes.
proof fn lemma_point_in_step(
    c: Counters,
    cp: ContactPoint,
    cached: Seq<WarmPoint>,
    agreement: Agreement,
    s: PointStory,
)
    ensures
        in_step(c, point_tallied(c, cp, cached, agreement, s)),
{
    let d = match_counted(c, s.cands, cp.feature, agreement.kept, s.found);
    let e = point_tallied(c, cp, cached, agreement, s);
    lookups_have_one_cause(c, s.cands, cp.feature, agreement.kept, s.found);
    assert(surplus(e) == surplus(d));
    assert(same_deep(c, d) && same_deep(d, e));
}

/// A lookup that falls back on distance is put down to one cause.
pub proof fn lookups_have_one_cause(
    c: Counters,
    cands: Seq<WarmCandidate>,
    feature: u32,
    normal_kept: bool,
    r: WarmMatch,
)
    ensures
        same_surplus(c, match_counted(c, cands, feature, normal_kept, r)),
{
}

proof fn lemma_points_keep_step(
    c: Counters,
    cps: Seq<ContactPoint>,
    cached: Seq<WarmPoint>,
    agreement: Agreement,
    stories: Seq<PointStory>,
    n: int,
)
    ensures
        in_step(c, points_tallied(c, cps, cached, agreement, stories, n)),
    decreases n,
{
    if n > 0 {
        lemma_points_keep_step(c, cps, cached, agreement, stories, n - 1);
        let before = points_tallied(c, cps, cached, agreement, stories, n - 1);
        lemma_point_in_step(before, cps[n - 1], cached, agreement, stories[n - 1]);
        lemma_surplus_chain(
            c,
            before,
            points_tallied(c, cps, cached, agreement, stories, n),
        );
    }
}

proof fn lemma_manifold_keeps_step<
    A: Fn(usize, Vec3) -> Agreement,
    C: Fn(usize, ContactPoint, WarmPoint) -> WarmCandidate,
    K: Fn(usize, WarmPoint) -> Recycled,
    B: Fn(usize, ContactPoint) -> (Vec3, Vec3),
    P: Fn(usize, ContactPoint, AnchorGeom, Option<WarmPoint>) -> PointNumbers,
>(
    prep: ContactPrep<A, C, K, B, P>,
    mi: usize,
    m: &Manifold,
    bodies: &BodySet,
    st: WarmState,
    t: Seq<PointTerms>,
    before: Counters,
    after: Counters,
)
    requires
        gives_terms(prep, mi, m, bodies, st, t, before, after),
    ensures
        in_step(before, after),
{
    if after != before {
        let cached = cached_points(st, manifold_key(m));
        let (agreement, stories) = choose|agreement: Agreement, stories: Seq<PointStory>| #[trigger]
            manifold_prepared(prep, mi, m, st, agreement, stories, t) && after == points_tallied(
                before,
                m.points@,
                cached,
                agreement,
                stories,
                t.len() as int,
            );
        lemma_points_keep_step(before, m.points@, cached, agreement, stories, t.len() as int);
    }
}

proof fn lemma_terms_keep_step<
    A: Fn(usize, Vec3) -> Agreement,
    C: Fn(usize, ContactPoint, WarmPoint) -> WarmCandidate,
    K: Fn(usize, WarmPoint) -> Recycled,
    B: Fn(usize, ContactPoint) -> (Vec3, Vec3),
    P: Fn(usize, ContactPoint, AnchorGeom, Option<WarmPoint>) -> PointNumbers,
>(
    prep: ContactPrep<A, C, K, B, P>,
    manifs: Seq<usize>,
    ms: Seq<Manifold>,
    bodies: &BodySet,
    st: WarmState,
    ts: Seq<Seq<PointTerms>>,
    counts: Seq<Counters>,
    k: int,
)
    requires
        terms_given(prep, manifs, ms, bodies, st, ts, counts),
        0 <= k <= ts.len(),
    ensures
        in_step(counts[0], counts[k]),
    decreases k,
{
    if k > 0 {
        lemma_terms_keep_step(prep, manifs, ms, bodies, st, ts, counts, k - 1);
        let i = k - 1;
        assert(gives_terms(
            prep,
            manifs[i],
            &ms[manifs[i] as int],
            bodies,
            st,
            ts[i],
            counts[i],
            counts[i + 1],
        ));
        lemma_manifold_keeps_step(
            prep,
            manifs[i],
            &ms[manifs[i] as int],
            bodies,
            st,
            ts[i],
            counts[i],
            counts[i + 1],
        );
        lemma_surplus_chain(counts[0], counts[i], counts[i + 1]);
    }
}

proof fn lemma_island_keeps_step<
    A: Fn(usize, Vec3) -> Agreement,
    C: Fn(usize, ContactPoint, WarmPoint) -> WarmCandidate,
    K: Fn(usize, WarmPoint) -> Recycled,
    B: Fn(usize, ContactPoint) -> (Vec3, Vec3),
    P: Fn(usize, ContactPoint, AnchorGeom, Option<WarmPoint>) -> PointNumbers,
    W: Fn(PointConstraint, Vec3, Side, Side) -> Option<(Speeds, Speeds)>,
    D: Fn(PointConstraint, Vec3, Side, Side) -> Scalar,
    R: Fn(PointConstraint, Scalar, Vec3, Side, Side) -> Relaxed,
    H: Fn(PointConstraint, Vec3, Side, Side) -> Option<(Speeds, Speeds)>,
>(
    scene: SolveScene,
    prep: ContactPrep<A, C, K, B, P>,
    arith: ContactArith<W, D, R, H>,
    isl: Island,
    x: GroupSpeeds,
    y: GroupSpeeds,
    entries: Seq<WarmOutEntry>,
    totals: (int, int),
    counts: (Counters, Counters),
)
    requires
        island_result(scene, prep, arith, isl, x, y, entries, totals, counts),
    ensures
        in_step(counts.0, counts.1),
{
    let (ts, tally, cs, done) = choose|
        ts: Seq<Seq<PointTerms>>,
        tally: Seq<Counters>,
        cs: Seq<ContactConstraint>,
        done: Seq<ContactConstraint>,
    |
        {
            &&& #[trigger] terms_given(
                prep,
                isl.manifs@,
                scene.manifolds@,
                scene.bodies,
                scene.table@,
                ts,
                tally,
            )
            &&& tally[0] == counts.0
            &&& tally.last() == counts.1
            &&& #[trigger] built(cs, isl.manifs@, scene.manifolds@, scene.bodies, scene.table@, ts)
            &&& #[trigger] handed_back(entries, done)
        };
    lemma_terms_keep_step(
        prep,
        isl.manifs@,
        scene.manifolds@,
        scene.bodies,
        scene.table@,
        ts,
        tally,
        ts.len() as int,
    );
}

proof fn lemma_run_keeps_step<
    A: Fn(usize, Vec3) -> Agreement,
    C: Fn(usize, ContactPoint, WarmPoint) -> WarmCandidate,
    K: Fn(usize, WarmPoint) -> Recycled,
    B: Fn(usize, ContactPoint) -> (Vec3, Vec3),
    P: Fn(usize, ContactPoint, AnchorGeom, Option<WarmPoint>) -> PointNumbers,
    W: Fn(PointConstraint, Vec3, Side, Side) -> Option<(Speeds, Speeds)>,
    D: Fn(PointConstraint, Vec3, Side, Side) -> Scalar,
    R: Fn(PointConstraint, Scalar, Vec3, Side, Side) -> Relaxed,
    H: Fn(PointConstraint, Vec3, Side, Side) -> Option<(Speeds, Speeds)>,
>(
    scene: SolveScene,
    prep: ContactPrep<A, C, K, B, P>,
    arith: ContactArith<W, D, R, H>,
    islands: Seq<Island>,
    lo: int,
    speeds: Seq<GroupSpeeds>,
    parts: Seq<Seq<WarmOutEntry>>,
    totals: Seq<(int, int)>,
    counts: Seq<Counters>,
    k: int,
)
    requires
        islands_run(scene, prep, arith, islands, lo, speeds, parts, totals, counts),
        0 <= k <= parts.len(),
    ensures
        in_step(counts[0], counts[k]),
    decreases k,
{
    if k > 0 {
        let i = k - 1;
        lemma_run_keeps_step(scene, prep, arith, islands, lo, speeds, parts, totals, counts, i);
        assert(island_result(
            scene,
            prep,
            arith,
            islands[lo + i],
            speeds[i],
            speeds[i + 1],
            parts[i],
            totals[i],
            (counts[i], counts[i + 1]),
        ));
        lemma_island_keeps_step(
            scene,
            prep,
            arith,
            islands[lo + i],
            speeds[i],
            speeds[i + 1],
            parts[i],
            totals[i],
            (counts[i], counts[i + 1]),
        );
        lemma_surplus_chain(counts[0], counts[i], counts[i + 1]);
    }
}

proof fn lemma_group_keeps_step<
    A: Fn(usize, Vec3) -> Agreement,
    C: Fn(usize, ContactPoint, WarmPoint) -> WarmCandidate,
    K: Fn(usize, WarmPoint) -> Recycled,
    B: Fn(usize, ContactPoint) -> (Vec3, Vec3),
    P: Fn(usize, ContactPoint, AnchorGeom, Option<WarmPoint>) -> PointNumbers,
    W: Fn(PointConstraint, Vec3, Side, Side) -> Option<(Speeds, Speeds)>,
    D: Fn(PointConstraint, Vec3, Side, Side) -> Scalar,
    R: Fn(PointConstraint, Scalar, Vec3, Side, Side) -> Relaxed,
    H: Fn(PointConstraint, Vec3, Side, Side) -> Option<(Speeds, Speeds)>,
>(
    scene: SolveScene,
    prep: ContactPrep<A, C, K, B, P>,
    arith: ContactArith<W, D, R, H>,
    islands: Seq<Island>,
    lo: int,
    hi: int,
    x: GroupSpeeds,
    y: GroupSpeeds,
    entries: Seq<WarmOutEntry>,
    total: (int, int),
    counts: (Counters, Counters),
)
    requires
        group_result(scene, prep, arith, islands, lo, hi, x, y, entries, total, counts),
    ensures
        in_step(counts.0, counts.1),
{
    let (speeds, parts, totals, tally) = choose|
        speeds: Seq<GroupSpeeds>,
        parts: Seq<Seq<WarmOutEntry>>,
        totals: Seq<(int, int)>,
        tally: Seq<Counters>,
    |
        {
            &&& #[trigger] islands_run(
                scene,
                prep,
                arith,
                islands,
                lo,
                speeds,
                parts,
                totals,
                tally,
            )
            &&& tally[0] == counts.0
            &&& tally.last() == counts.1
        };
    lemma_run_keeps_step(
        scene,
        prep,
        arith,
        islands,
        lo,
        speeds,
        parts,
        totals,
        tally,
        parts.len() as int,
    );
}

proof fn lemma_group_run_keeps_step<
    A: Fn(usize, Vec3) -> Agreement,
    C: Fn(usize, ContactPoint, WarmPoint) -> WarmCandidate,
    K: Fn(usize, WarmPoint) -> Recycled,
    B: Fn(usize, ContactPoint) -> (Vec3, Vec3),
    P: Fn(usize, ContactPoint, AnchorGeom, Option<WarmPoint>) -> PointNumbers,
    W: Fn(PointConstraint, Vec3, Side, Side) -> Option<(Speeds, Speeds)>,
    D: Fn(PointConstraint, Vec3, Side, Side) -> Scalar,
    R: Fn(PointConstraint, Scalar, Vec3, Side, Side) -> Relaxed,
    H: Fn(PointConstraint, Vec3, Side, Side) -> Option<(Speeds, Speeds)>,
>(
    scene: SolveScene,
    prep: ContactPrep<A, C, K, B, P>,
    arith: ContactArith<W, D, R, H>,
    phase: Phase,
    lv: Seq<Vec<Vec3>>,
    av: Seq<Vec<Vec3>>,
    outs: Seq<Vec<WarmOutEntry>>,
    totals: Seq<(int, int)>,
    tally: Seq<Counters>,
    k: int,
)
    requires
        groups_solved(scene, prep, arith, phase, lv, av, outs, totals, tally),
        0 <= k <= outs.len(),
    ensures
        in_step(tally[0], tally[k]),
    decreases k,
{
    if k > 0 {
        let g = k - 1;
        lemma_group_run_keeps_step(scene, prep, arith, phase, lv, av, outs, totals, tally, g);
        let x = GroupSpeeds { lv: phase.bufs.lv@[g]@, av: phase.bufs.av@[g]@ };
        let y = GroupSpeeds { lv: lv[g]@, av: av[g]@ };
        let (lo, hi) = (phase.groups.ranges@[g].0 as int, phase.groups.ranges@[g].1 as int);
        let counts = (tally[g], tally[g + 1]);
        assert(group_result(
            scene,
            prep,
            arith,
            phase.islands@,
            lo,
            hi,
            x,
            y,
            outs[g]@,
            totals[g],
            counts,
        ));
        lemma_group_keeps_step(
            scene,
            prep,
            arith,
            phase.islands@,
            lo,
            hi,
            x,
            y,
            outs[g]@,
            totals[g],
            counts,
        );
        lemma_surplus_chain(tally[0], tally[g], tally[g + 1]);
    }
}

proof fn lemma_groups_keep_step<
    A: Fn(usize, Vec3) -> Agreement,
    C: Fn(usize, ContactPoint, WarmPoint) -> WarmCandidate,
    K: Fn(usize, WarmPoint) -> Recycled,
    B: Fn(usize, ContactPoint) -> (Vec3, Vec3),
    P: Fn(usize, ContactPoint, AnchorGeom, Option<WarmPoint>) -> PointNumbers,
    W: Fn(PointConstraint, Vec3, Side, Side) -> Option<(Speeds, Speeds)>,
    D: Fn(PointConstraint, Vec3, Side, Side) -> Scalar,
    R: Fn(PointConstraint, Scalar, Vec3, Side, Side) -> Relaxed,
    H: Fn(PointConstraint, Vec3, Side, Side) -> Option<(Speeds, Speeds)>,
>(
    scene: SolveScene,
    prep: ContactPrep<A, C, K, B, P>,
    arith: ContactArith<W, D, R, H>,
    phase: Phase,
    lv: Seq<Vec<Vec3>>,
    av: Seq<Vec<Vec3>>,
    outs: Seq<Vec<WarmOutEntry>>,
    total: (int, int),
    counts: (Counters, Counters),
)
    requires
        groups_done(scene, prep, arith, phase, lv, av, outs, total, counts),
    ensures
        in_step(counts.0, counts.1),
{
    let (totals, tally) = choose|totals: Seq<(int, int)>, tally: Seq<Counters>|
        {
            &&& #[trigger] groups_solved(
                scene,
                prep,
                arith,
                phase,
                lv,
                av,
                outs,
                totals,
                tally,
            )
            &&& tally[0] == counts.0
            &&& tally.last() == counts.1
        };
    lemma_group_run_keeps_step(
        scene,
        prep,
        arith,
        phase,
        lv,
        av,
        outs,
        totals,
        tally,
        outs.len() as int,
    );
}

proof fn lemma_judging_keeps_step(
    c: Counters,
    bodies: &BodySet,
    motion: Seq<Motion>,
    dt: Scalar,
    sleep_time: Scalar,
    islands: Seq<Island>,
    deep: bool,
    k: int,
)
    ensures
        ({
            let d = islands_counted(c, bodies, motion, dt, sleep_time, islands, deep, k);
            &&& !deep ==> same_deep(c, d)
            &&& surplus(d) == surplus(c)
        }),
    decreases k,
{
    if k > 0 {
        lemma_judging_keeps_step(c, bodies, motion, dt, sleep_time, islands, deep, k - 1);
    }
}

/// A solve was made, and the counters went from one state to the other in it.
pub open spec fn solve_counted<
    A: Fn(usize, Vec3) -> Agreement,
    C: Fn(usize, ContactPoint, WarmPoint) -> WarmCandidate,
    K: Fn(usize, WarmPoint) -> Recycled,
    B: Fn(usize, ContactPoint) -> (Vec3, Vec3),
    P: Fn(usize, ContactPoint, AnchorGeom, Option<WarmPoint>) -> PointNumbers,
    W: Fn(PointConstraint, Vec3, Side, Side) -> Option<(Speeds, Speeds)>,
    D: Fn(PointConstraint, Vec3, Side, Side) -> Scalar,
    R: Fn(PointConstraint, Scalar, Vec3, Side, Side) -> Relaxed,
    H: Fn(PointConstraint, Vec3, Side, Side) -> Option<(Speeds, Speeds)>,
    M: Fn(&BodySet) -> (Vec<Heat>, Vec<Motion>),
>(
    config: SolveConfig,
    cleanup: bool,
    prep: ContactPrep<A, C, K, B, P>,
    arith: ContactArith<W, D, R, H>,
    measure: M,
    before: Counters,
    after: Counters,
) -> bool {
    exists|
        b0: BodySet,
        b1: BodySet,
        manifolds: &[Manifold],
        from: ImpulseSolver,
        to: ImpulseSolver,
        t: SolveTrace,
        rests: Seq<Scalar>,
    |
        #[trigger] solve_went(
            &b0,
            &b1,
            manifolds,
            config,
            cleanup,
            prep,
            arith,
            measure,
            from,
            to,
            t,
        ) && #[trigger] judgement_noted(config, cleanup, t, before, after, rests)
}

proof fn lemma_solve_in_step<
    A: Fn(usize, Vec3) -> Agreement,
    C: Fn(usize, ContactPoint, WarmPoint) -> WarmCandidate,
    K: Fn(usize, WarmPoint) -> Recycled,
    B: Fn(usize, ContactPoint) -> (Vec3, Vec3),
    P: Fn(usize, ContactPoint, AnchorGeom, Option<WarmPoint>) -> PointNumbers,
    W: Fn(PointConstraint, Vec3, Side, Side) -> Option<(Speeds, Speeds)>,
    D: Fn(PointConstraint, Vec3, Side, Side) -> Scalar,
    R: Fn(PointConstraint, Scalar, Vec3, Side, Side) -> Relaxed,
    H: Fn(PointConstraint, Vec3, Side, Side) -> Option<(Speeds, Speeds)>,
    M: Fn(&BodySet) -> (Vec<Heat>, Vec<Motion>),
>(
    config: SolveConfig,
    cleanup: bool,
    prep: ContactPrep<A, C, K, B, P>,
    arith: ContactArith<W, D, R, H>,
    measure: M,
    before: Counters,
    after: Counters,
)
    requires
        solve_counted(config, cleanup, prep, arith, measure, before, after),
    ensures
        !config.sleep.deep ==> same_deep(before, after),
        same_surplus(before, after),
{
    let (b0, b1, manifolds, from, to, t, rests) = choose|
        b0: BodySet,
        b1: BodySet,
        manifolds: &[Manifold],
        from: ImpulseSolver,
        to: ImpulseSolver,
        t: SolveTrace,
        rests: Seq<Scalar>,
    |
        #[trigger] solve_went(
            &b0,
            &b1,
            manifolds,
            config,
            cleanup,
            prep,
            arith,
            measure,
            from,
            to,
            t,
        ) && #[trigger] judgement_noted(config, cleanup, t, before, after, rests);
    let scene = SolveScene {
        manifolds,
        bodies: &b0,
        table: &from.warm,
        local_of: &t.phase.bufs.local_of,
        params: PhaseParams::of(config.iterations, cleanup),
    };
    lemma_groups_keep_step(scene, prep, arith, t.phase, t.lv, t.av, t.outs, t.total, t.counts);
    lemma_judging_keeps_step(
        t.counts.1,
        &t.moved,
        t.motion,
        config.dt,
        config.sleep.sleep_time,
        t.phase.islands@,
        config.sleep.deep,
        t.phase.islands@.len() as int,
    );
}

/// With the deep level off a solve counts no bodies.
pub proof fn shallow_solves_count_no_bodies<
    A: Fn(usize, Vec3) -> Agreement,
    C: Fn(usize, ContactPoint, WarmPoint) -> WarmCandidate,
    K: Fn(usize, WarmPoint) -> Recycled,
    B: Fn(usize, ContactPoint) -> (Vec3, Vec3),
    P: Fn(usize, ContactPoint, AnchorGeom, Option<WarmPoint>) -> PointNumbers,
    W: Fn(PointConstraint, Vec3, Side, Side) -> Option<(Speeds, Speeds)>,
    D: Fn(PointConstraint, Vec3, Side, Side) -> Scalar,
    R: Fn(PointConstraint, Scalar, Vec3, Side, Side) -> Relaxed,
    H: Fn(PointConstraint, Vec3, Side, Side) -> Option<(Speeds, Speeds)>,
    M: Fn(&BodySet) -> (Vec<Heat>, Vec<Motion>),
>(
    config: SolveConfig,
    cleanup: bool,
    prep: ContactPrep<A, C, K, B, P>,
    arith: ContactArith<W, D, R, H>,
    measure: M,
    before: Counters,
    after: Counters,
)
    requires
        !config.sleep.deep,
        solve_counted(config, cleanup, prep, arith, measure, before, after),
    ensures
        same_deep(before, after),
{
    lemma_solve_in_step(config, cleanup, prep, arith, measure, before, after);
}

/// With the deep level off the counts of bodies stay at zero over any run of solves.
pub proof fn deep_counts_stay_zero<
    A: Fn(usize, Vec3) -> Agreement,
    C: Fn(usize, ContactPoint, WarmPoint) -> WarmCandidate,
    K: Fn(usize, WarmPoint) -> Recycled,
    B: Fn(usize, ContactPoint) -> (Vec3, Vec3),
    P: Fn(usize, ContactPoint, AnchorGeom, Option<WarmPoint>) -> PointNumbers,
    W: Fn(PointConstraint, Vec3, Side, Side) -> Option<(Speeds, Speeds)>,
    D: Fn(PointConstraint, Vec3, Side, Side) -> Scalar,
    R: Fn(PointConstraint, Scalar, Vec3, Side, Side) -> Relaxed,
    H: Fn(PointConstraint, Vec3, Side, Side) -> Option<(Speeds, Speeds)>,
    M: Fn(&BodySet) -> (Vec<Heat>, Vec<Motion>),
>(
    configs: Seq<SolveConfig>,
    cleanups: Seq<bool>,
    preps: Seq<ContactPrep<A, C, K, B, P>>,
    ariths: Seq<ContactArith<W, D, R, H>>,
    measures: Seq<M>,
    counts: Seq<Counters>,
    k: int,
)
    requires
        counts.len() == configs.len() + 1,
        counts[0].sleep_fast_body == 0,
        counts[0].sleep_body_all == 0,
        forall|i: int|
            0 <= i < configs.len() ==> !(#[trigger] configs[i]).sleep.deep && solve_counted(
                configs[i],
                cleanups[i],
                preps[i],
                ariths[i],
                measures[i],
                counts[i],
                counts[i + 1],
            ),
        0 <= k <= configs.len(),
    ensures
        counts[k].sleep_fast_body == 0,
        counts[k].sleep_body_all == 0,
    decreases k,
{
    if k > 0 {
        let i = k - 1;
        deep_counts_stay_zero(configs, cleanups, preps, ariths, measures, counts, i);
        assert(!configs[i].sleep.deep);
        shallow_solves_count_no_bodies(
            configs[i],
            cleanups[i],
            preps[i],
            ariths[i],
            measures[i],
            counts[i],
            counts[i + 1],
        );
    }
}

/// Over any run of solves after the counters were cleared, the causes of matches by
/// distance add up to those matches: side, clipping, name or none. The counters turn
/// over together; as long as the sum fits one of them, it is exact.
pub proof fn causes_add_up<
    A: Fn(usize, Vec3) -> Agreement,
    C: Fn(usize, ContactPoint, WarmPoint) -> WarmCandidate,
    K: Fn(usize, WarmPoint) -> Recycled,
    B: Fn(usize, ContactPoint) -> (Vec3, Vec3),
    P: Fn(usize, ContactPoint, AnchorGeom, Option<WarmPoint>) -> PointNumbers,
    W: Fn(PointConstraint, Vec3, Side, Side) -> Option<(Speeds, Speeds)>,
    D: Fn(PointConstraint, Vec3, Side, Side) -> Scalar,
    R: Fn(PointConstraint, Scalar, Vec3, Side, Side) -> Relaxed,
    H: Fn(PointConstraint, Vec3, Side, Side) -> Option<(Speeds, Speeds)>,
    M: Fn(&BodySet) -> (Vec<Heat>, Vec<Motion>),
>(
    configs: Seq<SolveConfig>,
    cleanups: Seq<bool>,
    preps: Seq<ContactPrep<A, C, K, B, P>>,
    ariths: Seq<ContactArith<W, D, R, H>>,
    measures: Seq<M>,
    counts: Seq<Counters>,
    k: int,
)
    requires
        counts.len() == configs.len() + 1,
        counts[0].warm_fallback == 0,
        counts[0].fallback_side == 0,
        counts[0].fallback_clip == 0,
        counts[0].fallback_hash == 0,
        counts[0].fallback_same == 0,
        forall|i: int|
            0 <= i < configs.len() ==> solve_counted(
                #[trigger] configs[i],
                cleanups[i],
                preps[i],
                ariths[i],
                measures[i],
                counts[i],
                counts[i + 1],
            ),
        0 <= k <= configs.len(),
    ensures
        ({
            let c = counts[k];
            let sum = c.fallback_side + c.fallback_clip + c.fallback_hash + c.fallback_same;
            &&& sum % 0x1_0000_0000_0000_0000 == c.warm_fallback
            &&& sum <= u64::MAX ==> sum == c.warm_fallback
        }),
{
    lemma_run_in_step(configs, cleanups, preps, ariths, measures, counts, k);
}

/// Counters that are kept apart and then merged balance as one that counts everything:
/// if the causes add up in each of them, they add up in both together.
pub proof fn merging_keeps_the_balance(c: Counters, d: Counters)
    requires
        same_surplus(Counters::zero_spec(), c),
        same_surplus(Counters::zero_spec(), d),
    ensures
        same_surplus(Counters::zero_spec(), c.with(d)),
{
    let turn = 0x1_0000_0000_0000_0000int;
    let e = c.with(d);
    let (k1, k2) = (
        turns(c.fallback_side, d.fallback_side),
        turns(c.fallback_clip, d.fallback_clip),
    );
    let (k3, k4) = (
        turns(c.fallback_hash, d.fallback_hash),
        turns(c.fallback_same, d.fallback_same),
    );
    let k5 = turns(c.warm_fallback, d.warm_fallback);
    assert(surplus(e) == surplus(c) + surplus(d) + turn * (k5 - k1 - k2 - k3 - k4));
    lemma_turns_join(surplus(c), surplus(d));
    vstd::arithmetic::div_mod::lemma_mod_multiples_vanish(
        k5 - k1 - k2 - k3 - k4,
        surplus(c) + surplus(d),
        turn,
    );
}

/// How often a counter turns over when two are added up.
spec fn turns(m: u64, n: u64) -> int {
    if m + n > u64::MAX {
        1
    } else {
        0
    }
}

proof fn lemma_run_in_step<
    A: Fn(usize, Vec3) -> Agreement,
    C: Fn(usize, ContactPoint, WarmPoint) -> WarmCandidate,
    K: Fn(usize, WarmPoint) -> Recycled,
    B: Fn(usize, ContactPoint) -> (Vec3, Vec3),
    P: Fn(usize, ContactPoint, AnchorGeom, Option<WarmPoint>) -> PointNumbers,
    W: Fn(PointConstraint, Vec3, Side, Side) -> Option<(Speeds, Speeds)>,
    D: Fn(PointConstraint, Vec3, Side, Side) -> Scalar,
    R: Fn(PointConstraint, Scalar, Vec3, Side, Side) -> Relaxed,
    H: Fn(PointConstraint, Vec3, Side, Side) -> Option<(Speeds, Speeds)>,
    M: Fn(&BodySet) -> (Vec<Heat>, Vec<Motion>),
>(
    configs: Seq<SolveConfig>,
    cleanups: Seq<bool>,
    preps: Seq<ContactPrep<A, C, K, B, P>>,
    ariths: Seq<ContactArith<W, D, R, H>>,
    measures: Seq<M>,
    counts: Seq<Counters>,
    k: int,
)
    requires
        counts.len() == configs.len() + 1,
        forall|i: int|
            0 <= i < configs.len() ==> solve_counted(
                #[trigger] configs[i],
                cleanups[i],
                preps[i],
                ariths[i],
                measures[i],
                counts[i],
                counts[i + 1],
            ),
        0 <= k <= configs.len(),
    ensures
        same_surplus(counts[0], counts[k]),
    decreases k,
{
    if k > 0 {
        let i = k - 1;
        lemma_run_in_step(configs, cleanups, preps, ariths, measures, counts, i);
        assert(solve_counted(
            configs[i],
            cleanups[i],
            preps[i],
            ariths[i],
            measures[i],
            counts[i],
            counts[i + 1],
        ));
        lemma_solve_in_step(
            configs[i],
            cleanups[i],
            preps[i],
            ariths[i],
            measures[i],
            counts[i],
            counts[i + 1],
        );
        lemma_surplus_chain(counts[0], counts[i], counts[i + 1]);
    }
}

} // verus!
