//! What a whole solve promises.

use crate::body::BodySet;
use crate::constraint::{AnchorGeom, ContactConstraint, PointConstraint, Recycled, WarmCandidate};
use crate::contact::{ContactPoint, Manifold};
use crate::contact_solve::{all_entries, island_result, GroupSpeeds, SolveScene};
use crate::grouping::{concerns, ends_in, lemma_all_outcomes, outcome, starts_fresh};
use crate::guarantees::cache::{cache_rule, lemma_cached};
use crate::guarantees::islands::{lemma_contacts_listed, lemma_tied, lists};
use crate::guarantees::sleeping::{island_rule, lemma_island_rule};
use crate::guarantees::solving::{island_held, lemma_island};
use crate::island::{manifolds_in, roots_of, Island};
use crate::prepare::{Agreement, ContactPrep, PointNumbers};
use crate::relax::{place_of, side_at, ContactArith, Relaxed, Side, Speeds};
use crate::schedule::PhaseParams;
use crate::scalar::{Scalar, Vec3};
use crate::sleep::{settled_with, Heat, Motion};
use crate::solver::{
    groups_done, groups_solved, judgement_noted, measured, solve_went, ImpulseSolver, SolveConfig,
    SolveTrace,
};
use crate::stats::Counters;
use crate::warm::{commit_spec, distinct_keys, entries_fit, joined, WarmOutEntry, WarmPoint};
use vstd::prelude::*;

verus! {

/// The bodies of an island enter with their own speeds, or with none if they sleep and
/// sleepers are frozen, and leave with the speeds at their places.
pub open spec fn speeds_carried(
    bodies: &BodySet,
    moved: &BodySet,
    freeze: bool,
    local_of: Seq<u32>,
    ids: Seq<u32>,
    x: GroupSpeeds,
    y: GroupSpeeds,
) -> bool {
    let zero = Vec3 { x: Scalar { bits: 0 }, y: Scalar { bits: 0 }, z: Scalar { bits: 0 } };
    forall|k: int|
        0 <= k < ids.len() ==> {
            let i = #[trigger] ids[k] as int;
            let p = local_of[i] as int;
            &&& local_of[i] != 0xffff_ffff
            &&& x.lv[p] == if freeze && !bodies.awake@[i] {
                zero
            } else {
                bodies.linvel@[i]
            }
            &&& x.av[p] == if freeze && !bodies.awake@[i] {
                zero
            } else {
                bodies.angvel@[i]
            }
            &&& moved.linvel@[i] == y.lv[p]
            &&& moved.angvel@[i] == y.av[p]
        }
}

/// The island was solved as islands are, from and to the speeds of its bodies.
pub open spec fn solved_whole<
    A: Fn(usize, Vec3) -> Agreement,
    C: Fn(usize, ContactPoint, WarmPoint) -> WarmCandidate,
    K: Fn(usize, WarmPoint) -> Recycled,
    B: Fn(usize, ContactPoint) -> (Vec3, Vec3),
    P: Fn(usize, ContactPoint, AnchorGeom, Option<WarmPoint>) -> PointNumbers,
    W: Fn(PointConstraint, Vec3, Side, Side) -> Option<(Speeds, Speeds)>,
    D: Fn(PointConstraint, Vec3, Side, Side) -> Scalar,
    R: Fn(PointConstraint, Scalar, Vec3, Side, Side) -> Relaxed,
    H: Fn(PointConstraint, Vec3, Side, Side) -> Option<(Speeds, Speeds)>,
>(
    scene: SolveScene,
    prep: ContactPrep<A, C, K, B, P>,
    arith: ContactArith<W, D, R, H>,
    freeze: bool,
    isl: Island,
    moved: BodySet,
    part: Seq<WarmOutEntry>,
) -> bool {
    exists|
        x: GroupSpeeds,
        y: GroupSpeeds,
        totals: (int, int),
        from: Seq<int>,
        cs: Seq<ContactConstraint>,
        done: Seq<ContactConstraint>,
    | #[trigger]
        island_held(scene, prep, arith, isl, x, y, part, totals, from, cs, done) && speeds_carried(
            scene.bodies,
            &moved,
            freeze,
            scene.local_of@,
            isl.bodies@,
            x,
            y,
        )
}

proof fn lemma_outcome<
    A: Fn(usize, Vec3) -> Agreement,
    C: Fn(usize, ContactPoint, WarmPoint) -> WarmCandidate,
    K: Fn(usize, WarmPoint) -> Recycled,
    B: Fn(usize, ContactPoint) -> (Vec3, Vec3),
    P: Fn(usize, ContactPoint, AnchorGeom, Option<WarmPoint>) -> PointNumbers,
    W: Fn(PointConstraint, Vec3, Side, Side) -> Option<(Speeds, Speeds)>,
    D: Fn(PointConstraint, Vec3, Side, Side) -> Scalar,
    R: Fn(PointConstraint, Scalar, Vec3, Side, Side) -> Relaxed,
    H: Fn(PointConstraint, Vec3, Side, Side) -> Option<(Speeds, Speeds)>,
>(
    scene: SolveScene,
    prep: ContactPrep<A, C, K, B, P>,
    arith: ContactArith<W, D, R, H>,
    freeze: bool,
    isl: Island,
    moved: BodySet,
    part: Seq<WarmOutEntry>,
)
    requires
        outcome(scene, prep, arith, freeze, isl, moved, part),
    ensures
        solved_whole(scene, prep, arith, freeze, isl, moved, part),
{
    let (x, y, totals, counts) = choose|
        x: GroupSpeeds,
        y: GroupSpeeds,
        totals: (int, int),
        counts: (Counters, Counters),
    |
        {
            &&& #[trigger] island_result(scene, prep, arith, isl, x, y, part, totals, counts)
            &&& starts_fresh(scene, freeze, isl, x)
            &&& ends_in(scene, isl, moved, y)
        };
    lemma_island(scene, prep, arith, isl, x, y, part, totals, counts);
    let l = scene.local_of@;
    assert forall|k: int| 0 <= k < isl.bodies@.len() implies {
        let i = #[trigger] isl.bodies@[k] as int;
        let p = l[i] as int;
        &&& l[i] != 0xffff_ffff
        &&& x.lv[p] == if freeze && !scene.bodies.awake@[i] {
            Vec3 { x: Scalar { bits: 0 }, y: Scalar { bits: 0 }, z: Scalar { bits: 0 } }
        } else {
            scene.bodies.linvel@[i]
        }
        &&& x.av[p] == if freeze && !scene.bodies.awake@[i] {
            Vec3 { x: Scalar { bits: 0 }, y: Scalar { bits: 0 }, z: Scalar { bits: 0 } }
        } else {
            scene.bodies.angvel@[i]
        }
        &&& moved.linvel@[i] == y.lv[p]
        &&& moved.angvel@[i] == y.av[p]
    } by {
        let u = isl.bodies@[k];
        assert(isl.bodies@.contains(u));
        assert(concerns(isl, scene.manifolds@, u));
        assert(side_at(l, x.lv, x.av, u).placed);
        assert(place_of(l, u) is Some);
    }
    let (from, cs, done) = choose|
        from: Seq<int>,
        cs: Seq<ContactConstraint>,
        done: Seq<ContactConstraint>,
    | #[trigger] island_held(scene, prep, arith, isl, x, y, part, totals, from, cs, done);
    assert(island_held(scene, prep, arith, isl, x, y, part, totals, from, cs, done));
}

pub proof fn lemma_flat(parts: Seq<Seq<WarmOutEntry>>)
    ensures
        all_entries(parts) == parts.flatten(),
    decreases parts.len(),
{
    if parts.len() > 0 {
        lemma_flat(parts.drop_last());
        parts.drop_last().lemma_flatten_push(parts.last());
        assert(parts.drop_last().push(parts.last()) =~= parts);
    } else {
        assert(parts.flatten() =~= Seq::<WarmOutEntry>::empty());
    }
}

/// What the solver itself keeps of a solve: how many islands there were, the next stamp,
/// and in the cache what the islands handed back, each contact once.
#[verifier::opaque]
pub open spec fn kept_in(
    before: &BodySet,
    from: ImpulseSolver,
    to: ImpulseSolver,
    any: bool,
    islands: Seq<Island>,
    parts: Seq<Seq<WarmOutEntry>>,
) -> bool {
    &&& to.island_count == islands.len()
    &&& to.warm.stamp == (from.warm.stamp + 1) % 0x1_0000_0000
    &&& distinct_keys(parts.flatten()) ==> cache_rule(
        from.warm@,
        parts.flatten(),
        any,
        before.awake@,
        to.warm.stamp,
        to.warm@,
    )
    &&& islands.len() == 0 ==> to.last_points == from.last_points
}

proof fn lemma_kept(
    before: &BodySet,
    from: ImpulseSolver,
    to: ImpulseSolver,
    any: bool,
    islands: Seq<Island>,
    parts: Seq<Seq<WarmOutEntry>>,
    es: Seq<WarmOutEntry>,
)
    requires
        es == all_entries(parts),
        before.awake@.len() == before.count(),
        from.warm@.sound(),
        from.warm@.complete(),
        from.warm@.keys_below(before.count() as int),
        from.warm@.slots.len() + es.len() <= u32::MAX,
        entries_fit(from.warm@, es, before.count() as int),
        to.warm@ == commit_spec(from.warm@, es, any, before.awake@, to.warm.stamp),
        to.warm.stamp == if from.warm.stamp == u32::MAX {
            0
        } else {
            (from.warm.stamp + 1) as u32
        },
        to.island_count == islands.len(),
        islands.len() == 0 ==> to.last_points == from.last_points,
    ensures
        kept_in(before, from, to, any, islands, parts),
{
    lemma_flat(parts);
    reveal(kept_in);
    if distinct_keys(es) {
        lemma_cached(from.warm@, es, any, before.awake@, to.warm.stamp);
    }
}

/// What a solve does. `islands` are those it went through, `moved` the bodies with their
/// new speeds before anything falls asleep, and `parts` what each island handed back.
pub open spec fn solve_held<
    A: Fn(usize, Vec3) -> Agreement,
    C: Fn(usize, ContactPoint, WarmPoint) -> WarmCandidate,
    K: Fn(usize, WarmPoint) -> Recycled,
    B: Fn(usize, ContactPoint) -> (Vec3, Vec3),
    P: Fn(usize, ContactPoint, AnchorGeom, Option<WarmPoint>) -> PointNumbers,
    W: Fn(PointConstraint, Vec3, Side, Side) -> Option<(Speeds, Speeds)>,
    D: Fn(PointConstraint, Vec3, Side, Side) -> Scalar,
    R: Fn(PointConstraint, Scalar, Vec3, Side, Side) -> Relaxed,
    H: Fn(PointConstraint, Vec3, Side, Side) -> Option<(Speeds, Speeds)>,
    M: Fn(&BodySet) -> (Vec<Heat>, Vec<Motion>),
>(
    before: &BodySet,
    after: &BodySet,
    scene: SolveScene,
    config: SolveConfig,
    cleanup: bool,
    prep: ContactPrep<A, C, K, B, P>,
    arith: ContactArith<W, D, R, H>,
    measure: M,
    islands: Seq<Island>,
    moved: BodySet,
    parts: Seq<Seq<WarmOutEntry>>,
    found: (Vec<Heat>, Vec<Motion>),
) -> bool {
    let ms = scene.manifolds@;
    let it = config.iterations;
    let wanted = if cleanup {
        it.stabilization_iterations
    } else {
        it.velocity_iterations
    };
    &&& scene.bodies == before
    &&& scene.params.iters == if wanted == 0 {
        1
    } else {
        wanted
    }
    &&& scene.params.shock == if cleanup {
        0
    } else {
        it.shock_iterations
    }
    &&& scene.params.settled_hold == it.settled_hold_iterations
    &&& forall|i: int|
        #![trigger before.dynamic@[i]]
        0 <= i < before.count() && before.dynamic@[i] && before.awake@[i] ==> exists|s: int|
            lists(islands, s, i)
    &&& forall|s: int, k: int|
        #![trigger islands[s], ms[k]]
        0 <= s < islands.len() && 0 <= k < ms.len() ==> ((exists|q: int|
            0 <= q < islands[s].manifs@.len() && #[trigger] islands[s].manifs@[q] == k) <==> (
        if before.dynamic@[ms[k].a as int] {
            lists(islands, s, ms[k].a as int)
        } else {
            lists(islands, s, ms[k].b as int)
        }))
    &&& parts.len() == islands.len()
    &&& forall|s: int|
        #![trigger islands[s]]
        0 <= s < islands.len() ==> solved_whole(
            scene,
            prep,
            arith,
            config.freeze_dormant,
            islands[s],
            moved,
            parts[s],
        )
    &&& moved.awake@ == before.awake@
    &&& moved.sleep_timer@ == before.sleep_timer@
    &&& measure.ensures((&moved,), found)
    &&& after.position@ == before.position@
    &&& after.rotation@ == before.rotation@
    &&& after.dynamic@ == before.dynamic@
    &&& cleanup ==> after.linvel@ == moved.linvel@ && after.angvel@ == moved.angvel@
        && after.awake@ == before.awake@ && after.sleep_timer@ == before.sleep_timer@
    &&& !cleanup && !config.sleep.per_body && config.sleep.sleep_time.le_spec(
        Scalar { bits: 0x7f7f_ffff },
    ) ==> forall|s: int|
        #![trigger islands[s]]
        0 <= s < islands.len() ==> island_rule(
            &moved,
            after,
            found.1@,
            config.dt,
            config.sleep.sleep_time,
            islands[s].bodies@,
        )
}

#[verifier::spinoff_prover]
#[verifier::rlimit(60)]
proof fn lemma_solve<
    A: Fn(usize, Vec3) -> Agreement,
    C: Fn(usize, ContactPoint, WarmPoint) -> WarmCandidate,
    K: Fn(usize, WarmPoint) -> Recycled,
    B: Fn(usize, ContactPoint) -> (Vec3, Vec3),
    P: Fn(usize, ContactPoint, AnchorGeom, Option<WarmPoint>) -> PointNumbers,
    W: Fn(PointConstraint, Vec3, Side, Side) -> Option<(Speeds, Speeds)>,
    D: Fn(PointConstraint, Vec3, Side, Side) -> Scalar,
    R: Fn(PointConstraint, Scalar, Vec3, Side, Side) -> Relaxed,
    H: Fn(PointConstraint, Vec3, Side, Side) -> Option<(Speeds, Speeds)>,
    M: Fn(&BodySet) -> (Vec<Heat>, Vec<Motion>),
>(
    before: &BodySet,
    after: &BodySet,
    manifolds: &[Manifold],
    config: SolveConfig,
    cleanup: bool,
    prep: ContactPrep<A, C, K, B, P>,
    arith: ContactArith<W, D, R, H>,
    measure: M,
    from: ImpulseSolver,
    to: ImpulseSolver,
    t: SolveTrace,
)
    requires
        before.wf(),
        before.count() <= u32::MAX,
        manifolds_in(manifolds@, before.count() as int),
        from.warm@.sound(),
        from.warm@.complete(),
        from.warm@.keys_below(before.count() as int),
        from.warm@.slots.len() + manifolds@.len() <= u32::MAX,
        solve_went(
            before,
            after,
            manifolds,
            config,
            cleanup,
            prep,
            arith,
            measure,
            from,
            to,
            t,
        ),
    ensures
        exists|
            scene: SolveScene,
            islands: Seq<Island>,
            moved: BodySet,
            parts: Seq<Seq<WarmOutEntry>>,
            found: (Vec<Heat>, Vec<Motion>),
        | #[trigger]
            solve_held(
                before,
                after,
                scene,
                config,
                cleanup,
                prep,
                arith,
                measure,
                islands,
                moved,
                parts,
                found,
            ) && scene.manifolds@ == manifolds@ && scene.table == &from.warm && kept_in(
                before,
                from,
                to,
                manifolds@.len() > 0,
                islands,
                parts,
            ),
{
    let scene = SolveScene {
        manifolds,
        bodies: before,
        table: &from.warm,
        local_of: &t.phase.bufs.local_of,
        params: PhaseParams::of(config.iterations, cleanup),
    };
    let islands = t.phase.islands@;
    let ms = manifolds@;
    let count = t.phase.groups.ranges@.len() as int;
    let (totals, tally) = choose|totals: Seq<(int, int)>, tally: Seq<Counters>| #[trigger]
        groups_solved(scene, prep, arith, t.phase, t.lv, t.av, t.outs, totals, tally);
    let parts = lemma_all_outcomes(
        scene,
        prep,
        arith,
        t.phase,
        config.threads as int,
        config.freeze_dormant,
        t.lv,
        t.av,
        t.outs,
        totals,
        tally,
        t.moved,
        count,
    );
    crate::group::groups_tile_the_islands(islands.len() as int, count, 0);
    assert(parts.len() == islands.len());
    assert forall|s: int| #![trigger islands[s]] 0 <= s < islands.len() implies solved_whole(
        scene,
        prep,
        arith,
        config.freeze_dormant,
        islands[s],
        t.moved,
        parts[s],
    ) by {
        assert(outcome(scene, prep, arith, config.freeze_dormant, islands[s], t.moved, parts[s]));
        lemma_outcome(
            scene,
            prep,
            arith,
            config.freeze_dormant,
            islands[s],
            t.moved,
            parts[s],
        );
    }
    assert forall|i: int|
        #![trigger before.dynamic@[i]]
        0 <= i < before.count() && before.dynamic@[i] && before.awake@[i] implies exists|s: int|
        lists(islands, s, i) by {
        lemma_tied(before, ms, t.phase.parent@, islands, 0, i, 0, 0, |x: int| x);
    }
    assert forall|s: int, k: int|
        #![trigger islands[s], ms[k]]
        0 <= s < islands.len() && 0 <= k < ms.len() implies ((exists|q: int|
        0 <= q < islands[s].manifs@.len() && #[trigger] islands[s].manifs@[q] == k) <==> (
    if before.dynamic@[ms[k].a as int] {
        lists(islands, s, ms[k].a as int)
    } else {
        lists(islands, s, ms[k].b as int)
    })) by {
        lemma_contacts_listed(before, ms, roots_of(t.phase.parent@), islands, s, k, 0, 0);
    }
    lemma_kept(before, from, to, ms.len() > 0, islands, parts, joined(t.outs, t.outs.len() as int));
    let found = choose|r: (Vec<Heat>, Vec<Motion>)| #[trigger]
        measure.ensures((&t.moved,), r) && r.0@ == t.heat && r.1@ == t.motion;
    if !cleanup && !config.sleep.per_body && config.sleep.sleep_time.le_spec(
        Scalar { bits: 0x7f7f_ffff },
    ) {
        assert forall|s: int| #![trigger islands[s]] 0 <= s < islands.len() implies island_rule(
            &t.moved,
            after,
            found.1@,
            config.dt,
            config.sleep.sleep_time,
            islands[s].bodies@,
        ) by {
            let ids = islands[s].bodies@;
            assert forall|k: int| 0 <= k < ids.len() implies settled_with(
                &t.moved,
                after,
                t.motion,
                config.dt,
                config.sleep.sleep_time,
                ids,
                #[trigger] ids[k] as int,
            ) by {
                assert(islands[s].bodies@[k] == ids[k]);
            }
            lemma_island_rule(
                &t.moved,
                after,
                t.motion,
                config.dt,
                config.sleep.sleep_time,
                ids,
            );
        }
    }
    assert(solve_held(
        before,
        after,
        scene,
        config,
        cleanup,
        prep,
        arith,
        measure,
        islands,
        t.moved,
        parts,
        found,
    ));
}

/// A solve goes through every island that contacts tie together round an awake body:
/// each contact with points and a dynamic body in it is solved, with the iterations of the
/// main pass, from the speeds the bodies had; then motion is measured and, under the
/// island rule, each island falls asleep once all of it has rested. No body is moved or
/// turned.
pub proof fn a_solve_solves_every_island<
    A: Fn(usize, Vec3) -> Agreement,
    C: Fn(usize, ContactPoint, WarmPoint) -> WarmCandidate,
    K: Fn(usize, WarmPoint) -> Recycled,
    B: Fn(usize, ContactPoint) -> (Vec3, Vec3),
    P: Fn(usize, ContactPoint, AnchorGeom, Option<WarmPoint>) -> PointNumbers,
    W: Fn(PointConstraint, Vec3, Side, Side) -> Option<(Speeds, Speeds)>,
    D: Fn(PointConstraint, Vec3, Side, Side) -> Scalar,
    R: Fn(PointConstraint, Scalar, Vec3, Side, Side) -> Relaxed,
    H: Fn(PointConstraint, Vec3, Side, Side) -> Option<(Speeds, Speeds)>,
    M: Fn(&BodySet) -> (Vec<Heat>, Vec<Motion>),
>(
    solver: &mut ImpulseSolver,
    bodies: &mut BodySet,
    manifolds: &[Manifold],
    config: &SolveConfig,
    prep: &ContactPrep<A, C, K, B, P>,
    arith: &ContactArith<W, D, R, H>,
    measure: &M,
    counters: &mut Counters,
    r: Vec<Scalar>,
)
    requires
        call_ensures(
            ImpulseSolver::solve::<A, C, K, B, P, W, D, R, H, M>,
            (solver, bodies, manifolds, config, prep, arith, measure, counters),
            r,
        ),
        old(bodies).wf(),
        old(bodies).count() <= u32::MAX,
        manifolds_in(manifolds@, old(bodies).count() as int),
        old(solver).warm@.sound(),
        old(solver).warm@.complete(),
        old(solver).warm@.keys_below(old(bodies).count() as int),
        old(solver).warm@.slots.len() + manifolds@.len() <= u32::MAX,
    ensures
        exists|
            scene: SolveScene,
            islands: Seq<Island>,
            moved: BodySet,
            parts: Seq<Seq<WarmOutEntry>>,
            found: (Vec<Heat>, Vec<Motion>),
        | #[trigger]
            solve_held(
                old(bodies),
                final(bodies),
                scene,
                *config,
                false,
                *prep,
                *arith,
                *measure,
                islands,
                moved,
                parts,
                found,
            ) && scene.manifolds@ == manifolds@ && scene.table == &old(solver).warm && kept_in(
                old(bodies),
                *old(solver),
                *final(solver),
                manifolds@.len() > 0,
                islands,
                parts,
            ),
{
    let t = choose|t: SolveTrace| #[trigger]
        solve_went(
            old(bodies),
            final(bodies),
            manifolds,
            *config,
            false,
            *prep,
            *arith,
            *measure,
            *old(solver),
            *final(solver),
            t,
        ) && judgement_noted(*config, false, t, *old(counters), *final(counters), r@);
    lemma_solve(
        old(bodies),
        final(bodies),
        manifolds,
        *config,
        false,
        *prep,
        *arith,
        *measure,
        *old(solver),
        *final(solver),
        t,
    );
}

/// The cleanup pass solves every island in the same way, with its own iterations and no
/// shock sweeps, and puts nothing to sleep.
pub proof fn the_cleanup_solves_every_island<
    A: Fn(usize, Vec3) -> Agreement,
    C: Fn(usize, ContactPoint, WarmPoint) -> WarmCandidate,
    K: Fn(usize, WarmPoint) -> Recycled,
    B: Fn(usize, ContactPoint) -> (Vec3, Vec3),
    P: Fn(usize, ContactPoint, AnchorGeom, Option<WarmPoint>) -> PointNumbers,
    W: Fn(PointConstraint, Vec3, Side, Side) -> Option<(Speeds, Speeds)>,
    D: Fn(PointConstraint, Vec3, Side, Side) -> Scalar,
    R: Fn(PointConstraint, Scalar, Vec3, Side, Side) -> Relaxed,
    H: Fn(PointConstraint, Vec3, Side, Side) -> Option<(Speeds, Speeds)>,
    M: Fn(&BodySet) -> (Vec<Heat>, Vec<Motion>),
>(
    solver: &mut ImpulseSolver,
    bodies: &mut BodySet,
    manifolds: &[Manifold],
    config: &SolveConfig,
    prep: &ContactPrep<A, C, K, B, P>,
    arith: &ContactArith<W, D, R, H>,
    measure: &M,
    counters: &mut Counters,
    r: Vec<Scalar>,
)
    requires
        call_ensures(
            ImpulseSolver::solve_unbiased::<A, C, K, B, P, W, D, R, H, M>,
            (solver, bodies, manifolds, config, prep, arith, measure, counters),
            r,
        ),
        old(bodies).wf(),
        old(bodies).count() <= u32::MAX,
        manifolds_in(manifolds@, old(bodies).count() as int),
        old(solver).warm@.sound(),
        old(solver).warm@.complete(),
        old(solver).warm@.keys_below(old(bodies).count() as int),
        old(solver).warm@.slots.len() + manifolds@.len() <= u32::MAX,
    ensures
        exists|
            scene: SolveScene,
            islands: Seq<Island>,
            moved: BodySet,
            parts: Seq<Seq<WarmOutEntry>>,
            found: (Vec<Heat>, Vec<Motion>),
        | #[trigger]
            solve_held(
                old(bodies),
                final(bodies),
                scene,
                *config,
                true,
                *prep,
                *arith,
                *measure,
                islands,
                moved,
                parts,
                found,
            ) && scene.manifolds@ == manifolds@ && scene.table == &old(solver).warm && kept_in(
                old(bodies),
                *old(solver),
                *final(solver),
                manifolds@.len() > 0,
                islands,
                parts,
            ),
{
    let t = choose|t: SolveTrace| #[trigger]
        solve_went(
            old(bodies),
            final(bodies),
            manifolds,
            *config,
            true,
            *prep,
            *arith,
            *measure,
            *old(solver),
            *final(solver),
            t,
        ) && judgement_noted(*config, true, t, *old(counters), *final(counters), r@);
    lemma_solve(
        old(bodies),
        final(bodies),
        manifolds,
        *config,
        true,
        *prep,
        *arith,
        *measure,
        *old(solver),
        *final(solver),
        t,
    );
}

} // verus!
