//! What the phases of a solve promise.

use crate::body::BodySet;
use crate::constraint::{AnchorGeom, ContactConstraint, PointConstraint, Recycled, WarmCandidate};
use crate::contact::{ContactPoint, Manifold};
use crate::contact_solve::{
    island_fits, island_result, islands_run, scene_fits, solve_island_group, sum_totals, GroupSpeeds, SolveScene,
};
use crate::grouping::lemma_run_lengths;
use crate::guarantees::sleeping::lemma_least_rest;
use crate::guarantees::solves::lemma_flat;
use crate::guarantees::solving::{island_held, lemma_island};
use crate::island::Island;
use crate::prepare::{Agreement, ContactPrep, PointNumbers};
use crate::relax::{ContactArith, Relaxed, Side, Speeds};
use crate::scalar::{Scalar, Vec3};
use crate::sleep::{
    calm, falls_asleep, fast_bodies, islands_counted, resets, settled_with, shortest_rest, waits, Heat, Motion,
    SleepConfig,
};
use crate::solver::{ImpulseSolver, Phase, PhaseTimes};
use crate::stats::Counters;
use crate::warm::{WarmOutEntry, WarmPoint};
use vstd::prelude::*;

verus! {

/// The sum of the first `n` values of `f`.
pub open spec fn summed(f: spec_fn(int) -> int, n: int) -> int
    decreases n,
{
    if n <= 0 {
        0
    } else {
        summed(f, n - 1) + f(n - 1)
    }
}

pub proof fn lemma_summed_alike(f: spec_fn(int) -> int, g: spec_fn(int) -> int, n: int)
    requires
        forall|k: int| 0 <= k < n ==> #[trigger] f(k) == g(k),
    ensures
        summed(f, n) == summed(g, n),
    decreases n,
{
    if n > 0 {
        lemma_summed_alike(f, g, n - 1);
        assert(f(n - 1) == g(n - 1));
    }
}

/// One of the bodies is fast.
pub open spec fn has_fast(motion: Seq<Motion>, ids: Seq<u32>) -> bool {
    exists|k: int| 0 <= k < ids.len() && motion[#[trigger] ids[k] as int].fast
}

/// How an island came out: 0 if one of its bodies is fast, else 1 if it is asleep now, else
/// 2.
pub open spec fn came_out(motion: Seq<Motion>, after: &BodySet, ids: Seq<u32>) -> int {
    if has_fast(motion, ids) {
        0
    } else if !after.awake@[ids[0] as int] {
        1
    } else {
        2
    }
}

/// How many of the first `n` islands came out in way `w`.
pub open spec fn outcomes(
    motion: Seq<Motion>,
    after: &BodySet,
    islands: Seq<Island>,
    w: int,
    n: int,
) -> int {
    summed(
        |s: int|
            if came_out(motion, after, islands[s].bodies@) == w {
                1
            } else {
                0
            },
        n,
    )
}

proof fn lemma_resets(motion: Seq<Motion>, islands: Seq<Island>, n: int)
    requires
        0 <= n <= islands.len(),
    ensures
        resets(motion, islands, n) == summed(
            |s: int|
                if has_fast(motion, islands[s].bodies@) {
                    islands[s].bodies@.len() as int
                } else {
                    0
                },
            n,
        ),
    decreases n,
{
    if n > 0 {
        lemma_resets(motion, islands, n - 1);
        assert(has_fast(motion, islands[n - 1].bodies@) == !calm(motion, islands[n - 1].bodies@));
    }
}

proof fn lemma_outcome_of(
    before: &BodySet,
    after: &BodySet,
    motion: Seq<Motion>,
    dt: Scalar,
    sleep_time: Scalar,
    ids: Seq<u32>,
)
    requires
        ids.len() > 0,
        settled_with(before, after, motion, dt, sleep_time, ids, ids[0] as int),
    ensures
        came_out(motion, after, ids) == if !calm(motion, ids) {
            0int
        } else if falls_asleep(before, motion, dt, sleep_time, ids) {
            1
        } else {
            2
        },
{
    assert(has_fast(motion, ids) == !calm(motion, ids));
}

/// How many of the bodies are fast.
pub open spec fn fast_among(motion: Seq<Motion>, ids: Seq<u32>) -> int {
    summed(
        |k: int|
            if motion[ids[k] as int].fast {
                1
            } else {
                0
            },
        ids.len() as int,
    )
}

proof fn lemma_fast_among(motion: Seq<Motion>, ids: Seq<u32>, k: int)
    requires
        0 <= k <= ids.len(),
    ensures
        fast_bodies(motion, ids, k) == summed(
            |k: int|
                if motion[ids[k] as int].fast {
                    1
                } else {
                    0
                },
            k,
        ),
    decreases k,
{
    if k > 0 {
        lemma_fast_among(motion, ids, k - 1);
    }
}

proof fn lemma_counted(
    c: Counters,
    before: &BodySet,
    after: &BodySet,
    motion: Seq<Motion>,
    dt: Scalar,
    sleep_time: Scalar,
    islands: Seq<Island>,
    deep: bool,
    n: int,
)
    requires
        0 <= n <= islands.len(),
        forall|s: int|
            #![trigger islands[s]]
            0 <= s < islands.len() ==> islands[s].bodies@.len() > 0 && settled_with(
                before,
                after,
                motion,
                dt,
                sleep_time,
                islands[s].bodies@,
                islands[s].bodies@[0] as int,
            ),
    ensures
        ({
            let d = islands_counted(c, before, motion, dt, sleep_time, islands, deep, n);
            &&& d.sleep_fast == (c.sleep_fast + outcomes(motion, after, islands, 0, n))
                % 0x1_0000_0000_0000_0000
            &&& d.sleep_slept == (c.sleep_slept + outcomes(motion, after, islands, 1, n))
                % 0x1_0000_0000_0000_0000
            &&& d.sleep_wait == (c.sleep_wait + outcomes(motion, after, islands, 2, n))
                % 0x1_0000_0000_0000_0000
            &&& d.sleep_body_all == (c.sleep_body_all + if deep {
                summed(|s: int| islands[s].bodies@.len() as int, n)
            } else {
                0
            }) % 0x1_0000_0000_0000_0000
            &&& d.sleep_fast_body == (c.sleep_fast_body + if deep {
                summed(|s: int| fast_among(motion, islands[s].bodies@), n)
            } else {
                0
            }) % 0x1_0000_0000_0000_0000
            &&& d.points == c.points
            &&& d.separated == c.separated
        }),
        0 <= outcomes(motion, after, islands, 0, n),
        0 <= outcomes(motion, after, islands, 1, n),
        0 <= outcomes(motion, after, islands, 2, n),
    decreases n,
{
    if n > 0 {
        lemma_counted(c, before, after, motion, dt, sleep_time, islands, deep, n - 1);
        let ids = islands[n - 1].bodies@;
        lemma_outcome_of(before, after, motion, dt, sleep_time, ids);
        lemma_fast_among(motion, ids, ids.len() as int);
        assert(fast_bodies(motion, ids, ids.len() as int) == fast_among(motion, ids));
        assert(outcomes(motion, after, islands, 0, n) == outcomes(motion, after, islands, 0, n - 1) + (
        if came_out(motion, after, ids) == 0 {
            1int
        } else {
            0
        }));
        assert(outcomes(motion, after, islands, 1, n) == outcomes(motion, after, islands, 1, n - 1) + (
        if came_out(motion, after, ids) == 1 {
            1int
        } else {
            0
        }));
        assert(outcomes(motion, after, islands, 2, n) == outcomes(motion, after, islands, 2, n - 1) + (
        if came_out(motion, after, ids) == 2 {
            1int
        } else {
            0
        }));
    }
}

proof fn lemma_waits(
    before: &BodySet,
    after: &BodySet,
    motion: Seq<Motion>,
    dt: Scalar,
    sleep_time: Scalar,
    islands: Seq<Island>,
    n: int,
) -> (from: Seq<int>)
    requires
        0 <= n <= islands.len(),
        forall|s: int|
            #![trigger islands[s]]
            0 <= s < islands.len() ==> islands[s].bodies@.len() > 0 && settled_with(
                before,
                after,
                motion,
                dt,
                sleep_time,
                islands[s].bodies@,
                islands[s].bodies@[0] as int,
            ),
    ensures
        ({
            let r = waits(before, motion, dt, sleep_time, islands, n);
            &&& from.len() == r.len()
            &&& forall|x: int, y: int|
                #![trigger from[x], from[y]]
                0 <= x < y < from.len() ==> from[x] < from[y]
            &&& forall|x: int|
                #![trigger from[x]]
                0 <= x < from.len() ==> 0 <= from[x] < n && came_out(
                    motion,
                    after,
                    islands[from[x]].bodies@,
                ) == 2 && r[x] == shortest_rest(
                    before,
                    motion,
                    dt,
                    islands[from[x]].bodies@,
                    islands[from[x]].bodies@.len() as int,
                )
            &&& forall|s: int|
                #![trigger islands[s]]
                0 <= s < n && came_out(motion, after, islands[s].bodies@) == 2 ==> from.contains(s)
        }),
    decreases n,
{
    if n <= 0 {
        Seq::empty()
    } else {
        let rest = lemma_waits(before, after, motion, dt, sleep_time, islands, n - 1);
        let ids = islands[n - 1].bodies@;
        lemma_outcome_of(before, after, motion, dt, sleep_time, ids);
        if came_out(motion, after, ids) == 2 {
            let from = rest.push(n - 1);
            assert(from[from.len() - 1] == n - 1);
            assert forall|s: int|
                #![trigger islands[s]]
                0 <= s < n && came_out(motion, after, islands[s].bodies@) == 2 implies from.contains(
                s,
            ) by {
                if s < n - 1 {
                    assert(rest.contains(s));
                    let q = choose|q: int| 0 <= q < rest.len() && rest[q] == s;
                    assert(from[q] == s);
                }
            }
            from
        } else {
            rest
        }
    }
}

/// Under the island rule every island is counted once, as fast, slept or waiting, by how it
/// came out; the timers that started over are those of all bodies of the fast islands. One
/// rest is handed back for each waiting island, in order: that of one of its bodies, which
/// no other body undercuts. Counts of hot contacts start over. The cleanup changes and
/// counts nothing.
pub proof fn every_island_is_counted_once(
    solver: &mut ImpulseSolver,
    bodies: &mut BodySet,
    manifolds: &[Manifold],
    phase: &Phase,
    heat: &[Heat],
    motion: &[Motion],
    config: &SleepConfig,
    dt: Scalar,
    cleanup: bool,
    counters: &mut Counters,
    r: Vec<Scalar>,
)
    requires
        call_ensures(
            ImpulseSolver::sleep_phase,
            (solver, bodies, manifolds, phase, heat, motion, config, dt, cleanup, counters),
            r,
        ),
        forall|s: int|
            0 <= s < phase.islands@.len() ==> (#[trigger] phase.islands@[s]).bodies@.len() > 0,
    ensures
        cleanup ==> *final(bodies) == *old(bodies) && *final(counters) == *old(counters) && r@.len()
            == 0 && final(solver).sleep_resets == old(solver).sleep_resets && final(solver).wake_streak@ == old(solver).wake_streak@,
        !cleanup && config.per_body ==> *final(counters) == *old(counters) && r@.len() == 0 && final(solver).sleep_resets == 0,
        final(solver).warm == old(solver).warm,
        final(solver).island_count == old(solver).island_count,
        final(solver).last_points == old(solver).last_points,
        !cleanup && !config.per_body && (config.wake_gate_k == 0 || phase.islands@.len() == 0)
            ==> final(solver).wake_streak@ == old(solver).wake_streak@,
        !cleanup && !config.per_body && config.wake_gate_k > 0 && phase.islands@.len() > 0 ==> {
            &&& final(solver).wake_streak@.len() >= old(bodies).count()
            &&& forall|i: int|
                0 <= i < old(bodies).count() ==> #[trigger] final(solver).wake_streak@[i] == 0
        },
        !cleanup && !config.per_body ==> {
            let islands = phase.islands@;
            let n = islands.len() as int;
            &&& final(solver).sleep_resets == summed(
                |s: int|
                    if has_fast(motion@, islands[s].bodies@) {
                        islands[s].bodies@.len() as int
                    } else {
                        0
                    },
                n,
            )
            &&& final(counters).sleep_fast == (old(counters).sleep_fast + outcomes(
                motion@,
                final(bodies),
                islands,
                0,
                n,
            )) % 0x1_0000_0000_0000_0000
            &&& final(counters).sleep_slept == (old(counters).sleep_slept + outcomes(
                motion@,
                final(bodies),
                islands,
                1,
                n,
            )) % 0x1_0000_0000_0000_0000
            &&& final(counters).sleep_wait == (old(counters).sleep_wait + outcomes(
                motion@,
                final(bodies),
                islands,
                2,
                n,
            )) % 0x1_0000_0000_0000_0000
            &&& final(counters).sleep_body_all == (old(counters).sleep_body_all + if config.deep {
                summed(|s: int| islands[s].bodies@.len() as int, n)
            } else {
                0
            }) % 0x1_0000_0000_0000_0000
            &&& final(counters).sleep_fast_body == (old(counters).sleep_fast_body + if config.deep {
                summed(|s: int| fast_among(motion@, islands[s].bodies@), n)
            } else {
                0
            }) % 0x1_0000_0000_0000_0000
            &&& exists|from: Seq<int>|
                #![trigger from.len()]
                {
                    &&& from.len() == r@.len()
                    &&& forall|x: int, y: int|
                        #![trigger from[x], from[y]]
                        0 <= x < y < from.len() ==> from[x] < from[y]
                    &&& forall|x: int|
                        #![trigger from[x]]
                        0 <= x < from.len() ==> 0 <= from[x] < n && came_out(
                            motion@,
                            final(bodies),
                            islands[from[x]].bodies@,
                        ) == 2 && undercut_by_none(
                            old(bodies),
                            motion@,
                            dt,
                            islands[from[x]].bodies@,
                            r@[x],
                        )
                    &&& forall|s: int|
                        #![trigger islands[s]]
                        0 <= s < n && came_out(motion@, final(bodies), islands[s].bodies@) == 2
                            ==> from.contains(s)
                }
        },
{
    if !cleanup && !config.per_body {
        let islands = phase.islands@;
        let n = islands.len() as int;
        assert forall|s: int| #![trigger islands[s]] 0 <= s < islands.len() implies islands[s].bodies@.len()
            > 0 && settled_with(
            old(bodies),
            final(bodies),
            motion@,
            dt,
            config.sleep_time,
            islands[s].bodies@,
            islands[s].bodies@[0] as int,
        ) by {
            assert(phase.islands@[s].bodies@.len() > 0);
            assert(islands[s].bodies@[0] == islands[s].bodies@[0]);
        }
        lemma_resets(motion@, islands, n);
        lemma_counted(
            *old(counters),
            old(bodies),
            final(bodies),
            motion@,
            dt,
            config.sleep_time,
            islands,
            config.deep,
            n,
        );
        let from = lemma_waits(
            old(bodies),
            final(bodies),
            motion@,
            dt,
            config.sleep_time,
            islands,
            n,
        );
        assert(from.len() == r@.len());
        assert forall|x: int| #![trigger from[x]] 0 <= x < from.len() implies undercut_by_none(
            old(bodies),
            motion@,
            dt,
            islands[from[x]].bodies@,
            r@[x],
        ) by {
            let ids = islands[from[x]].bodies@;
            lemma_least_rest(old(bodies), motion@, dt, ids, ids.len() as int);
        }
    }
}

/// The rest is that of one of the bodies, or the largest number, and no body has rested for
/// less.
pub open spec fn undercut_by_none(
    before: &BodySet,
    motion: Seq<Motion>,
    dt: Scalar,
    ids: Seq<u32>,
    least: Scalar,
) -> bool {
    &&& forall|k: int|
        0 <= k < ids.len() ==> {
            let i = #[trigger] ids[k] as int;
            let rest = if before.awake@[i] {
                motion[i].advanced
            } else {
                dt
            };
            !rest.is_nan_spec() ==> least.le_spec(rest)
        }
    &&& least.le_spec(Scalar { bits: 0x7f7f_ffff })
    &&& least.bits == 0x7f7f_ffff || exists|k: int|
        0 <= k < ids.len() && {
            let i = #[trigger] ids[k] as int;
            least == if before.awake@[i] {
                motion[i].advanced
            } else {
                dt
            }
        }
}

/// A group is solved island by island, in order, each from the speeds that the one before
/// left; what they hand back is put together in that order and their points are added up.
#[verifier::opaque]
pub open spec fn group_held<
    A: Fn(usize, Vec3) -> Agreement,
    C: Fn(usize, ContactPoint, WarmPoint) -> WarmCandidate,
    K: Fn(usize, WarmPoint) -> Recycled,
    B: Fn(usize, ContactPoint) -> (Vec3, Vec3),
    P: Fn(usize, ContactPoint, AnchorGeom, Option<WarmPoint>) -> PointNumbers,
    W: Fn(PointConstraint, Vec3, Side, Side) -> Option<(Speeds, Speeds)>,
    D: Fn(PointConstraint, Vec3, Side, Side) -> Scalar,
    R: Fn(PointConstraint, Scalar, Vec3, Side, Side) -> Relaxed,
    H: Fn(PointConstraint, Vec3, Side, Side) -> Option<(Speeds, Speeds)>,
>(
    scene: SolveScene,
    prep: ContactPrep<A, C, K, B, P>,
    arith: ContactArith<W, D, R, H>,
    islands: Seq<Island>,
    lo: int,
    speeds: Seq<GroupSpeeds>,
    parts: Seq<Seq<WarmOutEntry>>,
    totals: Seq<(int, int)>,
) -> bool {
    &&& speeds.len() == parts.len() + 1
    &&& totals.len() == parts.len()
    &&& forall|k: int|
        0 <= k < parts.len() ==> solved_alone(
            scene,
            prep,
            arith,
            islands[lo + k],
            speeds[k],
            speeds[k + 1],
            #[trigger] parts[k],
            totals[k],
        )
}

/// The island was solved, from speeds `x` to speeds `y`.
#[verifier::opaque]
pub open spec fn solved_alone<
    A: Fn(usize, Vec3) -> Agreement,
    C: Fn(usize, ContactPoint, WarmPoint) -> WarmCandidate,
    K: Fn(usize, WarmPoint) -> Recycled,
    B: Fn(usize, ContactPoint) -> (Vec3, Vec3),
    P: Fn(usize, ContactPoint, AnchorGeom, Option<WarmPoint>) -> PointNumbers,
    W: Fn(PointConstraint, Vec3, Side, Side) -> Option<(Speeds, Speeds)>,
    D: Fn(PointConstraint, Vec3, Side, Side) -> Scalar,
    R: Fn(PointConstraint, Scalar, Vec3, Side, Side) -> Relaxed,
    H: Fn(PointConstraint, Vec3, Side, Side) -> Option<(Speeds, Speeds)>,
>(
    scene: SolveScene,
    prep: ContactPrep<A, C, K, B, P>,
    arith: ContactArith<W, D, R, H>,
    isl: Island,
    x: GroupSpeeds,
    y: GroupSpeeds,
    part: Seq<WarmOutEntry>,
    total: (int, int),
) -> bool {
    exists|from: Seq<int>, cs: Seq<ContactConstraint>, done: Seq<ContactConstraint>| #[trigger]
        island_held(scene, prep, arith, isl, x, y, part, total, from, cs, done)
}

proof fn lemma_totals(totals: Seq<(int, int)>)
    ensures
        sum_totals(totals).0 == summed(|k: int| totals[k].0, totals.len() as int),
        sum_totals(totals).1 == summed(|k: int| totals[k].1, totals.len() as int),
    decreases totals.len(),
{
    if totals.len() > 0 {
        let rest = totals.drop_last();
        let n = totals.len() as int;
        lemma_totals(rest);
        lemma_summed_alike(|k: int| rest[k].0, |k: int| totals[k].0, n - 1);
        lemma_summed_alike(|k: int| rest[k].1, |k: int| totals[k].1, n - 1);
    }
}

proof fn lemma_alone<
    A: Fn(usize, Vec3) -> Agreement,
    C: Fn(usize, ContactPoint, WarmPoint) -> WarmCandidate,
    K: Fn(usize, WarmPoint) -> Recycled,
    B: Fn(usize, ContactPoint) -> (Vec3, Vec3),
    P: Fn(usize, ContactPoint, AnchorGeom, Option<WarmPoint>) -> PointNumbers,
    W: Fn(PointConstraint, Vec3, Side, Side) -> Option<(Speeds, Speeds)>,
    D: Fn(PointConstraint, Vec3, Side, Side) -> Scalar,
    R: Fn(PointConstraint, Scalar, Vec3, Side, Side) -> Relaxed,
    H: Fn(PointConstraint, Vec3, Side, Side) -> Option<(Speeds, Speeds)>,
>(
    scene: SolveScene,
    prep: ContactPrep<A, C, K, B, P>,
    arith: ContactArith<W, D, R, H>,
    isl: Island,
    x: GroupSpeeds,
    y: GroupSpeeds,
    part: Seq<WarmOutEntry>,
    total: (int, int),
    counts: (Counters, Counters),
)
    requires
        x.lv.len() == x.av.len(),
        island_fits(&isl, scene.manifolds@, scene.local_of@, x.lv.len()),
        island_result(scene, prep, arith, isl, x, y, part, total, counts),
    ensures
        solved_alone(scene, prep, arith, isl, x, y, part, total),
{
    lemma_island(scene, prep, arith, isl, x, y, part, total, counts);
    reveal(solved_alone);
}

proof fn lemma_group_held<
    A: Fn(usize, Vec3) -> Agreement,
    C: Fn(usize, ContactPoint, WarmPoint) -> WarmCandidate,
    K: Fn(usize, WarmPoint) -> Recycled,
    B: Fn(usize, ContactPoint) -> (Vec3, Vec3),
    P: Fn(usize, ContactPoint, AnchorGeom, Option<WarmPoint>) -> PointNumbers,
    W: Fn(PointConstraint, Vec3, Side, Side) -> Option<(Speeds, Speeds)>,
    D: Fn(PointConstraint, Vec3, Side, Side) -> Scalar,
    R: Fn(PointConstraint, Scalar, Vec3, Side, Side) -> Relaxed,
    H: Fn(PointConstraint, Vec3, Side, Side) -> Option<(Speeds, Speeds)>,
>(
    scene: SolveScene,
    prep: ContactPrep<A, C, K, B, P>,
    arith: ContactArith<W, D, R, H>,
    islands: Seq<Island>,
    lo: int,
    speeds: Seq<GroupSpeeds>,
    parts: Seq<Seq<WarmOutEntry>>,
    totals: Seq<(int, int)>,
    tally: Seq<Counters>,
)
    requires
        islands_run(scene, prep, arith, islands, lo, speeds, parts, totals, tally),
        speeds[0].lv.len() == speeds[0].av.len(),
        0 <= lo,
        lo + parts.len() <= islands.len(),
        scene_fits(scene, prep, islands, lo, lo + parts.len(), speeds[0].lv.len()),
    ensures
        group_held(scene, prep, arith, islands, lo, speeds, parts, totals),
{
    assert forall|k: int| 0 <= k < parts.len() implies solved_alone(
        scene,
        prep,
        arith,
        islands[lo + k],
        speeds[k],
        speeds[k + 1],
        #[trigger] parts[k],
        totals[k],
    ) by {
        lemma_run_lengths(
            scene,
            prep,
            arith,
            islands,
            lo,
            speeds,
            parts,
            totals,
            tally,
            speeds[0].lv.len(),
            k,
        );
        assert(island_fits(
            &islands[lo + k],
            scene.manifolds@,
            scene.local_of@,
            speeds[k].lv.len(),
        ));
        lemma_alone(
            scene,
            prep,
            arith,
            islands[lo + k],
            speeds[k],
            speeds[k + 1],
            parts[k],
            totals[k],
            (tally[k], tally[k + 1]),
        );
    }
    reveal(group_held);
}

/// Solving a group solves each of its islands once, in order, and no other.
pub proof fn groups_solve_their_islands<
    A: Fn(usize, Vec3) -> Agreement,
    C: Fn(usize, ContactPoint, WarmPoint) -> WarmCandidate,
    K: Fn(usize, WarmPoint) -> Recycled,
    B: Fn(usize, ContactPoint) -> (Vec3, Vec3),
    P: Fn(usize, ContactPoint, AnchorGeom, Option<WarmPoint>) -> PointNumbers,
    W: Fn(PointConstraint, Vec3, Side, Side) -> Option<(Speeds, Speeds)>,
    D: Fn(PointConstraint, Vec3, Side, Side) -> Scalar,
    R: Fn(PointConstraint, Scalar, Vec3, Side, Side) -> Relaxed,
    H: Fn(PointConstraint, Vec3, Side, Side) -> Option<(Speeds, Speeds)>,
>(
    scene: &SolveScene,
    prep: &ContactPrep<A, C, K, B, P>,
    arith: &ContactArith<W, D, R, H>,
    islands: &[Island],
    lo: usize,
    hi: usize,
    lv: &mut Vec<Vec3>,
    av: &mut Vec<Vec3>,
    counters: &mut Counters,
    r: (Vec<WarmOutEntry>, (u64, u64)),
)
    requires
        lo <= hi <= islands@.len(),
        old(lv)@.len() == old(av)@.len(),
        scene_fits(*scene, *prep, islands@, lo as int, hi as int, old(lv)@.len()),
        call_ensures(
            solve_island_group::<A, C, K, B, P, W, D, R, H>,
            (scene, prep, arith, islands, lo, hi, lv, av, counters),
            r,
        ),
    ensures
        exists|speeds: Seq<GroupSpeeds>, parts: Seq<Seq<WarmOutEntry>>, totals: Seq<(int, int)>|
            {
                &&& #[trigger] group_held(
                    *scene,
                    *prep,
                    *arith,
                    islands@,
                    lo as int,
                    speeds,
                    parts,
                    totals,
                )
                &&& parts.len() == hi - lo
                &&& speeds[0] == (GroupSpeeds { lv: old(lv)@, av: old(av)@ })
                &&& speeds.last() == (GroupSpeeds { lv: final(lv)@, av: final(av)@ })
                &&& r.0@ == parts.flatten()
                &&& r.1.0 == summed(|k: int| totals[k].0, hi - lo)
                &&& r.1.1 == summed(|k: int| totals[k].1, hi - lo)
            },
{
    let x = GroupSpeeds { lv: old(lv)@, av: old(av)@ };
    let y = GroupSpeeds { lv: final(lv)@, av: final(av)@ };
    let (speeds, parts, totals, tally) = choose|
        speeds: Seq<GroupSpeeds>,
        parts: Seq<Seq<WarmOutEntry>>,
        totals: Seq<(int, int)>,
        tally: Seq<Counters>,
    |
        {
            &&& #[trigger] islands_run(
                *scene,
                *prep,
                *arith,
                islands@,
                lo as int,
                speeds,
                parts,
                totals,
                tally,
            )
            &&& tally[0] == *old(counters)
            &&& tally.last() == *final(counters)
            &&& parts.len() == hi - lo
            &&& speeds[0] == x
            &&& speeds.last() == y
            &&& r.0@ == crate::contact_solve::all_entries(parts)
            &&& (r.1.0 as int, r.1.1 as int) == sum_totals(totals)
        };
    lemma_flat(parts);
    lemma_totals(totals);
    lemma_group_held(*scene, *prep, *arith, islands@, lo as int, speeds, parts, totals, tally);
    assert(group_held(*scene, *prep, *arith, islands@, lo as int, speeds, parts, totals));
}

/// Recording counts leaves the times and recording times leaves the counts; each is read
/// back as it was given. The points are those of the last solve that had an island.
pub proof fn records_are_read_back(
    s: &mut ImpulseSolver,
    phase: &Phase,
    manifolds: usize,
    total: (u64, u64),
    t: &mut ImpulseSolver,
    times: PhaseTimes,
    fresh: ImpulseSolver,
)
    requires
        call_ensures(ImpulseSolver::record_counts, (s, phase, manifolds, total), ()),
        call_ensures(ImpulseSolver::record_times, (t, times), ()),
        call_ensures(ImpulseSolver::new, (), fresh),
        phase.islands@.len() <= u32::MAX,
        manifolds <= u32::MAX,
        phase.groups.ranges@.len() <= u32::MAX,
        old(s).warm@.slots.len() <= u32::MAX,
    ensures
        phase.islands@.len() > 0 ==> final(s).last_points == total,
        phase.islands@.len() == 0 ==> final(s).last_points == old(s).last_points,
        final(s).island_diag.islands == phase.islands@.len(),
        final(s).island_diag.manifolds == manifolds,
        final(s).island_diag.g_count == phase.groups.ranges@.len(),
        final(s).island_diag.group_manifs@ == phase.groups.manifolds@,
        final(s).island_diag.points == final(s).last_points.0 % 0x1_0000_0000,
        final(s).island_diag.warm_count == old(s).warm@.slots.len(),
        final(s).island_diag.iter_us == old(s).island_diag.iter_us,
        final(s).island_diag.build_us == old(s).island_diag.build_us,
        final(s).island_diag.warm_us == old(s).island_diag.warm_us,
        final(s).island_diag.fill_us == old(s).island_diag.fill_us,
        final(s).island_diag.scope_us == old(s).island_diag.scope_us,
        final(s).island_diag.scatter_us == old(s).island_diag.scatter_us,
        final(s).island_diag.gather_us == old(s).island_diag.gather_us,
        final(s).island_diag.island_build_us == old(s).island_diag.island_build_us,
        final(s).island_diag.group_us == old(s).island_diag.group_us,
        final(s).warm == old(s).warm && final(s).wake_streak == old(s).wake_streak && final(s).sleep_resets == old(s).sleep_resets && final(s).island_count == old(s).island_count,
        times.fill <= times.islands_and_fill ==> final(t).island_diag.island_build_us + times.fill
            == times.islands_and_fill,
        times.fill > times.islands_and_fill ==> final(t).island_diag.island_build_us == 0,
        final(t).island_diag.gather_us == final(t).island_diag.island_build_us,
        times.scope <= times.solve ==> final(t).island_diag.scatter_us + times.scope == times.solve,
        times.scope > times.solve ==> final(t).island_diag.scatter_us == 0,
        final(t).island_diag.fill_us == times.fill,
        final(t).island_diag.scope_us == times.scope,
        final(t).island_diag.group_us == times.group,
        final(t).island_diag.build_us == times.build,
        final(t).island_diag.warm_us == times.warm,
        final(t).island_diag.iter_us == times.iter,
        final(t).island_diag.islands == old(t).island_diag.islands,
        final(t).island_diag.manifolds == old(t).island_diag.manifolds,
        final(t).island_diag.g_count == old(t).island_diag.g_count,
        final(t).island_diag.group_manifs == old(t).island_diag.group_manifs,
        final(t).island_diag.points == old(t).island_diag.points,
        final(t).island_diag.warm_count == old(t).island_diag.warm_count,
        final(t).island_diag.warm_bytes_per_slot == old(t).island_diag.warm_bytes_per_slot,
        final(t).warm == old(t).warm && final(t).last_points == old(t).last_points,
        fresh.warm@.slots.len() == 0 && fresh.warm.stamp == 0 && fresh.island_count == 0
            && fresh.sleep_resets == 0 && fresh.wake_streak@.len() == 0,
{
}

} // verus!
