//! What a solve leaves alone: where the bodies are, the speeds of still bodies, and
//! everything about bodies whose whole component sleeps.

use crate::body::BodySet;
use crate::constraint::{AnchorGeom, PointConstraint, Recycled, WarmCandidate};
use crate::contact::{ContactPoint, Manifold};
use crate::group::members;
use crate::island::{
    chain, connected, in_island, island_of, islands_hold_what_is_connected_to_active, islands_of,
    leaders, lemma_in_island, manifold_with, manifolds_in, roots_are_components, roots_of, touch,
    Island,
};
use crate::prepare::{Agreement, ContactPrep, PointNumbers};
use crate::relax::{ContactArith, Relaxed, Side, Speeds};
use crate::scalar::{Scalar, Vec3};
use crate::select::{ints_u32, ints_usize, lemma_indices_where};
use crate::sleep::{
    all_judged, contacts_only_wake, fresh_streak, rest_all, sleep_state, state_sized,
    untouched, wake_all, wake_by, Heat, Motion, SleepState,
};
use crate::solver::{
    lemma_members_come_from, solve_went, ImpulseSolver, SolveConfig, SolveTrace,
};
use crate::union_find::root_of;
use crate::warm::WarmPoint;
use vstd::prelude::*;

verus! {

/// The body has the speeds that it had.
pub open spec fn same_motion(x: SleepState, y: SleepState, i: int) -> bool {
    x.linvel[i] == y.linvel[i] && x.angvel[i] == y.angvel[i]
}

/// The body rests as it did.
pub open spec fn same_rest(x: SleepState, y: SleepState, i: int) -> bool {
    x.awake[i] == y.awake[i] && x.timer[i] == y.timer[i]
}

/// The manifolds of an island name no dynamic body outside of it.
proof fn lemma_not_in_contact(
    islands: Seq<Island>,
    bodies: &BodySet,
    parent: Seq<u32>,
    ms: Seq<Manifold>,
    s: int,
    q: int,
    i: int,
)
    requires
        bodies.wf(),
        parent.len() == bodies.count(),
        roots_are_components(parent, bodies.dynamic@, ms),
        islands_of(islands, bodies, roots_of(parent), ms),
        manifolds_in(ms, bodies.count() as int),
        0 <= s < islands.len(),
        0 <= q < islands[s].manifs@.len(),
        0 <= i < bodies.count(),
        bodies.dynamic@[i],
        !in_island(islands, s, i),
    ensures
        islands[s].manifs@[q] < ms.len(),
        ms[islands[s].manifs@[q] as int].a != i,
        ms[islands[s].manifs@[q] as int].b != i,
{
    let roots = roots_of(parent);
    let heads = leaders(bodies, roots, bodies.count());
    let r = roots[heads[s]];
    let p = manifold_with(bodies, roots, ms, r);
    assert(island_of(&islands[s], bodies, roots, ms, r));
    lemma_indices_where(p, ms.len());
    let k = islands[s].manifs@[q] as int;
    assert(ints_usize(islands[s].manifs@)[q] == k);
    assert(0 <= k < ms.len() && p(k));
    lemma_in_island(islands, bodies, roots, ms, s, i);
    let (a, b) = (ms[k].a as int, ms[k].b as int);
    if b == i && bodies.dynamic@[a] {
        assert(touch(bodies.dynamic@, ms, a, b));
        let c = seq![a, b];
        assert(chain(bodies.dynamic@, ms, c));
        assert(c[0] == a && c.last() == b);
        assert(connected(bodies.dynamic@, ms, a, b));
        assert(root_of(parent, a) == root_of(parent, b));
    }
}

/// Contacts that do not name a body leave its rest alone.
proof fn lemma_wake_apart(
    st: SleepState,
    list: Seq<usize>,
    ms: Seq<Manifold>,
    heat: Seq<Heat>,
    gate: u32,
    k: int,
    n: nat,
    i: int,
)
    requires
        state_sized(st, n),
        manifolds_in(ms, n as int),
        0 <= k <= list.len(),
        forall|q: int|
            0 <= q < list.len() ==> (#[trigger] list[q]) < ms.len() && ms[list[q] as int].a != i
                && ms[list[q] as int].b != i,
        0 <= i < n,
    ensures
        same_rest(wake_all(st, list, ms, heat, gate, k), st, i),
    decreases k,
{
    if k > 0 {
        lemma_wake_apart(st, list, ms, heat, gate, k - 1, n, i);
        contacts_only_wake(st, list, ms, heat, gate, k - 1, n, i);
        let before = wake_all(st, list, ms, heat, gate, k - 1);
        let m = ms[list[k - 1] as int];
        assert(list[k - 1] < ms.len());
        assert(m.a < n && m.b < n);
        assert(same_rest(wake_by(before, m, heat[list[k - 1] as int], gate), before, i));
    }
}

/// Judging others leaves a body alone.
proof fn lemma_rest_apart(
    st: SleepState,
    was_awake: Seq<bool>,
    motion: Seq<Motion>,
    dt: Scalar,
    sleep_time: Scalar,
    ids: Seq<u32>,
    k: int,
    n: nat,
    i: int,
)
    requires
        state_sized(st, n),
        0 <= k <= ids.len(),
        forall|q: int| 0 <= q < ids.len() ==> (#[trigger] ids[q]) < n && ids[q] != i,
        0 <= i < n,
    ensures
        state_sized(rest_all(st, was_awake, motion, dt, sleep_time, ids, k), n),
        same_rest(rest_all(st, was_awake, motion, dt, sleep_time, ids, k), st, i),
        same_motion(rest_all(st, was_awake, motion, dt, sleep_time, ids, k), st, i),
    decreases k,
{
    if k > 0 {
        lemma_rest_apart(st, was_awake, motion, dt, sleep_time, ids, k - 1, n, i);
        assert(ids[k - 1] < n && ids[k - 1] != i);
    }
}

/// Judging the first `k` islands leaves a body outside of them its speeds, and its
/// rest if it can move.
proof fn lemma_judging_apart(
    st: SleepState,
    was_awake: Seq<bool>,
    islands: Seq<Island>,
    bodies: &BodySet,
    parent: Seq<u32>,
    ms: Seq<Manifold>,
    heat: Seq<Heat>,
    motion: Seq<Motion>,
    dt: Scalar,
    sleep_time: Scalar,
    gate: u32,
    k: int,
    i: int,
)
    requires
        bodies.wf(),
        parent.len() == bodies.count(),
        roots_are_components(parent, bodies.dynamic@, ms),
        islands_of(islands, bodies, roots_of(parent), ms),
        manifolds_in(ms, bodies.count() as int),
        state_sized(st, bodies.count()),
        0 <= k <= islands.len(),
        0 <= i < bodies.count(),
        forall|s: int| !in_island(islands, s, i),
    ensures
        ({
            let now = all_judged(
                st,
                was_awake,
                islands,
                ms,
                heat,
                motion,
                dt,
                sleep_time,
                gate,
                k,
            );
            &&& state_sized(now, bodies.count())
            &&& same_motion(now, st, i)
            &&& bodies.dynamic@[i] ==> same_rest(now, st, i)
        }),
    decreases k,
{
    if k > 0 {
        lemma_judging_apart(
            st,
            was_awake,
            islands,
            bodies,
            parent,
            ms,
            heat,
            motion,
            dt,
            sleep_time,
            gate,
            k - 1,
            i,
        );
        let mid = all_judged(
            st,
            was_awake,
            islands,
            ms,
            heat,
            motion,
            dt,
            sleep_time,
            gate,
            k - 1,
        );
        let isl = islands[k - 1];
        let n = bodies.count();
        let roots = roots_of(parent);
        let heads = leaders(bodies, roots, n);
        assert(island_of(&islands[k - 1], bodies, roots, ms, roots[heads[k - 1]]));
        lemma_indices_where(
            manifold_with(bodies, roots, ms, roots[heads[k - 1]]),
            ms.len(),
        );
        assert forall|q: int| 0 <= q < isl.manifs@.len() implies (#[trigger] isl.manifs@[q])
            < ms.len() by {
            assert(ints_usize(isl.manifs@)[q] == isl.manifs@[q]);
        }
        contacts_only_wake(
            mid,
            isl.manifs@,
            ms,
            heat,
            gate,
            isl.manifs@.len() as int,
            n,
            i,
        );
        let awoken = wake_all(mid, isl.manifs@, ms, heat, gate, isl.manifs@.len() as int);
        if bodies.dynamic@[i] {
            assert forall|q: int| 0 <= q < isl.manifs@.len() implies (#[trigger] isl.manifs@[q])
                < ms.len() && ms[isl.manifs@[q] as int].a != i && ms[isl.manifs@[q] as int].b
                != i by {
                lemma_not_in_contact(islands, bodies, parent, ms, k - 1, q, i);
            }
            lemma_wake_apart(
                mid,
                isl.manifs@,
                ms,
                heat,
                gate,
                isl.manifs@.len() as int,
                n,
                i,
            );
        }
        assert forall|q: int| 0 <= q < isl.bodies@.len() implies (#[trigger] isl.bodies@[q]) < n
            && isl.bodies@[q] != i by {
            let u = isl.bodies@[q] as int;
            assert(ints_u32(isl.bodies@)[q] == u);
            assert(in_island(islands, k - 1, u));
            lemma_in_island(islands, bodies, roots, ms, k - 1, u);
            assert(!in_island(islands, k - 1, i));
        }
        lemma_rest_apart(
            awoken,
            was_awake,
            motion,
            dt,
            sleep_time,
            isl.bodies@,
            isl.bodies@.len() as int,
            n,
            i,
        );
    }
}

/// A solve moves no body and turns none, and leaves alone whatever nothing awake
/// touches: a body that cannot move keeps its speeds, and one that can, if no chain
/// of contacts leads from it to an active body, keeps its speeds, its sleep and its
/// timer, whatever the cache holds for it.
pub proof fn solves_leave_sleepers_alone<
    A: Fn(usize, Vec3) -> Agreement,
    C: Fn(usize, ContactPoint, WarmPoint) -> WarmCandidate,
    K: Fn(usize, WarmPoint) -> Recycled,
    B: Fn(usize, ContactPoint) -> (Vec3, Vec3),
    P: Fn(usize, ContactPoint, AnchorGeom, Option<WarmPoint>) -> PointNumbers,
    W: Fn(PointConstraint, Vec3, Side, Side) -> Option<(Speeds, Speeds)>,
    D: Fn(PointConstraint, Vec3, Side, Side) -> Scalar,
    R: Fn(PointConstraint, Scalar, Vec3, Side, Side) -> Relaxed,
    H: Fn(PointConstraint, Vec3, Side, Side) -> Option<(Speeds, Speeds)>,
    M: Fn(&BodySet) -> (Vec<Heat>, Vec<Motion>),
>(
    before: &BodySet,
    after: &BodySet,
    manifolds: &[Manifold],
    config: SolveConfig,
    cleanup: bool,
    prep: ContactPrep<A, C, K, B, P>,
    arith: ContactArith<W, D, R, H>,
    measure: M,
    from: ImpulseSolver,
    to: ImpulseSolver,
    t: SolveTrace,
    i: int,
)
    requires
        before.wf(),
        before.count() <= u32::MAX,
        manifolds_in(manifolds@, before.count() as int),
        solve_went(
            before,
            after,
            manifolds,
            config,
            cleanup,
            prep,
            arith,
            measure,
            from,
            to,
            t,
        ),
        0 <= i < before.count(),
    ensures
        after.position == before.position,
        after.rotation == before.rotation,
        after.dynamic == before.dynamic,
        !before.dynamic@[i] ==> after.linvel@[i] == before.linvel@[i] && after.angvel@[i]
            == before.angvel@[i],
        before.dynamic@[i] && !(exists|j: int|
            0 <= j < before.count() && #[trigger] before.active(j) && connected(
                before.dynamic@,
                manifolds@,
                i,
                j,
            )) ==> untouched(before, after, i),
{
    let ms = manifolds@;
    let islands = t.phase.islands@;
    let m = islands.len() as int;
    let parent = t.phase.parent@;
    islands_hold_what_is_connected_to_active(islands, before, parent, ms, i);
    if forall|s: int| !in_island(islands, s, i) {
        if members(islands, 0, m).contains(i as u32) {
            lemma_members_come_from(islands, 0, m, i);
        }
        assert(t.moved.linvel@[i] == before.linvel@[i]);
        assert(t.moved.angvel@[i] == before.angvel@[i]);
        if !cleanup && config.sleep.per_body {
            let fresh = if m > 0 {
                fresh_streak(from.wake_streak@, t.moved.count(), config.sleep.wake_gate_k)
            } else {
                from.wake_streak@
            };
            let st = sleep_state(&t.moved, fresh);
            lemma_judging_apart(
                st,
                t.moved.awake@,
                islands,
                before,
                parent,
                ms,
                t.heat,
                t.motion,
                config.dt,
                config.sleep.sleep_time,
                config.sleep.wake_gate_k,
                m,
                i,
            );
            assert(sleep_state(after, to.wake_streak@).linvel == after.linvel@);
        }
    }
}

} // verus!
