//! What sleeping and waking promise.

use crate::body::BodySet;
use crate::contact::Manifold;
use crate::group::{listed_once, members};
use crate::island::{manifolds_in, Island};
use crate::scalar::{Scalar, Vec3};
use crate::sleep::{
    all_judged, calm, falls_asleep, judged, manifs_exist, rest_all, rest_of, rested_for, settled_with,
    shortest_rest, sleep_pass, sleep_pass_island, sleep_pass_whole, sleep_state, wake_all, wake_by, Heat, Motion,
    SleepConfig, SleepState,
};
use crate::stats::Counters;
use vstd::prelude::*;

verus! {

pub proof fn lemma_least_rest(
    bodies: &BodySet,
    motion: Seq<Motion>,
    dt: Scalar,
    ids: Seq<u32>,
    k: int,
)
    requires
        0 <= k <= ids.len(),
    ensures
        ({
            let least = shortest_rest(bodies, motion, dt, ids, k);
            &&& !least.is_nan_spec()
            &&& least.rank() <= 0x7f7f_ffff
            &&& forall|j: int|
                #![trigger ids[j]]
                0 <= j < k && !rested_for(bodies, motion, dt, ids[j] as int).is_nan_spec()
                    ==> least.rank() <= rested_for(bodies, motion, dt, ids[j] as int).rank()
            &&& least.rank() == 0x7f7f_ffff || exists|j: int|
                #![trigger ids[j]]
                0 <= j < k && least == rested_for(bodies, motion, dt, ids[j] as int)
        }),
    decreases k,
{
    if k > 0 {
        lemma_least_rest(bodies, motion, dt, ids, k - 1);
        let before = shortest_rest(bodies, motion, dt, ids, k - 1);
        let here = rested_for(bodies, motion, dt, ids[k - 1] as int);
        let least = before.min_spec(here);
        assert(least == before || least == ({
            let q = ids[k - 1];
            rested_for(bodies, motion, dt, q as int)
        }));
    }
}

/// What the island rule does to an island: once none of its bodies is fast and each has
/// rested for the sleep time all of them are asleep and at rest; one that is fast, or has
/// rested for less, keeps all of them awake.
pub open spec fn island_rule(
    before: &BodySet,
    after: &BodySet,
    motion: Seq<Motion>,
    dt: Scalar,
    sleep_time: Scalar,
    ids: Seq<u32>,
) -> bool {
    &&& (forall|k: int|
        0 <= k < ids.len() ==> {
            let i = #[trigger] ids[k] as int;
            &&& !motion[i].fast
            &&& before.awake@[i] ==> sleep_time.le_spec(motion[i].advanced)
            &&& !before.awake@[i] ==> sleep_time.le_spec(dt)
        }) ==> forall|k: int|
        0 <= k < ids.len() ==> {
            let i = #[trigger] ids[k] as int;
            &&& !after.awake@[i]
            &&& after.linvel@[i] == (Vec3 {
                x: Scalar { bits: 0 },
                y: Scalar { bits: 0 },
                z: Scalar { bits: 0 },
            })
            &&& after.angvel@[i] == after.linvel@[i]
        }
    &&& (exists|k: int|
        0 <= k < ids.len() && {
            let i = #[trigger] ids[k] as int;
            motion[i].fast || if before.awake@[i] {
                motion[i].advanced.lt_spec(sleep_time)
            } else {
                dt.lt_spec(sleep_time)
            }
        }) ==> forall|k: int|
        0 <= k < ids.len() ==> {
            let i = #[trigger] ids[k] as int;
            &&& after.awake@[i]
            &&& after.linvel@[i] == before.linvel@[i]
            &&& after.angvel@[i] == before.angvel@[i]
        }
}

pub proof fn lemma_island_rule(
    before: &BodySet,
    after: &BodySet,
    motion: Seq<Motion>,
    dt: Scalar,
    sleep_time: Scalar,
    ids: Seq<u32>,
)
    requires
        sleep_time.le_spec(Scalar { bits: 0x7f7f_ffff }),
        forall|k: int|
            0 <= k < ids.len() ==> settled_with(
                before,
                after,
                motion,
                dt,
                sleep_time,
                ids,
                #[trigger] ids[k] as int,
            ),
    ensures
        island_rule(before, after, motion, dt, sleep_time, ids),
{
    lemma_least_rest(before, motion, dt, ids, ids.len() as int);
}

/// Under the island rule an island falls asleep exactly when none of its bodies is
/// fast and each has rested for the sleep time, however many bodies it has: then all
/// of them are asleep and at rest. One fast body keeps all of them awake and starts
/// all timers over; one body that has rested for less keeps all of them awake and
/// the timers run on. A body that was asleep has rested for this step alone.
pub proof fn islands_sleep_once_all_have_rested(
    bodies: &mut BodySet,
    islands: &[Island],
    manifolds: &[Manifold],
    heat: &[Heat],
    motion: &[Motion],
    config: &SleepConfig,
    dt: Scalar,
    wake_streak: &mut Vec<u32>,
    sleep_resets: &mut u32,
    counters: &mut Counters,
    r: Vec<Scalar>,
    s: int,
)
    requires
        call_ensures(
            sleep_pass,
            (
                bodies,
                islands,
                manifolds,
                heat,
                motion,
                config,
                dt,
                false,
                wake_streak,
                sleep_resets,
                counters,
            ),
            r,
        ),
        !config.per_body,
        config.sleep_time.le_spec(Scalar { bits: 0x7f7f_ffff }),
        0 <= s < islands@.len(),
    ensures
        (forall|k: int|
            0 <= k < islands@[s].bodies@.len() ==> {
                let i = #[trigger] islands@[s].bodies@[k] as int;
                &&& !motion@[i].fast
                &&& old(bodies).awake@[i] ==> config.sleep_time.le_spec(motion@[i].advanced)
                &&& !old(bodies).awake@[i] ==> config.sleep_time.le_spec(dt)
            }) ==> forall|k: int|
            0 <= k < islands@[s].bodies@.len() ==> {
                let i = #[trigger] islands@[s].bodies@[k] as int;
                &&& !final(bodies).awake@[i]
                &&& final(bodies).linvel@[i] == (Vec3 {
                    x: Scalar { bits: 0 },
                    y: Scalar { bits: 0 },
                    z: Scalar { bits: 0 },
                })
                &&& final(bodies).angvel@[i] == final(bodies).linvel@[i]
            },
        (exists|k: int|
            0 <= k < islands@[s].bodies@.len() && motion@[#[trigger] islands@[s].bodies@[k] as int].fast)
            ==> forall|k: int|
            0 <= k < islands@[s].bodies@.len() ==> {
                let i = #[trigger] islands@[s].bodies@[k] as int;
                &&& final(bodies).awake@[i]
                &&& final(bodies).sleep_timer@[i] == (Scalar { bits: 0 })
                &&& final(bodies).linvel@[i] == old(bodies).linvel@[i]
                &&& final(bodies).angvel@[i] == old(bodies).angvel@[i]
            },
        (exists|k: int|
            0 <= k < islands@[s].bodies@.len() && {
                let i = #[trigger] islands@[s].bodies@[k] as int;
                if old(bodies).awake@[i] {
                    motion@[i].advanced.lt_spec(config.sleep_time)
                } else {
                    dt.lt_spec(config.sleep_time)
                }
            }) ==> forall|k: int|
            0 <= k < islands@[s].bodies@.len() ==> {
                let i = #[trigger] islands@[s].bodies@[k] as int;
                &&& final(bodies).awake@[i]
                &&& final(bodies).linvel@[i] == old(bodies).linvel@[i]
                &&& final(bodies).angvel@[i] == old(bodies).angvel@[i]
            },
        (forall|k: int|
            0 <= k < islands@[s].bodies@.len()
                ==> !motion@[#[trigger] islands@[s].bodies@[k] as int].fast) ==> forall|k: int|
            0 <= k < islands@[s].bodies@.len() ==> {
                let i = #[trigger] islands@[s].bodies@[k] as int;
                final(bodies).sleep_timer@[i] == if old(bodies).awake@[i] {
                    motion@[i].advanced
                } else {
                    dt
                }
            },
{
    let ids = islands@[s].bodies@;
    let b = *old(bodies);
    lemma_least_rest(&b, motion@, dt, ids, ids.len() as int);
    assert forall|k: int| 0 <= k < ids.len() implies settled_with(
        &b,
        final(bodies),
        motion@,
        dt,
        config.sleep_time,
        ids,
        #[trigger] ids[k] as int,
    ) by {
        assert(islands@[s].bodies@[k] == ids[k]);
    }
}

/// One island judged under the island rule: exactly one of the three counters of
/// outcomes goes up by one. A wait is reported exactly for an island that is calm and
/// stays awake, and it is the rest of one of its bodies that no other body undercuts.
pub proof fn one_outcome_is_counted(
    bodies: &mut BodySet,
    island: &Island,
    motion: &[Motion],
    dt: Scalar,
    sleep_time: Scalar,
    deep: bool,
    sleep_resets: &mut u32,
    counters: &mut Counters,
    shortest: Option<Scalar>,
    j: int,
)
    requires
        call_ensures(
            sleep_pass_whole,
            (bodies, island, motion, dt, sleep_time, deep, sleep_resets, counters),
            shortest,
        ),
        0 <= j < island.bodies@.len(),
        forall|k: int|
            0 <= k < island.bodies@.len()
                ==> !motion@[#[trigger] island.bodies@[k] as int].advanced.is_nan_spec(),
        !dt.is_nan_spec(),
    ensures
        motion@[island.bodies@[j] as int].fast ==> {
            &&& final(counters).sleep_fast == (old(counters).sleep_fast + 1) % 0x1_0000_0000_0000_0000
            &&& final(counters).sleep_slept == old(counters).sleep_slept
            &&& final(counters).sleep_wait == old(counters).sleep_wait
            &&& *final(sleep_resets) == *old(sleep_resets) + island.bodies@.len()
            &&& shortest is None
        },
        (forall|k: int|
            0 <= k < island.bodies@.len() ==> !motion@[#[trigger] island.bodies@[k] as int].fast)
            ==> {
            let asleep = !final(bodies).awake@[island.bodies@[j] as int];
            &&& final(counters).sleep_fast == old(counters).sleep_fast
            &&& final(counters).sleep_slept == (old(counters).sleep_slept + if asleep {
                1int
            } else {
                0
            }) % 0x1_0000_0000_0000_0000
            &&& final(counters).sleep_wait == (old(counters).sleep_wait + if asleep {
                0int
            } else {
                1
            }) % 0x1_0000_0000_0000_0000
            &&& *final(sleep_resets) == *old(sleep_resets)
            &&& shortest is None <==> asleep
            &&& shortest is Some ==> shortest.unwrap().le_spec(
                if old(bodies).awake@[island.bodies@[j] as int] {
                    motion@[island.bodies@[j] as int].advanced
                } else {
                    dt
                },
            )
            &&& shortest is Some ==> shortest.unwrap() == (Scalar { bits: 0x7f7f_ffff }) || exists|k: int|
                0 <= k < island.bodies@.len() && {
                    let i = #[trigger] island.bodies@[k] as int;
                    shortest.unwrap() == if old(bodies).awake@[i] {
                        motion@[i].advanced
                    } else {
                        dt
                    }
                }
        },
{
    let ids = island.bodies@;
    let b = *old(bodies);
    lemma_least_rest(&b, motion@, dt, ids, ids.len() as int);
    assert(ids[j] == island.bodies@[j]);
    assert(settled_with(&b, final(bodies), motion@, dt, sleep_time, ids, ids[j] as int));
    let least = shortest_rest(&b, motion@, dt, ids, ids.len() as int);
    assert(least.rank() == 0x7f7f_ffff ==> least == (Scalar { bits: 0x7f7f_ffff }));
}

/// The manifold touches body `i`.
pub open spec fn touches(m: Manifold, i: int) -> bool {
    m.a == i || m.b == i
}

/// The two states agree on body `i`.
pub open spec fn same_body(x: SleepState, y: SleepState, i: int) -> bool {
    &&& x.awake[i] == y.awake[i]
    &&& x.timer[i] == y.timer[i]
    &&& x.linvel[i] == y.linvel[i]
    &&& x.angvel[i] == y.angvel[i]
}

/// One entry for each of `n` bodies.
pub open spec fn sized(st: SleepState, n: nat) -> bool {
    st.awake.len() == n && st.timer.len() == n && st.linvel.len() == n && st.angvel.len() == n
}

proof fn lemma_wake_sized(
    st: SleepState,
    list: Seq<usize>,
    ms: Seq<Manifold>,
    heat: Seq<Heat>,
    gate: u32,
    k: int,
    n: nat,
)
    requires
        sized(st, n),
        0 <= k <= list.len(),
        forall|q: int| 0 <= q < list.len() ==> #[trigger] list[q] < ms.len(),
        manifolds_in(ms, n as int),
    ensures
        sized(wake_all(st, list, ms, heat, gate, k), n),
    decreases k,
{
    if k > 0 {
        lemma_wake_sized(st, list, ms, heat, gate, k - 1, n);
        assert(list[k - 1] < ms.len());
        assert(ms[list[k - 1] as int].a < n);
    }
}

proof fn lemma_rest_sized(
    st: SleepState,
    was_awake: Seq<bool>,
    motion: Seq<Motion>,
    dt: Scalar,
    sleep_time: Scalar,
    ids: Seq<u32>,
    k: int,
    n: nat,
)
    requires
        sized(st, n),
        0 <= k <= ids.len(),
        forall|q: int| 0 <= q < k ==> 0 <= #[trigger] ids[q] < n,
    ensures
        sized(rest_all(st, was_awake, motion, dt, sleep_time, ids, k), n),
    decreases k,
{
    if k > 0 {
        lemma_rest_sized(st, was_awake, motion, dt, sleep_time, ids, k - 1, n);
        assert(ids[k - 1] < n);
    }
}

/// An awake body is as it was while contacts are looked at, and so is one whose
/// manifolds are all cool towards it.
proof fn lemma_wake_leaves(
    st: SleepState,
    list: Seq<usize>,
    ms: Seq<Manifold>,
    heat: Seq<Heat>,
    gate: u32,
    k: int,
    n: nat,
    i: int,
)
    requires
        sized(st, n),
        0 <= i < n,
        0 <= k <= list.len(),
        forall|q: int| 0 <= q < list.len() ==> #[trigger] list[q] < ms.len(),
        manifolds_in(ms, n as int),
        st.awake[i] || forall|q: int|
            0 <= q < list.len() ==> {
                let m = ms[#[trigger] list[q] as int];
                let h = heat[list[q] as int];
                &&& m.a == i ==> !h.hot_from_b
                &&& m.b == i ==> !h.hot_from_a
            },
    ensures
        same_body(wake_all(st, list, ms, heat, gate, k), st, i),
    decreases k,
{
    if k > 0 {
        lemma_wake_leaves(st, list, ms, heat, gate, k - 1, n, i);
        lemma_wake_sized(st, list, ms, heat, gate, k - 1, n);
        assert(list[k - 1] < ms.len());
        let m = ms[list[k - 1] as int];
        assert(m.a < n && m.b < n);
    }
}

proof fn lemma_rest_elsewhere(
    st: SleepState,
    was_awake: Seq<bool>,
    motion: Seq<Motion>,
    dt: Scalar,
    sleep_time: Scalar,
    ids: Seq<u32>,
    k: int,
    n: nat,
    i: int,
)
    requires
        sized(st, n),
        0 <= i < n,
        0 <= k <= ids.len(),
        forall|q: int| 0 <= q < k ==> 0 <= #[trigger] ids[q] < n && ids[q] != i,
    ensures
        same_body(rest_all(st, was_awake, motion, dt, sleep_time, ids, k), st, i),
    decreases k,
{
    if k > 0 {
        lemma_rest_elsewhere(st, was_awake, motion, dt, sleep_time, ids, k - 1, n, i);
        lemma_rest_sized(st, was_awake, motion, dt, sleep_time, ids, k - 1, n);
        assert(ids[k - 1] != i);
    }
}

/// What the body rule makes of an awake body.
pub open spec fn rested(st: SleepState, t: SleepState, was_awake: bool, m: Motion, dt: Scalar, sleep_time: Scalar, i: int) -> bool {
    let rest = if was_awake {
        m.advanced
    } else {
        dt
    };
    if st.awake[i] {
        &&& t.awake[i] == !(m.slow && sleep_time.le_spec(rest))
        &&& t.timer[i] == if m.slow {
            rest
        } else {
            Scalar { bits: 0 }
        }
        &&& t.linvel[i] == if t.awake[i] {
            st.linvel[i]
        } else {
            Vec3 { x: Scalar { bits: 0 }, y: Scalar { bits: 0 }, z: Scalar { bits: 0 } }
        }
        &&& t.angvel[i] == if t.awake[i] {
            st.angvel[i]
        } else {
            Vec3 { x: Scalar { bits: 0 }, y: Scalar { bits: 0 }, z: Scalar { bits: 0 } }
        }
    } else {
        same_body(st, t, i)
    }
}

proof fn lemma_rest_one(
    st: SleepState,
    was_awake: Seq<bool>,
    motion: Seq<Motion>,
    dt: Scalar,
    sleep_time: Scalar,
    ids: Seq<u32>,
    n: nat,
    p: int,
    k: int,
)
    requires
        sized(st, n),
        ids.no_duplicates(),
        0 <= p < k <= ids.len(),
        forall|q: int| 0 <= q < ids.len() ==> 0 <= #[trigger] ids[q] < n,
    ensures
        rested(
            st,
            rest_all(st, was_awake, motion, dt, sleep_time, ids, k),
            was_awake[ids[p] as int],
            motion[ids[p] as int],
            dt,
            sleep_time,
            ids[p] as int,
        ),
    decreases k,
{
    let i = ids[p] as int;
    lemma_rest_sized(st, was_awake, motion, dt, sleep_time, ids, k - 1, n);
    assert(0 <= ids[k - 1] < n);
    if p == k - 1 {
        assert forall|q: int| 0 <= q < p implies 0 <= #[trigger] ids[q] < n && ids[q] != i by {
            assert(ids[q] != ids[p]);
        }
        lemma_rest_elsewhere(st, was_awake, motion, dt, sleep_time, ids, p, n, i);
    } else {
        lemma_rest_one(st, was_awake, motion, dt, sleep_time, ids, n, p, k - 1);
        assert(ids[k - 1] != ids[p]);
    }
}

proof fn lemma_judged_sized(
    st: SleepState,
    was_awake: Seq<bool>,
    islands: Seq<Island>,
    ms: Seq<Manifold>,
    heat: Seq<Heat>,
    motion: Seq<Motion>,
    dt: Scalar,
    sleep_time: Scalar,
    gate: u32,
    k: int,
    n: nat,
)
    requires
        sized(st, n),
        0 <= k <= islands.len(),
        manifolds_in(ms, n as int),
        manifs_exist(islands, ms),
        forall|t: int, q: int|
            0 <= t < islands.len() && 0 <= q < islands[t].bodies@.len()
                ==> 0 <= #[trigger] islands[t].bodies@[q] < n,
    ensures
        sized(all_judged(st, was_awake, islands, ms, heat, motion, dt, sleep_time, gate, k), n),
    decreases k,
{
    if k > 0 {
        lemma_judged_sized(st, was_awake, islands, ms, heat, motion, dt, sleep_time, gate, k - 1, n);
        let before = all_judged(
            st,
            was_awake,
            islands,
            ms,
            heat,
            motion,
            dt,
            sleep_time,
            gate,
            k - 1,
        );
        let t = k - 1;
        let island = islands[t];
        assert forall|q: int| 0 <= q < island.manifs@.len() implies #[trigger] island.manifs@[q]
            < ms.len() by {
            assert(islands[t].manifs@[q] < ms.len());
        }
        assert forall|q: int| 0 <= q < island.bodies@.len() implies 0 <= #[trigger] island.bodies@[q]
            < n by {
            assert(islands[t].bodies@[q] < n);
        }
        lemma_wake_sized(before, island.manifs@, ms, heat, gate, island.manifs@.len() as int, n);
        lemma_rest_sized(
            wake_all(before, island.manifs@, ms, heat, gate, island.manifs@.len() as int),
            was_awake,
            motion,
            dt,
            sleep_time,
            island.bodies@,
            island.bodies@.len() as int,
            n,
        );
    }
}

proof fn lemma_judged_elsewhere(
    st: SleepState,
    was_awake: Seq<bool>,
    island: &Island,
    ms: Seq<Manifold>,
    heat: Seq<Heat>,
    motion: Seq<Motion>,
    dt: Scalar,
    sleep_time: Scalar,
    gate: u32,
    n: nat,
    i: int,
)
    requires
        sized(st, n),
        0 <= i < n,
        manifolds_in(ms, n as int),
        forall|q: int|
            0 <= q < island.manifs@.len() ==> #[trigger] island.manifs@[q] < ms.len() && !touches(
                ms[island.manifs@[q] as int],
                i,
            ),
        forall|q: int|
            0 <= q < island.bodies@.len() ==> 0 <= #[trigger] island.bodies@[q] < n
                && island.bodies@[q] != i,
    ensures
        same_body(
            judged(st, was_awake, island, ms, heat, motion, dt, sleep_time, gate),
            st,
            i,
        ),
{
    let k = island.manifs@.len() as int;
    lemma_wake_leaves(st, island.manifs@, ms, heat, gate, k, n, i);
    lemma_wake_sized(st, island.manifs@, ms, heat, gate, k, n);
    lemma_rest_elsewhere(
        wake_all(st, island.manifs@, ms, heat, gate, k),
        was_awake,
        motion,
        dt,
        sleep_time,
        island.bodies@,
        island.bodies@.len() as int,
        n,
        i,
    );
}

/// No island but `s` has to do with body `i`.
pub open spec fn only_in(islands: Seq<Island>, ms: Seq<Manifold>, s: int, i: int) -> bool {
    forall|t: int|
        #![trigger islands[t]]
        0 <= t < islands.len() && t != s ==> {
            &&& forall|q: int|
                0 <= q < islands[t].manifs@.len() ==> !touches(
                    ms[#[trigger] islands[t].manifs@[q] as int],
                    i,
                )
            &&& forall|q: int|
                0 <= q < islands[t].bodies@.len() ==> #[trigger] islands[t].bodies@[q] != i
        }
}

proof fn lemma_judged_run(
    st: SleepState,
    was_awake: Seq<bool>,
    islands: Seq<Island>,
    ms: Seq<Manifold>,
    heat: Seq<Heat>,
    motion: Seq<Motion>,
    dt: Scalar,
    sleep_time: Scalar,
    gate: u32,
    k: int,
    n: nat,
    s: int,
    i: int,
)
    requires
        sized(st, n),
        0 <= i < n,
        0 <= s < islands.len(),
        0 <= k <= islands.len(),
        manifolds_in(ms, n as int),
        manifs_exist(islands, ms),
        only_in(islands, ms, s, i),
        forall|t: int, q: int|
            0 <= t < islands.len() && 0 <= q < islands[t].bodies@.len()
                ==> 0 <= #[trigger] islands[t].bodies@[q] < n,
    ensures
        ({
            let end = all_judged(st, was_awake, islands, ms, heat, motion, dt, sleep_time, gate, k);
            let before = all_judged(st, was_awake, islands, ms, heat, motion, dt, sleep_time, gate, s);
            let after = judged(
                before,
                was_awake,
                &islands[s],
                ms,
                heat,
                motion,
                dt,
                sleep_time,
                gate,
            );
            &&& k <= s ==> same_body(end, st, i)
            &&& k > s ==> same_body(before, st, i) && same_body(end, after, i)
        }),
    decreases k,
{
    if k > 0 {
        lemma_judged_run(
            st,
            was_awake,
            islands,
            ms,
            heat,
            motion,
            dt,
            sleep_time,
            gate,
            k - 1,
            n,
            s,
            i,
        );
        lemma_judged_sized(st, was_awake, islands, ms, heat, motion, dt, sleep_time, gate, k - 1, n);
        let before = all_judged(
            st,
            was_awake,
            islands,
            ms,
            heat,
            motion,
            dt,
            sleep_time,
            gate,
            k - 1,
        );
        if k - 1 != s {
            let t = k - 1;
            assert(islands[t] == islands[k - 1]);
            lemma_judged_elsewhere(
                before,
                was_awake,
                &islands[t],
                ms,
                heat,
                motion,
                dt,
                sleep_time,
                gate,
                n,
                i,
            );
        }
    }
}

proof fn lemma_island_bodies(islands: Seq<Island>, n: int, hi: int, s: int, p: int)
    requires
        0 <= s < hi <= islands.len(),
        0 <= p < islands[s].bodies@.len(),
    ensures
        members(islands, 0, hi).contains(islands[s].bodies@[p]),
        members(islands, 0, hi).no_duplicates() ==> islands[s].bodies@.no_duplicates(),
    decreases hi,
{
    let all = members(islands, 0, hi);
    let most = members(islands, 0, hi - 1);
    let here = islands[hi - 1].bodies@;
    assert(all == most + here);
    if s == hi - 1 {
        assert(all[most.len() + p] == here[p]);
        if all.no_duplicates() {
            assert forall|x: int, y: int| 0 <= x < here.len() && 0 <= y < here.len() && x != y implies here[x]
                != here[y] by {
                assert(all[most.len() + x] == here[x]);
                assert(all[most.len() + y] == here[y]);
            }
        }
    } else {
        lemma_island_bodies(islands, n, hi - 1, s, p);
        let x = choose|x: int| 0 <= x < most.len() && most[x] == islands[s].bodies@[p];
        assert(all[x] == most[x]);
        if all.no_duplicates() {
            assert forall|x: int, y: int| 0 <= x < most.len() && 0 <= y < most.len() && x != y implies most[x]
                != most[y] by {
                assert(all[x] == most[x]);
                assert(all[y] == most[y]);
            }
        }
    }
}

/// Under the body rule an awake body falls asleep exactly when it is slow and has
/// rested for the sleep time, and then it is at rest; a slow one that has not keeps
/// its rest, and any other starts over. A sleeping body none of whose contacts is hot
/// towards it sleeps on, untouched.
pub proof fn bodies_sleep_once_rested(
    bodies: &mut BodySet,
    islands: &[Island],
    manifolds: &[Manifold],
    heat: &[Heat],
    motion: &[Motion],
    config: &SleepConfig,
    dt: Scalar,
    wake_streak: &mut Vec<u32>,
    sleep_resets: &mut u32,
    counters: &mut Counters,
    r: Vec<Scalar>,
    s: int,
    p: int,
)
    requires
        call_ensures(
            sleep_pass,
            (
                bodies,
                islands,
                manifolds,
                heat,
                motion,
                config,
                dt,
                false,
                wake_streak,
                sleep_resets,
                counters,
            ),
            r,
        ),
        old(bodies).wf(),
        manifolds_in(manifolds@, old(bodies).count() as int),
        listed_once(islands@, old(bodies).count() as int),
        manifs_exist(islands@, manifolds@),
        config.per_body,
        0 <= s < islands@.len(),
        0 <= p < islands@[s].bodies@.len(),
        only_in(islands@, manifolds@, s, islands@[s].bodies@[p] as int),
    ensures
        ({
            let i = islands@[s].bodies@[p] as int;
            let m = motion@[i];
            let zero = Vec3 { x: Scalar { bits: 0 }, y: Scalar { bits: 0 }, z: Scalar { bits: 0 } };
            &&& old(bodies).awake@[i] && m.slow && config.sleep_time.le_spec(m.advanced) ==> {
                &&& !final(bodies).awake@[i]
                &&& final(bodies).sleep_timer@[i] == m.advanced
                &&& final(bodies).linvel@[i] == zero
                &&& final(bodies).angvel@[i] == zero
            }
            &&& old(bodies).awake@[i] && !(m.slow && config.sleep_time.le_spec(m.advanced)) ==> {
                &&& final(bodies).awake@[i]
                &&& final(bodies).sleep_timer@[i] == if m.slow {
                    m.advanced
                } else {
                    Scalar { bits: 0 }
                }
                &&& final(bodies).linvel@[i] == old(bodies).linvel@[i]
                &&& final(bodies).angvel@[i] == old(bodies).angvel@[i]
            }
            &&& !old(bodies).awake@[i] && (forall|q: int|
                0 <= q < islands@[s].manifs@.len() ==> {
                    let c = manifolds@[#[trigger] islands@[s].manifs@[q] as int];
                    let h = heat@[islands@[s].manifs@[q] as int];
                    &&& c.a == i ==> !h.hot_from_b
                    &&& c.b == i ==> !h.hot_from_a
                }) ==> {
                &&& !final(bodies).awake@[i]
                &&& final(bodies).sleep_timer@[i] == old(bodies).sleep_timer@[i]
                &&& final(bodies).linvel@[i] == old(bodies).linvel@[i]
                &&& final(bodies).angvel@[i] == old(bodies).angvel@[i]
            }
        }),
{
    let i = islands@[s].bodies@[p] as int;
    let (st, before, awoken) = lemma_judged_at(
        *old(bodies),
        *final(bodies),
        islands@,
        manifolds@,
        heat@,
        motion@,
        *config,
        dt,
        old(wake_streak)@,
        final(wake_streak)@,
        s,
        p,
    );
    let n = old(bodies).count();
    let list = islands@[s].manifs@;
    assert forall|q: int| 0 <= q < list.len() implies #[trigger] list[q] < manifolds@.len() by {
        assert(islands@[s].manifs@[q] < manifolds@.len());
    }
    if old(bodies).awake@[i] || forall|q: int|
        0 <= q < list.len() ==> {
            let m = manifolds@[#[trigger] list[q] as int];
            let h = heat@[list[q] as int];
            &&& m.a == i ==> !h.hot_from_b
            &&& m.b == i ==> !h.hot_from_a
        } {
        lemma_wake_leaves(before, list, manifolds@, heat@, config.wake_gate_k, list.len() as int, n, i);
    }
}

/// What the body rule makes of body `p` of island `s`: the state before the island,
/// the state once its contacts were looked at, and the outcome.
proof fn lemma_judged_at(
    b: BodySet,
    e: BodySet,
    islands: Seq<Island>,
    ms: Seq<Manifold>,
    heat: Seq<Heat>,
    motion: Seq<Motion>,
    config: SleepConfig,
    dt: Scalar,
    streak: Seq<u32>,
    streak_after: Seq<u32>,
    s: int,
    p: int,
) -> (r: (SleepState, SleepState, SleepState))
    requires
        crate::sleep::slept(
            &b,
            &e,
            islands,
            ms,
            heat,
            motion,
            config,
            dt,
            false,
            streak,
            streak_after,
        ),
        b.wf(),
        manifolds_in(ms, b.count() as int),
        listed_once(islands, b.count() as int),
        manifs_exist(islands, ms),
        config.per_body,
        0 <= s < islands.len(),
        0 <= p < islands[s].bodies@.len(),
        only_in(islands, ms, s, islands[s].bodies@[p] as int),
    ensures
        islands[s].bodies@[p] < b.count(),
        r.0 == sleep_state(&b, crate::sleep::fresh_streak(streak, b.count(), config.wake_gate_k)),
        r.1 == all_judged(
            r.0,
            b.awake@,
            islands,
            ms,
            heat,
            motion,
            dt,
            config.sleep_time,
            config.wake_gate_k,
            s,
        ),
        sized(r.1, b.count()),
        same_body(r.1, r.0, islands[s].bodies@[p] as int),
        r.2 == wake_all(
            r.1,
            islands[s].manifs@,
            ms,
            heat,
            config.wake_gate_k,
            islands[s].manifs@.len() as int,
        ),
        rested(
            r.2,
            sleep_state(&e, streak_after),
            b.awake@[islands[s].bodies@[p] as int],
            motion[islands[s].bodies@[p] as int],
            dt,
            config.sleep_time,
            islands[s].bodies@[p] as int,
        ),
{
    let n = b.count();
    let m = islands.len() as int;
    let i = islands[s].bodies@[p] as int;
    let st = sleep_state(&b, crate::sleep::fresh_streak(streak, n, config.wake_gate_k));
    let all = members(islands, 0, m);
    assert forall|t: int, q: int| 0 <= t < m && 0 <= q < islands[t].bodies@.len() implies 0
        <= #[trigger] islands[t].bodies@[q] < n by {
        lemma_island_bodies(islands, n as int, m, t, q);
        let x = choose|x: int| 0 <= x < all.len() && all[x] == islands[t].bodies@[q];
        assert(all[x] < n);
    }
    lemma_island_bodies(islands, n as int, m, s, p);
    lemma_judged_run(
        st,
        b.awake@,
        islands,
        ms,
        heat,
        motion,
        dt,
        config.sleep_time,
        config.wake_gate_k,
        m,
        n,
        s,
        i,
    );
    lemma_judged_sized(
        st,
        b.awake@,
        islands,
        ms,
        heat,
        motion,
        dt,
        config.sleep_time,
        config.wake_gate_k,
        s,
        n,
    );
    let before = all_judged(
        st,
        b.awake@,
        islands,
        ms,
        heat,
        motion,
        dt,
        config.sleep_time,
        config.wake_gate_k,
        s,
    );
    let list = islands[s].manifs@;
    assert forall|q: int| 0 <= q < list.len() implies #[trigger] list[q] < ms.len() by {
        assert(islands[s].manifs@[q] < ms.len());
    }
    lemma_wake_sized(before, list, ms, heat, config.wake_gate_k, list.len() as int, n);
    let awoken = wake_all(before, list, ms, heat, config.wake_gate_k, list.len() as int);
    let ids = islands[s].bodies@;
    assert forall|q: int| 0 <= q < ids.len() implies 0 <= #[trigger] ids[q] < n by {
        assert(0 <= islands[s].bodies@[q] < n);
    }
    lemma_rest_one(
        awoken,
        b.awake@,
        motion,
        dt,
        config.sleep_time,
        ids,
        n,
        p,
        ids.len() as int,
    );
    (st, before, awoken)
}

/// Body `j` pushes body `i` in the manifold, hard enough to wake it.
pub open spec fn pushes(m: Manifold, h: Heat, j: int, i: int) -> bool {
    ||| m.a == j && m.b == i && h.hot_from_a
    ||| m.b == j && m.a == i && h.hot_from_b
}

proof fn lemma_push_wakes(
    st: SleepState,
    list: Seq<usize>,
    ms: Seq<Manifold>,
    heat: Seq<Heat>,
    gate: u32,
    k: int,
    n: nat,
    j: int,
    i: int,
    q: int,
)
    requires
        sized(st, n),
        0 <= i < n,
        0 <= j < n,
        0 <= q < k <= list.len(),
        forall|x: int| 0 <= x < list.len() ==> #[trigger] list[x] < ms.len(),
        manifolds_in(ms, n as int),
        st.awake[j],
        pushes(ms[list[q] as int], heat[list[q] as int], j, i),
        gate == 0 || heat[list[q] as int].fast,
    ensures
        wake_all(st, list, ms, heat, gate, k).awake[i],
    decreases k,
{
    lemma_wake_sized(st, list, ms, heat, gate, k - 1, n);
    assert(list[k - 1] < ms.len());
    assert(ms[list[k - 1] as int].a < n);
    if q < k - 1 {
        lemma_push_wakes(st, list, ms, heat, gate, k - 1, n, j, i, q);
    } else {
        lemma_wake_leaves(st, list, ms, heat, gate, k - 1, n, j);
    }
}

/// Under the body rule, without a gate or when the motion is fast, one hot contact
/// with an awake body is enough to wake a sleeping one: it ends the pass awake, its
/// rest started over, unless it is slow and the step alone is long enough to fall
/// asleep again.
pub proof fn a_hot_contact_wakes(
    bodies: &mut BodySet,
    islands: &[Island],
    manifolds: &[Manifold],
    heat: &[Heat],
    motion: &[Motion],
    config: &SleepConfig,
    dt: Scalar,
    wake_streak: &mut Vec<u32>,
    sleep_resets: &mut u32,
    counters: &mut Counters,
    r: Vec<Scalar>,
    s: int,
    p: int,
    o: int,
    q: int,
)
    requires
        call_ensures(
            sleep_pass,
            (
                bodies,
                islands,
                manifolds,
                heat,
                motion,
                config,
                dt,
                false,
                wake_streak,
                sleep_resets,
                counters,
            ),
            r,
        ),
        old(bodies).wf(),
        manifolds_in(manifolds@, old(bodies).count() as int),
        listed_once(islands@, old(bodies).count() as int),
        manifs_exist(islands@, manifolds@),
        config.per_body,
        0 <= s < islands@.len(),
        0 <= p < islands@[s].bodies@.len(),
        0 <= o < islands@[s].bodies@.len(),
        0 <= q < islands@[s].manifs@.len(),
        only_in(islands@, manifolds@, s, islands@[s].bodies@[p] as int),
        only_in(islands@, manifolds@, s, islands@[s].bodies@[o] as int),
        old(bodies).awake@[islands@[s].bodies@[o] as int],
        pushes(
            manifolds@[islands@[s].manifs@[q] as int],
            heat@[islands@[s].manifs@[q] as int],
            islands@[s].bodies@[o] as int,
            islands@[s].bodies@[p] as int,
        ),
        config.wake_gate_k == 0 || heat@[islands@[s].manifs@[q] as int].fast,
        !old(bodies).awake@[islands@[s].bodies@[p] as int],
    ensures
        ({
            let i = islands@[s].bodies@[p] as int;
            let m = motion@[i];
            &&& final(bodies).awake@[i] <==> !(m.slow && config.sleep_time.le_spec(dt))
            &&& final(bodies).sleep_timer@[i] == if m.slow {
                dt
            } else {
                Scalar { bits: 0 }
            }
        }),
{
    let i = islands@[s].bodies@[p] as int;
    let (st, before, awoken) = lemma_judged_at(
        *old(bodies),
        *final(bodies),
        islands@,
        manifolds@,
        heat@,
        motion@,
        *config,
        dt,
        old(wake_streak)@,
        final(wake_streak)@,
        s,
        p,
    );
    let (st2, before2, awoken2) = lemma_judged_at(
        *old(bodies),
        *final(bodies),
        islands@,
        manifolds@,
        heat@,
        motion@,
        *config,
        dt,
        old(wake_streak)@,
        final(wake_streak)@,
        s,
        o,
    );
    let n = old(bodies).count();
    let list = islands@[s].manifs@;
    assert forall|x: int| 0 <= x < list.len() implies #[trigger] list[x] < manifolds@.len() by {
        assert(islands@[s].manifs@[x] < manifolds@.len());
    }
    lemma_push_wakes(
        before,
        list,
        manifolds@,
        heat@,
        config.wake_gate_k,
        list.len() as int,
        n,
        islands@[s].bodies@[o] as int,
        i,
        q,
    );
}

proof fn lemma_pushes_count(
    st: SleepState,
    list: Seq<usize>,
    ms: Seq<Manifold>,
    heat: Seq<Heat>,
    gate: u32,
    k: int,
    n: nat,
    j: int,
    i: int,
)
    requires
        sized(st, n),
        st.streak.len() >= n,
        0 <= i < n,
        0 <= j < n,
        0 <= k <= list.len(),
        forall|x: int| 0 <= x < list.len() ==> #[trigger] list[x] < ms.len(),
        manifolds_in(ms, n as int),
        st.awake[j],
        !st.awake[i],
        st.streak[i] == 0,
        gate > 0,
        forall|x: int|
            0 <= x < list.len() ==> {
                let m = ms[#[trigger] list[x] as int];
                pushes(m, heat[list[x] as int], j, i) && !heat[list[x] as int].fast
            },
    ensures
        ({
            let t = wake_all(st, list, ms, heat, gate, k);
            &&& sized(t, n)
            &&& t.streak.len() == st.streak.len()
            &&& t.awake[j]
            &&& t.awake[i] <==> k >= gate
            &&& k < gate ==> t.streak[i] == k && same_body(t, st, i)
        }),
    decreases k,
{
    if k > 0 {
        lemma_pushes_count(st, list, ms, heat, gate, k - 1, n, j, i);
        assert(list[k - 1] < ms.len());
        let m = ms[list[k - 1] as int];
        assert(m.a < n && m.b < n);
        assert(pushes(m, heat[list[k - 1] as int], j, i));
    }
}

/// Under the body rule with a wake count above zero it takes that many hot contacts in a
/// row: with fewer the body sleeps on untouched, with that many it wakes.
pub proof fn the_wake_count_counts_pushes(
    bodies: &mut BodySet,
    was_awake: &[bool],
    island: &Island,
    manifolds: &[Manifold],
    heat: &[Heat],
    motion: &[Motion],
    dt: Scalar,
    sleep_time: Scalar,
    gate: u32,
    wake_streak: &mut Vec<u32>,
    p: int,
    j: int,
)
    requires
        call_ensures(
            sleep_pass_island,
            (
                bodies,
                was_awake,
                island,
                manifolds,
                heat,
                motion,
                dt,
                sleep_time,
                gate,
                wake_streak,
            ),
            (),
        ),
        old(bodies).wf(),
        gate > 0,
        old(wake_streak)@.len() >= old(bodies).count(),
        manifolds_in(manifolds@, old(bodies).count() as int),
        island.bodies@.no_duplicates(),
        forall|k: int|
            0 <= k < island.bodies@.len() ==> #[trigger] island.bodies@[k] < old(bodies).count(),
        forall|k: int|
            0 <= k < island.manifs@.len() ==> {
                let mi = #[trigger] island.manifs@[k] as int;
                &&& mi < manifolds@.len()
                &&& pushes(manifolds@[mi], heat@[mi], j, island.bodies@[p] as int)
                &&& !heat@[mi].fast
            },
        0 <= p < island.bodies@.len(),
        0 <= j < old(bodies).count(),
        old(bodies).awake@[j],
        !old(bodies).awake@[island.bodies@[p] as int],
        !was_awake@[island.bodies@[p] as int],
        old(wake_streak)@[island.bodies@[p] as int] == 0,
    ensures
        ({
            let i = island.bodies@[p] as int;
            let slept_again = motion@[i].slow && sleep_time.le_spec(dt);
            &&& final(bodies).awake@[i] <==> island.manifs@.len() >= gate && !slept_again
            &&& island.manifs@.len() < gate ==> final(bodies).sleep_timer@[i]
                == old(bodies).sleep_timer@[i] && final(bodies).linvel@[i] == old(bodies).linvel@[i]
                && final(bodies).angvel@[i] == old(bodies).angvel@[i]
        }),
{
    let n = old(bodies).count();
    let i = island.bodies@[p] as int;
    let st = sleep_state(old(bodies), old(wake_streak)@);
    let list = island.manifs@;
    assert(island.bodies@[p] < n);
    lemma_pushes_count(st, list, manifolds@, heat@, gate, list.len() as int, n, j, i);
    lemma_rest_one(
        wake_all(st, list, manifolds@, heat@, gate, list.len() as int),
        was_awake@,
        motion@,
        dt,
        sleep_time,
        island.bodies@,
        n,
        p,
        island.bodies@.len() as int,
    );
}

/// The cleanup pass judges nothing: bodies, timers, counters and push counts are as
/// they were, and no wait is reported. Outside it, a body that belongs to no island
/// and that no contact of an island touches is as it was.
pub proof fn sleeping_leaves_the_rest_alone(
    bodies: &mut BodySet,
    islands: &[Island],
    manifolds: &[Manifold],
    heat: &[Heat],
    motion: &[Motion],
    config: &SleepConfig,
    dt: Scalar,
    cleanup: bool,
    wake_streak: &mut Vec<u32>,
    sleep_resets: &mut u32,
    counters: &mut Counters,
    r: Vec<Scalar>,
    i: int,
)
    requires
        call_ensures(
            sleep_pass,
            (
                bodies,
                islands,
                manifolds,
                heat,
                motion,
                config,
                dt,
                cleanup,
                wake_streak,
                sleep_resets,
                counters,
            ),
            r,
        ),
        old(bodies).wf(),
        manifolds_in(manifolds@, old(bodies).count() as int),
        listed_once(islands@, old(bodies).count() as int),
        manifs_exist(islands@, manifolds@),
        0 <= i < old(bodies).count(),
        only_in(islands@, manifolds@, -1, i),
    ensures
        final(bodies).awake@[i] == old(bodies).awake@[i],
        final(bodies).sleep_timer@[i] == old(bodies).sleep_timer@[i],
        final(bodies).linvel@[i] == old(bodies).linvel@[i],
        final(bodies).angvel@[i] == old(bodies).angvel@[i],
        final(bodies).position@ == old(bodies).position@,
        final(bodies).rotation@ == old(bodies).rotation@,
        final(bodies).dynamic@ == old(bodies).dynamic@,
        cleanup ==> *final(bodies) == *old(bodies) && final(wake_streak)@ == old(wake_streak)@
            && *final(sleep_resets) == *old(sleep_resets) && *final(counters) == *old(counters)
            && r@.len() == 0,
{
    let n = old(bodies).count();
    let m = islands@.len() as int;
    let all = members(islands@, 0, m);
    if !cleanup {
        if config.per_body {
            assert forall|t: int, q: int| 0 <= t < m && 0 <= q < islands@[t].bodies@.len() implies 0
                <= #[trigger] islands@[t].bodies@[q] < n by {
                lemma_island_bodies(islands@, n as int, m, t, q);
                let x = choose|x: int| 0 <= x < all.len() && all[x] == islands@[t].bodies@[q];
                assert(all[x] < n);
            }
            let st = sleep_state(
                old(bodies),
                if m > 0 {
                    crate::sleep::fresh_streak(old(wake_streak)@, n, config.wake_gate_k)
                } else {
                    old(wake_streak)@
                },
            );
            lemma_judged_nowhere(
                st,
                old(bodies).awake@,
                islands@,
                manifolds@,
                heat@,
                motion@,
                dt,
                config.sleep_time,
                config.wake_gate_k,
                m,
                n,
                i,
            );
        } else {
            lemma_not_a_member(islands@, m, i);
        }
    }
}

proof fn lemma_not_a_member(islands: Seq<Island>, hi: int, i: int)
    requires
        0 <= hi <= islands.len(),
        0 <= i <= u32::MAX,
        forall|t: int, q: int|
            0 <= t < islands.len() && 0 <= q < islands[t].bodies@.len()
                ==> #[trigger] islands[t].bodies@[q] != i,
    ensures
        !members(islands, 0, hi).contains(i as u32),
    decreases hi,
{
    if hi > 0 {
        lemma_not_a_member(islands, hi - 1, i);
        let all = members(islands, 0, hi);
        let most = members(islands, 0, hi - 1);
        let t = hi - 1;
        let here = islands[t].bodies@;
        assert(all == most + here);
        assert forall|x: int| 0 <= x < all.len() implies all[x] != i as u32 by {
            if x < most.len() {
                assert(all[x] == most[x]);
            } else {
                assert(all[x] == islands[t].bodies@[x - most.len()]);
            }
        }
    }
}

proof fn lemma_judged_nowhere(
    st: SleepState,
    was_awake: Seq<bool>,
    islands: Seq<Island>,
    ms: Seq<Manifold>,
    heat: Seq<Heat>,
    motion: Seq<Motion>,
    dt: Scalar,
    sleep_time: Scalar,
    gate: u32,
    k: int,
    n: nat,
    i: int,
)
    requires
        sized(st, n),
        0 <= i < n,
        0 <= k <= islands.len(),
        manifolds_in(ms, n as int),
        manifs_exist(islands, ms),
        only_in(islands, ms, -1, i),
        forall|t: int, q: int|
            0 <= t < islands.len() && 0 <= q < islands[t].bodies@.len()
                ==> 0 <= #[trigger] islands[t].bodies@[q] < n,
    ensures
        same_body(
            all_judged(st, was_awake, islands, ms, heat, motion, dt, sleep_time, gate, k),
            st,
            i,
        ),
    decreases k,
{
    if k > 0 {
        let t = k - 1;
        lemma_judged_nowhere(st, was_awake, islands, ms, heat, motion, dt, sleep_time, gate, t, n, i);
        lemma_judged_sized(st, was_awake, islands, ms, heat, motion, dt, sleep_time, gate, t, n);
        lemma_judged_elsewhere(
            all_judged(st, was_awake, islands, ms, heat, motion, dt, sleep_time, gate, t),
            was_awake,
            &islands[t],
            ms,
            heat,
            motion,
            dt,
            sleep_time,
            gate,
            n,
            i,
        );
    }
}

/// What looking at a contact does to body `i`. Only a sleeping body whose other one is
/// awake is touched. A hot contact wakes it if the wake count is zero or the motion is
/// fast, or else once as many came in a row; a cool one starts the row over.
pub open spec fn looked_at(
    x: SleepState,
    y: SleepState,
    m: Manifold,
    heat: Heat,
    gate: u32,
    i: int,
) -> bool {
    let sleeper = (i == m.a && !x.awake[i] && x.awake[m.b as int]) || (i == m.b && !x.awake[i]
        && x.awake[m.a as int]);
    let hot = if i == m.b {
        heat.hot_from_a
    } else {
        heat.hot_from_b
    };
    let gated = gate > 0 && !heat.fast;
    &&& y.linvel[i] == x.linvel[i]
    &&& y.angvel[i] == x.angvel[i]
    &&& !sleeper ==> same_body(x, y, i) && y.streak[i] == x.streak[i]
    &&& sleeper && !hot ==> same_body(x, y, i)
    &&& sleeper && !hot && gated ==> y.streak[i] == 0
    &&& sleeper && !gated ==> y.streak[i] == x.streak[i]
    &&& sleeper && hot && !gated ==> y.awake[i] && y.timer[i].bits == 0
    &&& sleeper && hot && gated && x.streak[i] + 1 >= gate ==> y.awake[i] && y.timer[i].bits == 0
        && y.streak[i] == 0
    &&& sleeper && hot && gated && x.streak[i] + 1 < gate ==> same_body(x, y, i) && y.streak[i]
        == x.streak[i] + 1
}

/// Every contact of the list was looked at, in order.
pub open spec fn all_looked_at(
    states: Seq<SleepState>,
    list: Seq<usize>,
    ms: Seq<Manifold>,
    heat: Seq<Heat>,
    gate: u32,
    n: nat,
) -> bool {
    &&& states.len() == list.len() + 1
    &&& forall|k: int, i: int|
        0 <= k < list.len() && 0 <= i < n ==> #[trigger] looked_at(
            states[k],
            states[k + 1],
            ms[list[k] as int],
            heat[list[k] as int],
            gate,
            i,
        )
}

proof fn lemma_looked_at(x: SleepState, m: Manifold, heat: Heat, gate: u32, n: nat, i: int)
    requires
        sized(x, n),
        gate > 0 ==> x.streak.len() >= n,
        m.a < n,
        m.b < n,
        0 <= i < n,
    ensures
        looked_at(x, wake_by(x, m, heat, gate), m, heat, gate, i),
        wake_by(x, m, heat, gate).streak.len() == x.streak.len(),
{
}

proof fn lemma_streak_sized(
    st: SleepState,
    list: Seq<usize>,
    ms: Seq<Manifold>,
    heat: Seq<Heat>,
    gate: u32,
    k: int,
    n: nat,
)
    requires
        sized(st, n),
        gate > 0 ==> st.streak.len() >= n,
        0 <= k <= list.len(),
        forall|q: int| 0 <= q < list.len() ==> #[trigger] list[q] < ms.len(),
        manifolds_in(ms, n as int),
    ensures
        wake_all(st, list, ms, heat, gate, k).streak.len() == st.streak.len(),
    decreases k,
{
    if k > 0 {
        lemma_streak_sized(st, list, ms, heat, gate, k - 1, n);
        assert(list[k - 1] < ms.len());
        assert(ms[list[k - 1] as int].a < n);
    }
}

proof fn lemma_streak_rests(
    st: SleepState,
    was_awake: Seq<bool>,
    motion: Seq<Motion>,
    dt: Scalar,
    sleep_time: Scalar,
    ids: Seq<u32>,
    k: int,
)
    ensures
        rest_all(st, was_awake, motion, dt, sleep_time, ids, k).streak == st.streak,
    decreases k,
{
    if k > 0 {
        lemma_streak_rests(st, was_awake, motion, dt, sleep_time, ids, k - 1);
    }
}

/// Under the body rule the contacts of an island are looked at one by one, in order, and
/// wake sleeping bodies; then every body of the island that is awake rests or falls
/// asleep. The counts of hot contacts stay as the last contact left them.
pub proof fn contacts_are_looked_at_in_turn(
    bodies: &mut BodySet,
    was_awake: &[bool],
    island: &Island,
    manifolds: &[Manifold],
    heat: &[Heat],
    motion: &[Motion],
    dt: Scalar,
    sleep_time: Scalar,
    gate: u32,
    wake_streak: &mut Vec<u32>,
)
    requires
        call_ensures(
            sleep_pass_island,
            (
                bodies,
                was_awake,
                island,
                manifolds,
                heat,
                motion,
                dt,
                sleep_time,
                gate,
                wake_streak,
            ),
            (),
        ),
        old(bodies).wf(),
        gate > 0 ==> old(wake_streak)@.len() >= old(bodies).count(),
        manifolds_in(manifolds@, old(bodies).count() as int),
        island.bodies@.no_duplicates(),
        forall|k: int|
            0 <= k < island.bodies@.len() ==> #[trigger] island.bodies@[k] < old(bodies).count(),
        forall|k: int|
            0 <= k < island.manifs@.len() ==> #[trigger] island.manifs@[k] < manifolds@.len(),
    ensures
        exists|states: Seq<SleepState>|
            {
                &&& #[trigger] all_looked_at(
                    states,
                    island.manifs@,
                    manifolds@,
                    heat@,
                    gate,
                    old(bodies).count(),
                )
                &&& states[0].awake == old(bodies).awake@
                &&& states[0].timer == old(bodies).sleep_timer@
                &&& states[0].linvel == old(bodies).linvel@
                &&& states[0].angvel == old(bodies).angvel@
                &&& states[0].streak == old(wake_streak)@
                &&& final(wake_streak)@ == states.last().streak
                &&& forall|p: int|
                    #![trigger island.bodies@[p]]
                    0 <= p < island.bodies@.len() ==> rested(
                        states.last(),
                        sleep_state(final(bodies), final(wake_streak)@),
                        was_awake@[island.bodies@[p] as int],
                        motion@[island.bodies@[p] as int],
                        dt,
                        sleep_time,
                        island.bodies@[p] as int,
                    )
                &&& forall|i: int|
                    #![trigger final(bodies).awake@[i]]
                    0 <= i < old(bodies).count() && !island.bodies@.contains(i as u32) ==> same_body(
                        states.last(),
                        sleep_state(final(bodies), final(wake_streak)@),
                        i,
                    )
            },
{
    let n = old(bodies).count();
    let ids = island.bodies@;
    let list = island.manifs@;
    let ms = manifolds@;
    let st = sleep_state(old(bodies), old(wake_streak)@);
    let states = Seq::new(
        (list.len() + 1) as nat,
        |k: int| wake_all(st, list, ms, heat@, gate, k),
    );
    assert forall|k: int, i: int| 0 <= k < list.len() && 0 <= i < n implies #[trigger] looked_at(
        states[k],
        states[k + 1],
        ms[list[k] as int],
        heat@[list[k] as int],
        gate,
        i,
    ) by {
        lemma_wake_sized(st, list, ms, heat@, gate, k, n);
        lemma_streak_sized(st, list, ms, heat@, gate, k, n);
        assert(list[k] < ms.len());
        let m = ms[list[k] as int];
        assert(m.a < n && m.b < n);
        lemma_looked_at(states[k], m, heat@[list[k] as int], gate, n, i);
    }
    assert(all_looked_at(states, list, ms, heat@, gate, n));
    let awoken = wake_all(st, list, ms, heat@, gate, list.len() as int);
    assert(states.last() == awoken);
    lemma_wake_sized(st, list, ms, heat@, gate, list.len() as int, n);
    lemma_streak_rests(awoken, was_awake@, motion@, dt, sleep_time, ids, ids.len() as int);
    assert forall|p: int| #![trigger island.bodies@[p]] 0 <= p < ids.len() implies rested(
        states.last(),
        sleep_state(final(bodies), final(wake_streak)@),
        was_awake@[ids[p] as int],
        motion@[ids[p] as int],
        dt,
        sleep_time,
        ids[p] as int,
    ) by {
        assert(island.bodies@[p] < n);
        lemma_rest_one(awoken, was_awake@, motion@, dt, sleep_time, ids, n, p, ids.len() as int);
    }
    assert forall|i: int|
        #![trigger final(bodies).awake@[i]]
        0 <= i < n && !ids.contains(i as u32) implies same_body(
        states.last(),
        sleep_state(final(bodies), final(wake_streak)@),
        i,
    ) by {
        assert forall|q: int| 0 <= q < ids.len() implies 0 <= #[trigger] ids[q] < n && ids[q] != i by {
            assert(island.bodies@[q] < n);
            if ids[q] == i {
                assert(ids[q] == i as u32);
            }
        }
        lemma_rest_elsewhere(awoken, was_awake@, motion@, dt, sleep_time, ids, ids.len() as int, n, i);
    }
}

} // verus!
