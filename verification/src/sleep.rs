//! Putting islands to sleep and waking bodies.
//!
//! Two rules exist. Under the island rule a whole island falls asleep at once,
//! when all its bodies have been slow for long enough. Under the body rule each
//! body falls asleep on its own, and a sleeping body wakes only when an awake
//! neighbour moves against it.
//!
//! Speeds are judged by the caller; what arrives here is the outcome.

use crate::body::BodySet;
use crate::contact::Manifold;
use crate::group::{listed_once, members};
use crate::island::{manifolds_in, Island};
use crate::scalar::{Scalar, Vec3};
use crate::stats::{counted, Counters};
use vstd::prelude::*;

verus! {

/// How a body moves, and its rest timer once the step is added.
#[derive(Clone, Copy, Debug, PartialEq, Eq, Structural)]
pub struct Motion {
    /// Both speeds are below their limits.
    pub slow: bool,
    /// One of the speeds is at or above its limit.
    pub fast: bool,
    /// The rest timer with the step added.
    pub advanced: Scalar,
}

/// How the bodies of a manifold move against each other.
#[derive(Clone, Copy, Debug, PartialEq, Eq, Structural)]
pub struct Heat {
    /// Enough to wake body `b`, if `a` is the awake one.
    pub hot_from_a: bool,
    /// Enough to wake body `a`, if `b` is the awake one.
    pub hot_from_b: bool,
    /// So fast that one contact is enough.
    pub fast: bool,
}

/// The largest finite value.
pub open spec fn largest_spec() -> Scalar {
    Scalar { bits: 0x7f7f_ffff }
}

/// The rest timer of body `i` after this step, if it keeps resting: a body that
/// was asleep starts from zero, so its timer is the step itself.
pub open spec fn rested_for(bodies: &BodySet, motion: Seq<Motion>, dt: Scalar, i: int) -> Scalar {
    if bodies.awake@[i] {
        motion[i].advanced
    } else {
        dt
    }
}

/// The shortest rest among the first `k` bodies of the list.
pub open spec fn shortest_rest(
    bodies: &BodySet,
    motion: Seq<Motion>,
    dt: Scalar,
    ids: Seq<u32>,
    k: int,
) -> Scalar
    decreases k,
{
    if k <= 0 {
        largest_spec()
    } else {
        shortest_rest(bodies, motion, dt, ids, k - 1).min_spec(
            rested_for(bodies, motion, dt, ids[k - 1] as int),
        )
    }
}

/// No body of the list is fast.
pub open spec fn calm(motion: Seq<Motion>, ids: Seq<u32>) -> bool {
    forall|k: int| 0 <= k < ids.len() ==> !motion[#[trigger] ids[k] as int].fast
}

/// The island falls asleep: it is calm and its shortest rest is long enough.
pub open spec fn falls_asleep(
    bodies: &BodySet,
    motion: Seq<Motion>,
    dt: Scalar,
    sleep_time: Scalar,
    ids: Seq<u32>,
) -> bool {
    calm(motion, ids) && sleep_time.le_spec(
        shortest_rest(bodies, motion, dt, ids, ids.len() as int),
    )
}

/// Body `i` of an island with bodies `ids` after the step: asleep and at rest if
/// the island fell asleep, otherwise awake, with its timer running only while
/// the island is calm.
pub open spec fn settled_with(
    before: &BodySet,
    after: &BodySet,
    motion: Seq<Motion>,
    dt: Scalar,
    sleep_time: Scalar,
    ids: Seq<u32>,
    i: int,
) -> bool {
    let asleep = falls_asleep(before, motion, dt, sleep_time, ids);
    &&& after.awake@[i] == !asleep
    &&& after.sleep_timer@[i] == if calm(motion, ids) {
        rested_for(before, motion, dt, i)
    } else {
        Scalar::zero_spec()
    }
    &&& after.linvel@[i] == if asleep {
        Vec3::zero_spec()
    } else {
        before.linvel@[i]
    }
    &&& after.angvel@[i] == if asleep {
        Vec3::zero_spec()
    } else {
        before.angvel@[i]
    }
}

/// Body `i` is as it was.
pub open spec fn untouched(before: &BodySet, after: &BodySet, i: int) -> bool {
    &&& after.awake@[i] == before.awake@[i]
    &&& after.sleep_timer@[i] == before.sleep_timer@[i]
    &&& after.linvel@[i] == before.linvel@[i]
    &&& after.angvel@[i] == before.angvel@[i]
}

/// Nothing but sleep state and velocities may differ.
pub open spec fn same_frame(before: &BodySet, after: &BodySet) -> bool {
    &&& after.dynamic == before.dynamic
    &&& after.position == before.position
    &&& after.rotation == before.rotation
    &&& after.wf()
}

/// How many of the first `k` bodies of the list are fast.
pub open spec fn fast_bodies(motion: Seq<Motion>, ids: Seq<u32>, k: int) -> int
    decreases k,
{
    if k <= 0 {
        0
    } else {
        fast_bodies(motion, ids, k - 1) + if motion[ids[k - 1] as int].fast {
            1int
        } else {
            0
        }
    }
}

/// The counters after one island was judged; `deep` also counts bodies.
pub open spec fn island_counted(
    c: Counters,
    bodies: &BodySet,
    motion: Seq<Motion>,
    dt: Scalar,
    sleep_time: Scalar,
    ids: Seq<u32>,
    deep: bool,
) -> Counters {
    let d = if deep {
        Counters {
            sleep_fast_body: ((c.sleep_fast_body + fast_bodies(motion, ids, ids.len() as int))
                % 0x1_0000_0000_0000_0000) as u64,
            sleep_body_all: ((c.sleep_body_all + ids.len()) % 0x1_0000_0000_0000_0000) as u64,
            ..c
        }
    } else {
        c
    };
    if !calm(motion, ids) {
        Counters { sleep_fast: counted(d.sleep_fast), ..d }
    } else if falls_asleep(bodies, motion, dt, sleep_time, ids) {
        Counters { sleep_slept: counted(d.sleep_slept), ..d }
    } else {
        Counters { sleep_wait: counted(d.sleep_wait), ..d }
    }
}

proof fn lemma_fast_bodies(motion: Seq<Motion>, ids: Seq<u32>, k: int)
    requires
        0 <= k <= ids.len(),
    ensures
        0 <= fast_bodies(motion, ids, k) <= k,
    decreases k,
{
    if k > 0 {
        lemma_fast_bodies(motion, ids, k - 1);
    }
}

/// Judges one island under the island rule: all its bodies wake, and then all
/// keep waiting, all fall asleep together, or all start over. Returns the
/// shortest rest if the island keeps waiting.
pub fn sleep_pass_whole(
    bodies: &mut BodySet,
    island: &Island,
    motion: &[Motion],
    dt: Scalar,
    sleep_time: Scalar,
    deep: bool,
    sleep_resets: &mut u32,
    counters: &mut Counters,
) -> (shortest: Option<Scalar>)
    requires
        old(bodies).wf(),
        motion@.len() == old(bodies).count(),
        island.bodies@.no_duplicates(),
        forall|k: int|
            0 <= k < island.bodies@.len() ==> #[trigger] island.bodies@[k] < old(bodies).count(),
        *old(sleep_resets) + island.bodies@.len() <= u32::MAX,
    ensures
        same_frame(old(bodies), final(bodies)),
        forall|k: int|
            0 <= k < island.bodies@.len() ==> settled_with(
                old(bodies),
                final(bodies),
                motion@,
                dt,
                sleep_time,
                island.bodies@,
                #[trigger] island.bodies@[k] as int,
            ),
        forall|i: int|
            0 <= i < old(bodies).count() && !(#[trigger] island.bodies@.contains(i as u32))
                ==> untouched(old(bodies), final(bodies), i),
        *final(sleep_resets) == *old(sleep_resets) + if calm(motion@, island.bodies@) {
            0
        } else {
            island.bodies@.len() as int
        },
        *final(counters) == island_counted(
            *old(counters),
            old(bodies),
            motion@,
            dt,
            sleep_time,
            island.bodies@,
            deep,
        ),
        shortest == if calm(motion@, island.bodies@) && !falls_asleep(
            old(bodies),
            motion@,
            dt,
            sleep_time,
            island.bodies@,
        ) {
            Some(
                shortest_rest(
                    old(bodies),
                    motion@,
                    dt,
                    island.bodies@,
                    island.bodies@.len() as int,
                ),
            )
        } else {
            None
        },
{
    let ghost ids = island.bodies@;
    let ghost before = *bodies;
    let ghost n = bodies.count();
    let m: usize = island.bodies.len();
    let mut all_slow: bool = true;
    let mut fast_n: u64 = 0;
    let mut k: usize = 0;
    while k < m
        invariant
            m == ids.len(),
            ids == island.bodies@,
            k <= m,
            motion@.len() == n,
            forall|q: int| 0 <= q < ids.len() ==> #[trigger] ids[q] < n,
            all_slow == (forall|q: int| 0 <= q < k ==> !motion@[#[trigger] ids[q] as int].fast),
            fast_n == fast_bodies(motion@, ids, k as int),
            fast_n <= k,
        decreases m - k,
    {
        let i: usize = island.bodies[k] as usize;
        assert(ids[k as int] < n);
        if motion[i].fast {
            all_slow = false;
            fast_n = fast_n + 1;
        }
        k += 1;
    }
    assert(all_slow == calm(motion@, ids));
    if deep {
        counters.sleep_fast_body = counters.sleep_fast_body.wrapping_add(fast_n);
        counters.sleep_body_all = counters.sleep_body_all.wrapping_add(m as u64);
    }
    let mut min_timer: Scalar = Scalar { bits: 0x7f7f_ffff };
    let mut k: usize = 0;
    while k < m
        invariant
            m == ids.len(),
            ids == island.bodies@,
            k <= m,
            before.wf(),
            n == before.count(),
            motion@.len() == n,
            ids.no_duplicates(),
            forall|q: int| 0 <= q < ids.len() ==> #[trigger] ids[q] < n,
            same_frame(&before, bodies),
            bodies.linvel == before.linvel,
            bodies.angvel == before.angvel,
            all_slow ==> min_timer == shortest_rest(&before, motion@, dt, ids, k as int),
            forall|q: int|
                0 <= q < k ==> bodies.awake@[#[trigger] ids[q] as int]
                    && bodies.sleep_timer@[ids[q] as int] == if all_slow {
                    rested_for(&before, motion@, dt, ids[q] as int)
                } else {
                    Scalar::zero_spec()
                },
            forall|q: int|
                k <= q < m ==> bodies.awake@[#[trigger] ids[q] as int]
                    == before.awake@[ids[q] as int],
            forall|i: int|
                0 <= i < n && !(#[trigger] ids.contains(i as u32)) ==> untouched(
                    &before,
                    bodies,
                    i,
                ),
            *sleep_resets == *old(sleep_resets) + if all_slow {
                0
            } else {
                k as int
            },
            *old(sleep_resets) + m <= u32::MAX,
        decreases m - k,
    {
        let id: u32 = island.bodies[k];
        let i: usize = id as usize;
        assert(ids[k as int] == id);
        assert(ids.contains(id));
        let was_awake: bool = bodies.awake[i];
        let ghost mid = *bodies;
        if !was_awake {
            bodies.awake.set(i, true);
        }
        if all_slow {
            let t: Scalar = if was_awake {
                motion[i].advanced
            } else {
                dt
            };
            bodies.sleep_timer.set(i, t);
            min_timer = min_timer.min(t);
        } else {
            bodies.sleep_timer.set(i, Scalar::zero());
            *sleep_resets = *sleep_resets + 1;
        }
        k += 1;
        proof {
            assert forall|j: int| 0 <= j < n && !(#[trigger] ids.contains(
                j as u32,
            )) implies untouched(&before, bodies, j) by {
                assert(j != i);
                assert(untouched(&before, &mid, j));
            }
        }
    }
    if !all_slow {
        counters.sleep_fast = counters.sleep_fast.wrapping_add(1);
        return None;
    }
    if sleep_time.le(min_timer) {
        counters.sleep_slept = counters.sleep_slept.wrapping_add(1);
        let mut k: usize = 0;
        while k < m
            invariant
                m == ids.len(),
                ids == island.bodies@,
                k <= m,
                n == before.count(),
                ids.no_duplicates(),
                forall|q: int| 0 <= q < ids.len() ==> #[trigger] ids[q] < n,
                same_frame(&before, bodies),
                forall|q: int|
                    0 <= q < m ==> bodies.sleep_timer@[#[trigger] ids[q] as int] == rested_for(
                        &before,
                        motion@,
                        dt,
                        ids[q] as int,
                    ),
                forall|q: int|
                    0 <= q < k ==> !bodies.awake@[#[trigger] ids[q] as int]
                        && bodies.linvel@[ids[q] as int] == Vec3::zero_spec()
                        && bodies.angvel@[ids[q] as int] == Vec3::zero_spec(),
                forall|i: int|
                    0 <= i < n && !(#[trigger] ids.contains(i as u32)) ==> untouched(
                        &before,
                        bodies,
                        i,
                    ),
            decreases m - k,
        {
            let id: u32 = island.bodies[k];
            let i: usize = id as usize;
            assert(ids[k as int] == id);
            assert(ids.contains(id));
            let ghost mid = *bodies;
            bodies.awake.set(i, false);
            bodies.linvel.set(i, Vec3::zero());
            bodies.angvel.set(i, Vec3::zero());
            k += 1;
            proof {
                assert forall|j: int| 0 <= j < n && !(#[trigger] ids.contains(
                    j as u32,
                )) implies untouched(&before, bodies, j) by {
                    assert(j != i);
                    assert(untouched(&before, &mid, j));
                }
            }
        }
        None
    } else {
        counters.sleep_wait = counters.sleep_wait.wrapping_add(1);
        Some(min_timer)
    }
}

/// The part of the bodies that sleeping and waking change, and how often in a
/// row each body was pushed in this pass.
pub struct SleepState {
    pub awake: Seq<bool>,
    pub timer: Seq<Scalar>,
    pub linvel: Seq<Vec3>,
    pub angvel: Seq<Vec3>,
    pub streak: Seq<u32>,
}

/// The sleep state of the bodies.
pub open spec fn sleep_state(bodies: &BodySet, streak: Seq<u32>) -> SleepState {
    SleepState {
        awake: bodies.awake@,
        timer: bodies.sleep_timer@,
        linvel: bodies.linvel@,
        angvel: bodies.angvel@,
        streak,
    }
}

/// Body `s` is awake and its rest starts over.
pub open spec fn with_woken(st: SleepState, s: int) -> SleepState {
    SleepState {
        awake: st.awake.update(s, true),
        timer: st.timer.update(s, Scalar::zero_spec()),
        ..st
    }
}

/// One more push, up to the largest count.
pub open spec fn pushed(n: u32) -> u32 {
    if n == u32::MAX {
        u32::MAX
    } else {
        (n + 1) as u32
    }
}

/// The state after a manifold was looked at. Only a manifold between a sleeping
/// body `s` and an awake one matters. Without a gate, or if the motion is fast,
/// a hot contact wakes `s` at once; otherwise it takes `gate` hot contacts in a
/// row, and a cool one starts the count over.
pub open spec fn wake_by(st: SleepState, m: Manifold, heat: Heat, gate: u32) -> SleepState {
    let (a, b) = (m.a as int, m.b as int);
    if st.awake[a] == st.awake[b] {
        st
    } else {
        let s = if st.awake[a] {
            b
        } else {
            a
        };
        let hot = if st.awake[a] {
            heat.hot_from_a
        } else {
            heat.hot_from_b
        };
        if gate == 0 || heat.fast {
            if hot {
                with_woken(st, s)
            } else {
                st
            }
        } else if hot {
            let n = pushed(st.streak[s]);
            if n >= gate {
                SleepState { streak: st.streak.update(s, 0), ..with_woken(st, s) }
            } else {
                SleepState { streak: st.streak.update(s, n), ..st }
            }
        } else {
            SleepState { streak: st.streak.update(s, 0), ..st }
        }
    }
}

/// The state after the first `k` manifolds of the list were looked at, in order.
pub open spec fn wake_all(
    st: SleepState,
    list: Seq<usize>,
    ms: Seq<Manifold>,
    heat: Seq<Heat>,
    gate: u32,
    k: int,
) -> SleepState
    decreases k,
{
    if k <= 0 {
        st
    } else {
        wake_by(
            wake_all(st, list, ms, heat, gate, k - 1),
            ms[list[k - 1] as int],
            heat[list[k - 1] as int],
            gate,
        )
    }
}

/// The state after body `i` was judged on its own: a slow one rests on and falls
/// asleep when it has rested long enough, any other starts over.
pub open spec fn rest_of(
    st: SleepState,
    was_awake: Seq<bool>,
    motion: Seq<Motion>,
    dt: Scalar,
    sleep_time: Scalar,
    i: int,
) -> SleepState {
    if !st.awake[i] {
        st
    } else if motion[i].slow {
        let t = if was_awake[i] {
            motion[i].advanced
        } else {
            dt
        };
        if sleep_time.le_spec(t) {
            SleepState {
                awake: st.awake.update(i, false),
                timer: st.timer.update(i, t),
                linvel: st.linvel.update(i, Vec3::zero_spec()),
                angvel: st.angvel.update(i, Vec3::zero_spec()),
                ..st
            }
        } else {
            SleepState { timer: st.timer.update(i, t), ..st }
        }
    } else {
        SleepState { timer: st.timer.update(i, Scalar::zero_spec()), ..st }
    }
}

/// The state after the first `k` bodies of the list were judged, in order.
pub open spec fn rest_all(
    st: SleepState,
    was_awake: Seq<bool>,
    motion: Seq<Motion>,
    dt: Scalar,
    sleep_time: Scalar,
    ids: Seq<u32>,
    k: int,
) -> SleepState
    decreases k,
{
    if k <= 0 {
        st
    } else {
        rest_of(
            rest_all(st, was_awake, motion, dt, sleep_time, ids, k - 1),
            was_awake,
            motion,
            dt,
            sleep_time,
            ids[k - 1] as int,
        )
    }
}

/// The state after an island was judged under the body rule: first its contacts
/// wake bodies, then its awake bodies rest.
pub open spec fn judged(
    st: SleepState,
    was_awake: Seq<bool>,
    island: &Island,
    ms: Seq<Manifold>,
    heat: Seq<Heat>,
    motion: Seq<Motion>,
    dt: Scalar,
    sleep_time: Scalar,
    gate: u32,
) -> SleepState {
    let awoken = wake_all(st, island.manifs@, ms, heat, gate, island.manifs@.len() as int);
    rest_all(
        awoken,
        was_awake,
        motion,
        dt,
        sleep_time,
        island.bodies@,
        island.bodies@.len() as int,
    )
}

/// Judges one island under the body rule. `was_awake` tells who was awake before
/// the pass.
pub fn sleep_pass_island(
    bodies: &mut BodySet,
    was_awake: &[bool],
    island: &Island,
    manifolds: &[Manifold],
    heat: &[Heat],
    motion: &[Motion],
    dt: Scalar,
    sleep_time: Scalar,
    wake_gate_k: u32,
    wake_streak: &mut Vec<u32>,
)
    requires
        old(bodies).wf(),
        was_awake@.len() == old(bodies).count(),
        motion@.len() == old(bodies).count(),
        wake_gate_k > 0 ==> old(wake_streak)@.len() >= old(bodies).count(),
        heat@.len() == manifolds@.len(),
        manifolds_in(manifolds@, old(bodies).count() as int),
        forall|k: int|
            0 <= k < island.bodies@.len() ==> #[trigger] island.bodies@[k] < old(bodies).count(),
        forall|k: int|
            0 <= k < island.manifs@.len() ==> #[trigger] island.manifs@[k] < manifolds@.len(),
    ensures
        same_frame(old(bodies), final(bodies)),
        final(wake_streak)@.len() == old(wake_streak)@.len(),
        sleep_state(final(bodies), final(wake_streak)@) == judged(
            sleep_state(old(bodies), old(wake_streak)@),
            was_awake@,
            island,
            manifolds@,
            heat@,
            motion@,
            dt,
            sleep_time,
            wake_gate_k,
        ),
{
    let ghost st0 = sleep_state(bodies, wake_streak@);
    let ghost n = bodies.count();
    let ghost total = wake_streak@.len();
    let mut k: usize = 0;
    while k < island.manifs.len()
        invariant
            k <= island.manifs@.len(),
            n == old(bodies).count(),
            same_frame(old(bodies), bodies),
            total == wake_streak@.len(),
            wake_gate_k > 0 ==> total >= n,
            heat@.len() == manifolds@.len(),
            manifolds_in(manifolds@, n as int),
            forall|q: int|
                0 <= q < island.manifs@.len() ==> #[trigger] island.manifs@[q] < manifolds@.len(),
            sleep_state(bodies, wake_streak@) == wake_all(
                st0,
                island.manifs@,
                manifolds@,
                heat@,
                wake_gate_k,
                k as int,
            ),
        decreases island.manifs@.len() - k,
    {
        let mi: usize = island.manifs[k];
        assert(island.manifs@[k as int] < manifolds@.len());
        let m = manifolds[mi];
        let h = heat[mi];
        assert(m.a < n && m.b < n);
        let a: usize = m.a as usize;
        let b: usize = m.b as usize;
        let sa: bool = bodies.awake[a];
        let sb: bool = bodies.awake[b];
        if sa != sb {
            let s: usize = if sa {
                b
            } else {
                a
            };
            let hot: bool = if sa {
                h.hot_from_a
            } else {
                h.hot_from_b
            };
            if wake_gate_k == 0 || h.fast {
                if hot {
                    bodies.awake.set(s, true);
                    bodies.sleep_timer.set(s, Scalar::zero());
                }
            } else if hot {
                let c: u32 = wake_streak[s];
                let c1: u32 = if c == u32::MAX {
                    u32::MAX
                } else {
                    c + 1
                };
                if c1 >= wake_gate_k {
                    bodies.awake.set(s, true);
                    bodies.sleep_timer.set(s, Scalar::zero());
                    wake_streak.set(s, 0);
                } else {
                    wake_streak.set(s, c1);
                }
            } else {
                wake_streak.set(s, 0);
            }
        }
        k += 1;
    }
    let ghost st1 = sleep_state(bodies, wake_streak@);
    let mut k: usize = 0;
    while k < island.bodies.len()
        invariant
            k <= island.bodies@.len(),
            n == old(bodies).count(),
            same_frame(old(bodies), bodies),
            total == wake_streak@.len(),
            was_awake@.len() == n,
            motion@.len() == n,
            forall|q: int| 0 <= q < island.bodies@.len() ==> #[trigger] island.bodies@[q] < n,
            sleep_state(bodies, wake_streak@) == rest_all(
                st1,
                was_awake@,
                motion@,
                dt,
                sleep_time,
                island.bodies@,
                k as int,
            ),
        decreases island.bodies@.len() - k,
    {
        let i: usize = island.bodies[k] as usize;
        assert(island.bodies@[k as int] < n);
        if bodies.awake[i] {
            if motion[i].slow {
                let t: Scalar = if was_awake[i] {
                    motion[i].advanced
                } else {
                    dt
                };
                bodies.sleep_timer.set(i, t);
                if sleep_time.le(t) {
                    bodies.awake.set(i, false);
                    bodies.linvel.set(i, Vec3::zero());
                    bodies.angvel.set(i, Vec3::zero());
                }
            } else {
                bodies.sleep_timer.set(i, Scalar::zero());
            }
        }
        k += 1;
    }
}

/// The `k`-th body of island `s` has its own place among all listed bodies.
proof fn lemma_member_place(islands: Seq<Island>, s: int, k: int, hi: int)
    requires
        0 <= s < hi <= islands.len(),
        0 <= k < islands[s].bodies@.len(),
    ensures
        members(islands, 0, s).len() + k < members(islands, 0, hi).len(),
        members(islands, 0, hi)[members(islands, 0, s).len() + k] == islands[s].bodies@[k],
    decreases hi,
{
    if s < hi - 1 {
        lemma_member_place(islands, s, k, hi - 1);
    }
}

/// In a list of islands that names no body twice, an island names none twice
/// and shares none with another.
proof fn lemma_islands_apart(islands: Seq<Island>, n: int, s: int, t: int, j: int, k: int)
    requires
        listed_once(islands, n),
        0 <= s < islands.len(),
        0 <= t < islands.len(),
        0 <= j < islands[s].bodies@.len(),
        0 <= k < islands[t].bodies@.len(),
    ensures
        islands[s].bodies@[j] < n,
        islands[s].bodies@[j] == islands[t].bodies@[k] ==> s == t && j == k,
{
    let m = islands.len() as int;
    lemma_member_place(islands, s, j, m);
    lemma_member_place(islands, t, k, m);
    let x = members(islands, 0, s).len() + j;
    let y = members(islands, 0, t).len() + k;
    assert(members(islands, 0, m)[x] < n);
    if islands[s].bodies@[j] == islands[t].bodies@[k] {
        assert(x == y);
        if s < t {
            lemma_member_place(islands, s, j, t);
        } else if t < s {
            lemma_member_place(islands, t, k, s);
        }
    }
}

/// What an island does depends only on who of its bodies is awake.
pub proof fn lemma_same_rest(
    b1: &BodySet,
    b2: &BodySet,
    motion: Seq<Motion>,
    dt: Scalar,
    ids: Seq<u32>,
    k: int,
)
    requires
        0 <= k <= ids.len(),
        forall|q: int|
            0 <= q < ids.len() ==> b1.awake@[#[trigger] ids[q] as int] == b2.awake@[ids[q] as int],
    ensures
        shortest_rest(b1, motion, dt, ids, k) == shortest_rest(b2, motion, dt, ids, k),
    decreases k,
{
    if k > 0 {
        lemma_same_rest(b1, b2, motion, dt, ids, k - 1);
        assert(b1.awake@[ids[k - 1] as int] == b2.awake@[ids[k - 1] as int]);
    }
}

/// The counters after the first `k` islands were judged.
pub open spec fn islands_counted(
    c: Counters,
    bodies: &BodySet,
    motion: Seq<Motion>,
    dt: Scalar,
    sleep_time: Scalar,
    islands: Seq<Island>,
    deep: bool,
    k: int,
) -> Counters
    decreases k,
{
    if k <= 0 {
        c
    } else {
        island_counted(
            islands_counted(c, bodies, motion, dt, sleep_time, islands, deep, k - 1),
            bodies,
            motion,
            dt,
            sleep_time,
            islands[k - 1].bodies@,
            deep,
        )
    }
}

/// How many timers the first `k` islands start over.
pub open spec fn resets(motion: Seq<Motion>, islands: Seq<Island>, k: int) -> int
    decreases k,
{
    if k <= 0 {
        0
    } else {
        resets(motion, islands, k - 1) + if calm(motion, islands[k - 1].bodies@) {
            0
        } else {
            islands[k - 1].bodies@.len() as int
        }
    }
}

/// The shortest rests of those among the first `k` islands that keep waiting: they
/// are calm, but not for long enough.
pub open spec fn waits(
    bodies: &BodySet,
    motion: Seq<Motion>,
    dt: Scalar,
    sleep_time: Scalar,
    islands: Seq<Island>,
    k: int,
) -> Seq<Scalar>
    decreases k,
{
    if k <= 0 {
        Seq::empty()
    } else {
        let ids = islands[k - 1].bodies@;
        let before = waits(bodies, motion, dt, sleep_time, islands, k - 1);
        if calm(motion, ids) && !falls_asleep(bodies, motion, dt, sleep_time, ids) {
            before.push(shortest_rest(bodies, motion, dt, ids, ids.len() as int))
        } else {
            before
        }
    }
}

proof fn lemma_resets_bounded(motion: Seq<Motion>, islands: Seq<Island>, k: int)
    requires
        0 <= k <= islands.len(),
    ensures
        0 <= resets(motion, islands, k) <= members(islands, 0, k).len(),
    decreases k,
{
    if k > 0 {
        lemma_resets_bounded(motion, islands, k - 1);
    }
}

/// Judges all islands under the island rule.
fn sleep_islands_whole(
    bodies: &mut BodySet,
    islands: &[Island],
    motion: &[Motion],
    dt: Scalar,
    sleep_time: Scalar,
    deep: bool,
    sleep_resets: &mut u32,
    counters: &mut Counters,
) -> (r: Vec<Scalar>)
    requires
        old(bodies).wf(),
        motion@.len() == old(bodies).count(),
        listed_once(islands@, old(bodies).count() as int),
        *old(sleep_resets) + members(islands@, 0, islands@.len() as int).len() <= u32::MAX,
    ensures
        same_frame(old(bodies), final(bodies)),
        forall|s: int, k: int|
            0 <= s < islands@.len() && 0 <= k < islands@[s].bodies@.len() ==> settled_with(
                old(bodies),
                final(bodies),
                motion@,
                dt,
                sleep_time,
                islands@[s].bodies@,
                #[trigger] islands@[s].bodies@[k] as int,
            ),
        forall|i: int|
            0 <= i < old(bodies).count() && !(#[trigger] members(
                islands@,
                0,
                islands@.len() as int,
            ).contains(i as u32)) ==> untouched(old(bodies), final(bodies), i),
        *final(sleep_resets) == *old(sleep_resets) + resets(
            motion@,
            islands@,
            islands@.len() as int,
        ),
        *final(counters) == islands_counted(
            *old(counters),
            old(bodies),
            motion@,
            dt,
            sleep_time,
            islands@,
            deep,
            islands@.len() as int,
        ),
        r@ == waits(old(bodies), motion@, dt, sleep_time, islands@, islands@.len() as int),
{
    let ghost before = *bodies;
    let ghost n = bodies.count();
    let ghost all = members(islands@, 0, islands@.len() as int);
    let mut r: Vec<Scalar> = Vec::new();
    let mut s: usize = 0;
    while s < islands.len()
        invariant
            s <= islands@.len(),
            before == *old(bodies),
            before.wf(),
            n == before.count(),
            motion@.len() == n,
            listed_once(islands@, n as int),
            all == members(islands@, 0, islands@.len() as int),
            *old(sleep_resets) + all.len() <= u32::MAX,
            same_frame(&before, bodies),
            forall|t: int, k: int|
                0 <= t < s && 0 <= k < islands@[t].bodies@.len() ==> settled_with(
                    &before,
                    bodies,
                    motion@,
                    dt,
                    sleep_time,
                    islands@[t].bodies@,
                    #[trigger] islands@[t].bodies@[k] as int,
                ),
            forall|t: int, k: int|
                s <= t < islands@.len() && 0 <= k < islands@[t].bodies@.len() ==> untouched(
                    &before,
                    bodies,
                    #[trigger] islands@[t].bodies@[k] as int,
                ),
            forall|i: int|
                0 <= i < n && !(#[trigger] all.contains(i as u32)) ==> untouched(
                    &before,
                    bodies,
                    i,
                ),
            *sleep_resets == *old(sleep_resets) + resets(motion@, islands@, s as int),
            *counters == islands_counted(
                *old(counters),
                &before,
                motion@,
                dt,
                sleep_time,
                islands@,
                deep,
                s as int,
            ),
            r@ == waits(&before, motion@, dt, sleep_time, islands@, s as int),
        decreases islands@.len() - s,
    {
        let ghost mid = *bodies;
        let ghost ids = islands@[s as int].bodies@;
        proof {
            lemma_resets_bounded(motion@, islands@, s as int);
            crate::group::lemma_members_split(
                islands@,
                0,
                (s + 1) as int,
                islands@.len() as int,
            );
            assert(members(islands@, 0, (s + 1) as int) == members(islands@, 0, s as int) + ids);
            assert forall|k: int| 0 <= k < ids.len() implies #[trigger] ids[k] < n by {
                lemma_islands_apart(islands@, n as int, s as int, s as int, k, k);
            }
            assert forall|j: int, k: int|
                0 <= j < ids.len() && 0 <= k < ids.len() && j != k implies ids[j] != ids[k] by {
                lemma_islands_apart(islands@, n as int, s as int, s as int, j, k);
            }
            assert forall|k: int| 0 <= k < ids.len() implies before.awake@[#[trigger] ids[k] as int]
                == mid.awake@[ids[k] as int] by {
                assert(untouched(&before, &mid, islands@[s as int].bodies@[k] as int));
            }
            lemma_same_rest(&before, &mid, motion@, dt, ids, ids.len() as int);
        }
        let w = sleep_pass_whole(
            bodies,
            &islands[s],
            motion,
            dt,
            sleep_time,
            deep,
            sleep_resets,
            counters,
        );
        if let Some(t) = w {
            r.push(t);
        }
        proof {
            assert forall|t: int, k: int|
                0 <= t < s + 1 && 0 <= k < islands@[t].bodies@.len() implies settled_with(
                &before,
                bodies,
                motion@,
                dt,
                sleep_time,
                islands@[t].bodies@,
                #[trigger] islands@[t].bodies@[k] as int,
            ) by {
                let i = islands@[t].bodies@[k];
                lemma_islands_apart(islands@, n as int, t, t, k, k);
                if t == s {
                    assert(ids[k] == i);
                    assert(untouched(&before, &mid, i as int));
                    assert(settled_with(
                        &mid,
                        bodies,
                        motion@,
                        dt,
                        sleep_time,
                        ids,
                        ids[k] as int,
                    ));
                } else {
                    if ids.contains(i) {
                        let q = choose|q: int| 0 <= q < ids.len() && ids[q] == i;
                        lemma_islands_apart(islands@, n as int, t, s as int, k, q);
                    }
                    assert(!ids.contains((i as int) as u32));
                    assert(untouched(&mid, bodies, i as int));
                }
            }
            assert forall|t: int, k: int|
                s + 1 <= t < islands@.len() && 0 <= k < islands@[t].bodies@.len() implies untouched(
                &before,
                bodies,
                #[trigger] islands@[t].bodies@[k] as int,
            ) by {
                let i = islands@[t].bodies@[k];
                lemma_islands_apart(islands@, n as int, t, t, k, k);
                if ids.contains(i) {
                    let q = choose|q: int| 0 <= q < ids.len() && ids[q] == i;
                    lemma_islands_apart(islands@, n as int, t, s as int, k, q);
                }
                assert(!ids.contains((i as int) as u32));
                assert(untouched(&mid, bodies, i as int));
            }
            assert forall|i: int| 0 <= i < n && !(#[trigger] all.contains(
                i as u32,
            )) implies untouched(&before, bodies, i) by {
                if ids.contains(i as u32) {
                    let q = choose|q: int| 0 <= q < ids.len() && ids[q] == i as u32;
                    lemma_member_place(islands@, s as int, q, islands@.len() as int);
                }
                assert(untouched(&mid, bodies, i));
            }
        }
        s += 1;
    }
    r
}

/// The state after the first `k` islands were judged under the body rule.
pub open spec fn all_judged(
    st: SleepState,
    was_awake: Seq<bool>,
    islands: Seq<Island>,
    ms: Seq<Manifold>,
    heat: Seq<Heat>,
    motion: Seq<Motion>,
    dt: Scalar,
    sleep_time: Scalar,
    gate: u32,
    k: int,
) -> SleepState
    decreases k,
{
    if k <= 0 {
        st
    } else {
        judged(
            all_judged(st, was_awake, islands, ms, heat, motion, dt, sleep_time, gate, k - 1),
            was_awake,
            &islands[k - 1],
            ms,
            heat,
            motion,
            dt,
            sleep_time,
            gate,
        )
    }
}

/// The push counts at the start of a pass: with a gate all bodies start at zero.
pub open spec fn fresh_streak(streak: Seq<u32>, n: nat, gate: u32) -> Seq<u32> {
    if gate > 0 {
        Seq::new(
            if streak.len() < n {
                n
            } else {
                streak.len()
            },
            |i: int|
                if i < n {
                    0u32
                } else {
                    streak[i]
                },
        )
    } else {
        streak
    }
}

/// The islands list existing manifolds.
pub open spec fn manifs_exist(islands: Seq<Island>, ms: Seq<Manifold>) -> bool {
    forall|s: int, k: int|
        0 <= s < islands.len() && 0 <= k < islands[s].manifs@.len()
            ==> #[trigger] islands[s].manifs@[k] < ms.len()
}

/// Starts the push counts of a pass.
fn reset_streak(wake_streak: &mut Vec<u32>, n: usize, wake_gate_k: u32)
    ensures
        final(wake_streak)@ == fresh_streak(old(wake_streak)@, n as nat, wake_gate_k),
{
    if wake_gate_k > 0 {
        let ghost before = wake_streak@;
        let mut i: usize = 0;
        while i < n
            invariant
                i <= n,
                before == old(wake_streak)@,
                wake_streak@.len() == if before.len() < i {
                    i as nat
                } else {
                    before.len()
                },
                forall|j: int| 0 <= j < i ==> wake_streak@[j] == 0,
                forall|j: int| i <= j < wake_streak@.len() ==> wake_streak@[j] == before[j],
            decreases n - i,
        {
            if i < wake_streak.len() {
                wake_streak.set(i, 0);
            } else {
                wake_streak.push(0);
            }
            i += 1;
        }
        assert(wake_streak@ =~= fresh_streak(before, n as nat, wake_gate_k));
    }
}

/// Judges all islands under the body rule.
fn sleep_islands_by_body(
    bodies: &mut BodySet,
    islands: &[Island],
    manifolds: &[Manifold],
    heat: &[Heat],
    motion: &[Motion],
    dt: Scalar,
    sleep_time: Scalar,
    wake_gate_k: u32,
    wake_streak: &mut Vec<u32>,
)
    requires
        old(bodies).wf(),
        motion@.len() == old(bodies).count(),
        wake_gate_k > 0 ==> old(wake_streak)@.len() >= old(bodies).count(),
        heat@.len() == manifolds@.len(),
        manifolds_in(manifolds@, old(bodies).count() as int),
        listed_once(islands@, old(bodies).count() as int),
        manifs_exist(islands@, manifolds@),
    ensures
        same_frame(old(bodies), final(bodies)),
        sleep_state(final(bodies), final(wake_streak)@) == all_judged(
            sleep_state(old(bodies), old(wake_streak)@),
            old(bodies).awake@,
            islands@,
            manifolds@,
            heat@,
            motion@,
            dt,
            sleep_time,
            wake_gate_k,
            islands@.len() as int,
        ),
{
    let ghost st0 = sleep_state(bodies, wake_streak@);
    let ghost n = bodies.count();
    let ghost total = wake_streak@.len();
    let mut was_awake: Vec<bool> = Vec::new();
    let mut i: usize = 0;
    while i < bodies.awake.len()
        invariant
            i <= bodies.awake@.len(),
            was_awake@.len() == i,
            forall|j: int| 0 <= j < i ==> was_awake@[j] == bodies.awake@[j],
        decreases bodies.awake@.len() - i,
    {
        was_awake.push(bodies.awake[i]);
        i += 1;
    }
    assert(was_awake@ =~= bodies.awake@);
    let mut s: usize = 0;
    while s < islands.len()
        invariant
            s <= islands@.len(),
            n == old(bodies).count(),
            same_frame(old(bodies), bodies),
            was_awake@ == old(bodies).awake@,
            was_awake@.len() == n,
            motion@.len() == n,
            total == wake_streak@.len(),
            wake_gate_k > 0 ==> total >= n,
            heat@.len() == manifolds@.len(),
            manifolds_in(manifolds@, n as int),
            listed_once(islands@, n as int),
            manifs_exist(islands@, manifolds@),
            sleep_state(bodies, wake_streak@) == all_judged(
                st0,
                was_awake@,
                islands@,
                manifolds@,
                heat@,
                motion@,
                dt,
                sleep_time,
                wake_gate_k,
                s as int,
            ),
        decreases islands@.len() - s,
    {
        proof {
            let ids = islands@[s as int].bodies@;
            assert forall|k: int| 0 <= k < ids.len() implies #[trigger] ids[k] < n by {
                lemma_islands_apart(islands@, n as int, s as int, s as int, k, k);
            }
        }
        sleep_pass_island(
            bodies,
            was_awake.as_slice(),
            &islands[s],
            manifolds,
            heat,
            motion,
            dt,
            sleep_time,
            wake_gate_k,
            wake_streak,
        );
        s += 1;
    }
}

/// How sleeping is configured.
#[derive(Clone, Copy, Debug, PartialEq, Eq, Structural)]
pub struct SleepConfig {
    /// How long a body must be slow.
    pub sleep_time: Scalar,
    /// Hot contacts in a row that it takes to wake a body; zero for one.
    pub wake_gate_k: u32,
    /// The body rule instead of the island rule.
    pub per_body: bool,
    /// Whether bodies are counted, too.
    pub deep: bool,
}

/// The bodies and push counts after the islands were judged. The cleanup pass
/// changes nothing; otherwise one of the two rules has been applied, and bodies
/// outside the islands are as they were.
pub open spec fn slept(
    before: &BodySet,
    after: &BodySet,
    islands: Seq<Island>,
    ms: Seq<Manifold>,
    heat: Seq<Heat>,
    motion: Seq<Motion>,
    config: SleepConfig,
    dt: Scalar,
    cleanup: bool,
    streak: Seq<u32>,
    streak_after: Seq<u32>,
) -> bool {
    let fresh = if islands.len() > 0 {
        fresh_streak(streak, before.count(), config.wake_gate_k)
    } else {
        streak
    };
    let m = islands.len() as int;
    if cleanup {
        *after == *before && streak_after == streak
    } else if config.per_body {
        sleep_state(after, streak_after) == all_judged(
            sleep_state(before, fresh),
            before.awake@,
            islands,
            ms,
            heat,
            motion,
            dt,
            config.sleep_time,
            config.wake_gate_k,
            m,
        )
    } else {
        &&& streak_after == fresh
        &&& forall|s: int, k: int|
            0 <= s < m && 0 <= k < islands[s].bodies@.len() ==> settled_with(
                before,
                after,
                motion,
                dt,
                config.sleep_time,
                islands[s].bodies@,
                #[trigger] islands[s].bodies@[k] as int,
            )
        &&& forall|i: int|
            0 <= i < before.count() && !(#[trigger] members(islands, 0, m).contains(i as u32))
                ==> untouched(before, after, i)
    }
}

/// Judges the islands after a solve. The cleanup pass judges none. Returns, under
/// the island rule, the shortest rest of each island that keeps waiting.
pub fn sleep_pass(
    bodies: &mut BodySet,
    islands: &[Island],
    manifolds: &[Manifold],
    heat: &[Heat],
    motion: &[Motion],
    config: &SleepConfig,
    dt: Scalar,
    cleanup: bool,
    wake_streak: &mut Vec<u32>,
    sleep_resets: &mut u32,
    counters: &mut Counters,
) -> (r: Vec<Scalar>)
    requires
        old(bodies).wf(),
        motion@.len() == old(bodies).count(),
        heat@.len() == manifolds@.len(),
        manifolds_in(manifolds@, old(bodies).count() as int),
        listed_once(islands@, old(bodies).count() as int),
        manifs_exist(islands@, manifolds@),
        *old(sleep_resets) + members(islands@, 0, islands@.len() as int).len() <= u32::MAX,
    ensures
        same_frame(old(bodies), final(bodies)),
        slept(
            old(bodies),
            final(bodies),
            islands@,
            manifolds@,
            heat@,
            motion@,
            *config,
            dt,
            cleanup,
            old(wake_streak)@,
            final(wake_streak)@,
        ),
        *final(sleep_resets) == *old(sleep_resets) + (if cleanup || config.per_body {
            0
        } else {
            resets(motion@, islands@, islands@.len() as int)
        }),
        *final(counters) == if cleanup || config.per_body {
            *old(counters)
        } else {
            islands_counted(
                *old(counters),
                old(bodies),
                motion@,
                dt,
                config.sleep_time,
                islands@,
                config.deep,
                islands@.len() as int,
            )
        },
        r@ == if cleanup || config.per_body {
            Seq::<Scalar>::empty()
        } else {
            waits(
                old(bodies),
                motion@,
                dt,
                config.sleep_time,
                islands@,
                islands@.len() as int,
            )
        },
{
    let none: Vec<Scalar> = Vec::new();
    assert(none@ =~= Seq::<Scalar>::empty());
    if cleanup {
        return none;
    }
    if islands.len() > 0 {
        reset_streak(wake_streak, bodies.len(), config.wake_gate_k);
    }
    if config.per_body {
        if islands.len() > 0 {
            sleep_islands_by_body(
                bodies,
                islands,
                manifolds,
                heat,
                motion,
                dt,
                config.sleep_time,
                config.wake_gate_k,
                wake_streak,
            );
        }
        none
    } else {
        sleep_islands_whole(
            bodies,
            islands,
            motion,
            dt,
            config.sleep_time,
            config.deep,
            sleep_resets,
            counters,
        )
    }
}

/// Notes how long a calm island has been waiting.
pub fn count_wait_ms(counters: &mut Counters, ms: u64)
    ensures
        *final(counters) == (Counters {
            sleep_wait_max_ms: if ms > old(counters).sleep_wait_max_ms {
                ms
            } else {
                old(counters).sleep_wait_max_ms
            },
            ..*old(counters)
        }),
{
    if ms > counters.sleep_wait_max_ms {
        counters.sleep_wait_max_ms = ms;
    }
}

/// Under the island rule an island is never partly asleep: its bodies are all
/// awake or all asleep, and in the second case all at rest.
pub proof fn islands_sleep_as_one(
    before: &BodySet,
    after: &BodySet,
    motion: Seq<Motion>,
    dt: Scalar,
    sleep_time: Scalar,
    ids: Seq<u32>,
    j: int,
    k: int,
)
    requires
        0 <= j < ids.len(),
        0 <= k < ids.len(),
        forall|q: int|
            0 <= q < ids.len() ==> settled_with(
                before,
                after,
                motion,
                dt,
                sleep_time,
                ids,
                #[trigger] ids[q] as int,
            ),
    ensures
        after.awake@[ids[j] as int] == after.awake@[ids[k] as int],
        !after.awake@[ids[j] as int] ==> after.linvel@[ids[j] as int] == Vec3::zero_spec()
            && after.angvel@[ids[j] as int] == Vec3::zero_spec(),
        !after.awake@[ids[j] as int] ==> !motion[ids[k] as int].fast,
{
    assert(settled_with(before, after, motion, dt, sleep_time, ids, ids[j] as int));
    assert(settled_with(before, after, motion, dt, sleep_time, ids, ids[k] as int));
}

/// The sleep state has one entry for each of `n` bodies.
pub open spec fn state_sized(st: SleepState, n: nat) -> bool {
    st.awake.len() == n && st.timer.len() == n && st.linvel.len() == n && st.angvel.len() == n
}

/// Under the body rule contacts only wake: nobody falls asleep, and nobody's
/// velocity changes, while the contacts of an island are looked at.
pub proof fn contacts_only_wake(
    st: SleepState,
    list: Seq<usize>,
    ms: Seq<Manifold>,
    heat: Seq<Heat>,
    gate: u32,
    k: int,
    n: nat,
    i: int,
)
    requires
        state_sized(st, n),
        manifolds_in(ms, n as int),
        0 <= k <= list.len(),
        forall|q: int| 0 <= q < list.len() ==> #[trigger] list[q] < ms.len(),
        0 <= i < n,
    ensures
        state_sized(wake_all(st, list, ms, heat, gate, k), n),
        st.awake[i] ==> wake_all(st, list, ms, heat, gate, k).awake[i],
        wake_all(st, list, ms, heat, gate, k).linvel == st.linvel,
        wake_all(st, list, ms, heat, gate, k).angvel == st.angvel,
    decreases k,
{
    if k > 0 {
        contacts_only_wake(st, list, ms, heat, gate, k - 1, n, i);
        assert(list[k - 1] < ms.len());
        assert(ms[list[k - 1] as int].a < n);
    }
}

/// Under the body rule a body falls asleep only if it is slow, and then it is at
/// rest; nobody wakes while the bodies of an island are judged.
pub proof fn only_slow_bodies_fall_asleep(
    st: SleepState,
    was_awake: Seq<bool>,
    motion: Seq<Motion>,
    dt: Scalar,
    sleep_time: Scalar,
    ids: Seq<u32>,
    k: int,
    n: nat,
    i: int,
)
    requires
        state_sized(st, n),
        0 <= k <= ids.len(),
        forall|q: int| 0 <= q < ids.len() ==> #[trigger] ids[q] < n,
        0 <= i < n,
    ensures
        ({
            let t = rest_all(st, was_awake, motion, dt, sleep_time, ids, k);
            &&& state_sized(t, n)
            &&& t.awake[i] ==> st.awake[i]
            &&& st.awake[i] && !t.awake[i] ==> motion[i].slow && t.linvel[i] == Vec3::zero_spec()
                && t.angvel[i] == Vec3::zero_spec()
            &&& t.awake[i] == st.awake[i] ==> t.linvel[i] == st.linvel[i] && t.angvel[i]
                == st.angvel[i]
        }),
    decreases k,
{
    if k > 0 {
        only_slow_bodies_fall_asleep(
            st,
            was_awake,
            motion,
            dt,
            sleep_time,
            ids,
            k - 1,
            n,
            i,
        );
        assert(ids[k - 1] < n);
    }
}

} // verus!
