//! The frame of one solve: what happens before and after the impulses of the
//! groups are iterated.

use crate::body::BodySet;
use crate::constraint::{AnchorGeom, PointConstraint, Recycled, WarmCandidate};
use crate::contact::{ContactPoint, Manifold};
use crate::contact_solve::{
    entry_pushes, group_entries_fit, group_result, island_fits, manifold_fits,
    solve_island_group, GroupSpeeds, SolveScene,
};
use crate::group::{
    gather_groups, group_count, group_count_spec, group_members, group_start,
    groups_tile_the_islands, islands_hold_each_manifold_once, islands_list_bodies_once,
    lemma_manifold_total_monotone, listed_once, lists_fit, manifold_total, members,
    scatter_groups, scattered, GroupBufs, Groups, NO_LOCAL,
};
use crate::island::{
    build_union_find, chain, connected, fill_island_buckets, in_island, island_of, islands_of,
    leaders, leads, lemma_in_island, manifold_with, manifolds_in, roots_are_components, roots_of,
    touch, Island,
};
use crate::prepare::{total_prep, Agreement, ContactPrep, PointNumbers};
use crate::relax::{total_contact, ContactArith, Relaxed, Side, Speeds};
use crate::scalar::{Scalar, Vec3};
use crate::schedule::{IterationConfig, PhaseParams};
use crate::select::{indices_where, ints_u32, ints_usize, lemma_indices_where};
use crate::sleep::{
    islands_counted, manifs_exist, resets, same_frame, sleep_pass, slept, waits, Heat, Motion,
    SleepConfig,
};
use crate::stats::{Counters, IslandDiag};
use crate::union_find::{forest, root_of};
use crate::warm::{
    commit_spec, entries_fit, joined, WarmManifold, WarmOutEntry, WarmPoint, WarmState, WarmTable,
    NONE,
};
use vstd::prelude::*;

verus! {

/// What the solver keeps from one step to the next.
pub struct ImpulseSolver {
    pub warm: WarmTable,
    pub island_count: usize,
    /// Bodies whose rest the last judgement started over, island by island.
    pub sleep_resets: u32,
    pub wake_streak: Vec<u32>,
    pub island_diag: IslandDiag,
    /// Points of the last solve, and how many of them were idle.
    pub last_points: (u64, u64),
}

/// The islands and groups of one solve.
pub struct Phase {
    pub parent: Vec<u32>,
    pub islands: Vec<Island>,
    pub groups: Groups,
    pub bufs: GroupBufs,
}

impl Phase {
    /// The phase belongs to this scene.
    pub open spec fn of(&self, bodies: &BodySet, ms: Seq<Manifold>) -> bool {
        &&& self.parent@.len() == bodies.count()
        &&& forest(self.parent@)
        &&& roots_are_components(self.parent@, bodies.dynamic@, ms)
        &&& islands_of(self.islands@, bodies, roots_of(self.parent@), ms)
        &&& self.groups.splits(self.islands@, self.groups.ranges@.len() as int)
    }

    /// The phase is that of the scene before anything was solved: the islands are
    /// split into groups, and every group holds the speeds of its bodies.
    pub open spec fn begun(
        &self,
        bodies: &BodySet,
        ms: Seq<Manifold>,
        threads: int,
        freeze_dormant: bool,
    ) -> bool {
        let count = self.groups.ranges@.len() as int;
        &&& self.of(bodies, ms)
        &&& count == group_count_spec(threads, ms.len() as int, self.islands@.len() as int)
        &&& self.bufs.sized(count)
        &&& forall|g: int|
            #![trigger group_members(self.islands@, count, g)]
            0 <= g < count ==> self.bufs.holds(
                bodies,
                freeze_dormant,
                g,
                group_members(self.islands@, count, g),
            )
        &&& self.bufs.local_of@.len() == bodies.count()
        &&& self.bufs.places(self.islands@, count)
        &&& forall|i: int|
            0 <= i < bodies.count() && !members(
                self.islands@,
                0,
                self.islands@.len() as int,
            ).contains(i as u32) ==> #[trigger] self.bufs.local_of@[i] == NO_LOCAL
        &&& listed_once(self.islands@, bodies.count() as int)
        &&& manifs_exist(self.islands@, ms)
    }
}

/// How the groups of a solve are run.
#[derive(Clone, Copy, Debug, PartialEq, Eq, Structural)]
pub enum GroupMode {
    /// Several groups, side by side.
    Parallel,
    /// One group.
    Serial,
    /// Nothing is awake.
    Idle,
}

/// Several groups run side by side; one group runs alone, if there is an island
/// in it at all.
pub fn group_mode(groups: usize, islands: usize) -> (r: GroupMode)
    ensures
        r == if groups > 1 {
            GroupMode::Parallel
        } else if islands > 0 {
            GroupMode::Serial
        } else {
            GroupMode::Idle
        },
{
    if groups > 1 {
        GroupMode::Parallel
    } else if islands > 0 {
        GroupMode::Serial
    } else {
        GroupMode::Idle
    }
}

/// The islands of so many bodies can be split into groups for so many threads: the
/// products that the split takes fit the machine.
pub open spec fn split_fits(threads: int, bodies: int) -> bool {
    threads <= 1 || threads * bodies <= usize::MAX || bodies * bodies <= usize::MAX
}

/// Measured times of one solve (microseconds).
pub struct PhaseTimes {
    /// Finding islands and copying velocities.
    pub islands_and_fill: u64,
    /// Copying velocities.
    pub fill: u64,
    /// Everything after that, up to the cache update.
    pub solve: u64,
    /// The parallel section.
    pub scope: u64,
    pub build: u64,
    pub warm: u64,
    pub iter: u64,
    pub group: Vec<u64>,
}

/// The record tells how the scene was split up, how many points it had (in thirty-two
/// bits), and how large the cache is.
pub open spec fn recorded(
    d: IslandDiag,
    phase: Phase,
    manifolds: int,
    points: u64,
    slots: nat,
) -> bool {
    &&& d.islands == phase.islands@.len()
    &&& d.manifolds == manifolds
    &&& d.g_count == phase.groups.ranges@.len()
    &&& d.group_manifs@ == phase.groups.manifolds@
    &&& d.points == points % 0x1_0000_0000
    &&& d.warm_count == slots
    &&& d.warm_bytes_per_slot == vstd::layout::size_of::<WarmManifold>() as usize as u32
}

/// The difference, or zero.
pub open spec fn minus(a: u64, b: u64) -> u64 {
    if a < b {
        0
    } else {
        (a - b) as u64
    }
}

/// The islands of a scene list only manifolds of the scene.
pub proof fn islands_list_existing_manifolds(
    islands: Seq<Island>,
    bodies: &BodySet,
    roots: Seq<int>,
    ms: Seq<Manifold>,
)
    requires
        islands_of(islands, bodies, roots, ms),
    ensures
        manifs_exist(islands, ms),
{
    assert forall|s: int, k: int|
        0 <= s < islands.len() && 0 <= k < islands[s].manifs@.len() implies (
    #[trigger] islands[s].manifs@[k]) < ms.len() by {
        let heads = leaders(bodies, roots, bodies.count());
        assert(island_of(&islands[s], bodies, roots, ms, roots[heads[s]]));
        lemma_indices_where(manifold_with(bodies, roots, ms, roots[heads[s]]), ms.len());
        assert(ints_usize(islands[s].manifs@)[k] == islands[s].manifs@[k]);
        assert(ints_usize(islands[s].manifs@).len() == islands[s].manifs@.len());
    }
}

/// Components are told by representatives alone.
proof fn lemma_components_kept(
    before: Seq<u32>,
    after: Seq<u32>,
    dynamic: Seq<bool>,
    ms: Seq<Manifold>,
)
    requires
        before.len() == after.len(),
        roots_of(after) == roots_of(before),
        roots_are_components(before, dynamic, ms),
    ensures
        roots_are_components(after, dynamic, ms),
{
    assert forall|i: int, j: int| 0 <= i < after.len() && 0 <= j < after.len() implies ((
    #[trigger] root_of(after, i) == #[trigger] root_of(after, j)) <==> connected(
        dynamic,
        ms,
        i,
        j,
    )) by {
        assert(roots_of(after)[i] == root_of(after, i));
        assert(roots_of(after)[j] == root_of(after, j));
        assert(roots_of(before)[i] == root_of(before, i));
        assert(roots_of(before)[j] == root_of(before, j));
        assert(root_of(before, i) == root_of(after, i));
        assert(root_of(before, j) == root_of(after, j));
    }
}

impl ImpulseSolver {
    /// A solver with an empty cache.
    pub fn new() -> (r: ImpulseSolver)
        ensures
            r.warm@.slots.len() == 0,
            r.warm@.sound(),
            r.warm@.complete(),
            r.warm.stamp == 0,
            r.island_count == 0,
            r.sleep_resets == 0,
            r.wake_streak@.len() == 0,
            r.last_points == (0u64, 0u64),
    {
        ImpulseSolver {
            warm: WarmTable::new(),
            island_count: 0,
            sleep_resets: 0,
            wake_streak: Vec::new(),
            island_diag: IslandDiag::default(),
            last_points: (0, 0),
        }
    }

    /// Finds the islands of the scene, splits them into groups and copies the
    /// velocities of their bodies.
    pub fn begin_phase(
        &mut self,
        bodies: &BodySet,
        manifolds: &[Manifold],
        threads: usize,
        freeze_dormant: bool,
    ) -> (phase: Phase)
        requires
            bodies.wf(),
            manifolds_in(manifolds@, bodies.count() as int),
            manifolds@.len() <= u32::MAX,
            split_fits(threads as int, bodies.count() as int),
        ensures
            phase.begun(bodies, manifolds@, threads as int, freeze_dormant),
            *final(self) == (ImpulseSolver {
                island_count: phase.islands@.len() as usize,
                ..*old(self)
            }),
    {
        let mut parent: Vec<u32> = build_union_find(bodies, manifolds);
        let ghost parent0 = parent@;
        let islands: Vec<Island> = fill_island_buckets(bodies, manifolds, &mut parent);
        let count: usize = group_count(threads, manifolds.len(), islands.len());
        proof {
            let roots = roots_of(parent0);
            islands_list_bodies_once(islands@, bodies, roots, manifolds@);
            islands_hold_each_manifold_once(islands@, bodies, roots, manifolds@);
            islands_list_existing_manifolds(islands@, bodies, roots, manifolds@);
            lemma_indices_where(leads(bodies, roots), bodies.count());
            let n = bodies.count() as int;
            let m = islands@.len() as int;
            let c = count as int;
            if m > 0 {
                let t = threads as int;
                assert(c * m <= n * n) by (nonlinear_arith)
                    requires
                        0 <= c <= m,
                        0 <= m <= n,
                ;
                assert(c <= t || c == 1);
                assert(c <= t ==> c * m <= t * n) by (nonlinear_arith)
                    requires
                        0 <= c,
                        0 <= m <= n,
                ;
                assert(c == 1 ==> c * m == m) by (nonlinear_arith);
            } else {
                assert(c * m == 0) by (nonlinear_arith)
                    requires
                        m == 0,
                ;
            }
            lemma_components_kept(parent0, parent@, bodies.dynamic@, manifolds@);
        }
        let (groups, bufs) = gather_groups(bodies, islands.as_slice(), count, freeze_dormant);
        self.island_count = islands.len();
        Phase { parent, islands, groups, bufs }
    }

    /// Takes the result of the groups over: the velocities in the copies go back
    /// to the bodies, and what was solved goes into the cache.
    pub fn commit_phase(
        &mut self,
        bodies: &mut BodySet,
        manifolds: &[Manifold],
        phase: &Phase,
        outs: &Vec<Vec<WarmOutEntry>>,
    )
        requires
            old(bodies).wf(),
            phase.of(old(bodies), manifolds@),
            lists_fit(phase.bufs.lv@, phase.islands@, phase.groups.ranges@.len() as int),
            lists_fit(phase.bufs.av@, phase.islands@, phase.groups.ranges@.len() as int),
            old(self).warm@.sound(),
            old(self).warm@.keys_below(old(bodies).count() as int),
            entries_fit(
                old(self).warm@,
                joined(outs@, outs@.len() as int),
                old(bodies).count() as int,
            ),
            old(self).warm@.slots.len() + joined(outs@, outs@.len() as int).len() <= u32::MAX,
        ensures
            final(bodies).wf(),
            scattered(
                old(bodies).linvel@,
                final(bodies).linvel@,
                phase.bufs.lv@,
                phase.islands@,
                phase.groups.ranges@.len() as int,
            ),
            scattered(
                old(bodies).angvel@,
                final(bodies).angvel@,
                phase.bufs.av@,
                phase.islands@,
                phase.groups.ranges@.len() as int,
            ),
            final(bodies).dynamic == old(bodies).dynamic,
            final(bodies).awake == old(bodies).awake,
            final(bodies).position == old(bodies).position,
            final(bodies).rotation == old(bodies).rotation,
            final(bodies).sleep_timer == old(bodies).sleep_timer,
            final(self).warm@ == commit_spec(
                old(self).warm@,
                joined(outs@, outs@.len() as int),
                manifolds@.len() > 0,
                old(bodies).awake@,
                final(self).warm.stamp,
            ),
            final(self).warm.stamp == (if old(self).warm.stamp == u32::MAX {
                0
            } else {
                (old(self).warm.stamp + 1) as u32
            }),
            final(self).warm@.sound(),
            final(self).warm@.keys_below(old(bodies).count() as int),
            *final(self) == (ImpulseSolver { warm: final(self).warm, ..*old(self) }),
    {
        proof {
            islands_list_bodies_once(
                phase.islands@,
                bodies,
                roots_of(phase.parent@),
                manifolds@,
            );
        }
        scatter_groups(bodies, phase.islands.as_slice(), &phase.groups, &phase.bufs);
        self.warm.commit_warm_slots(outs, manifolds.len() > 0, &bodies.awake);
    }

    /// Judges the islands of the solve; the cleanup pass judges none. Returns the
    /// shortest rest of each island that keeps waiting under the island rule.
    pub fn sleep_phase(
        &mut self,
        bodies: &mut BodySet,
        manifolds: &[Manifold],
        phase: &Phase,
        heat: &[Heat],
        motion: &[Motion],
        config: &SleepConfig,
        dt: Scalar,
        cleanup: bool,
        counters: &mut Counters,
    ) -> (r: Vec<Scalar>)
        requires
            old(bodies).wf(),
            manifolds_in(manifolds@, old(bodies).count() as int),
            motion@.len() == old(bodies).count(),
            heat@.len() == manifolds@.len(),
            listed_once(phase.islands@, old(bodies).count() as int),
            manifs_exist(phase.islands@, manifolds@),
            members(phase.islands@, 0, phase.islands@.len() as int).len() <= u32::MAX,
        ensures
            same_frame(old(bodies), final(bodies)),
            slept(
                old(bodies),
                final(bodies),
                phase.islands@,
                manifolds@,
                heat@,
                motion@,
                *config,
                dt,
                cleanup,
                old(self).wake_streak@,
                final(self).wake_streak@,
            ),
            final(self).sleep_resets == if cleanup {
                old(self).sleep_resets as int
            } else if config.per_body {
                0
            } else {
                resets(motion@, phase.islands@, phase.islands@.len() as int)
            },
            *final(counters) == if cleanup || config.per_body {
                *old(counters)
            } else {
                islands_counted(
                    *old(counters),
                    old(bodies),
                    motion@,
                    dt,
                    config.sleep_time,
                    phase.islands@,
                    config.deep,
                    phase.islands@.len() as int,
                )
            },
            r@ == if cleanup || config.per_body {
                Seq::<Scalar>::empty()
            } else {
                waits(
                    old(bodies),
                    motion@,
                    dt,
                    config.sleep_time,
                    phase.islands@,
                    phase.islands@.len() as int,
                )
            },
            *final(self) == (ImpulseSolver {
                wake_streak: final(self).wake_streak,
                sleep_resets: final(self).sleep_resets,
                ..*old(self)
            }),
    {
        let mut cleared: u32 = 0;
        let rests = sleep_pass(
            bodies,
            phase.islands.as_slice(),
            manifolds,
            heat,
            motion,
            config,
            dt,
            cleanup,
            &mut self.wake_streak,
            &mut cleared,
            counters,
        );
        if !cleanup {
            self.sleep_resets = cleared;
        }
        rests
    }

    /// Puts on record how the solve was split up, how many points it had, and how
    /// large the cache is. A solve without islands leaves the points of the one
    /// before. The times stay.
    pub fn record_counts(&mut self, phase: &Phase, manifolds: usize, total: (u64, u64))
        requires
            phase.islands@.len() <= u32::MAX,
            manifolds <= u32::MAX,
            phase.groups.ranges@.len() <= u32::MAX,
            old(self).warm@.slots.len() <= u32::MAX,
        ensures
            final(self).last_points == (if phase.islands@.len() > 0 {
                total
            } else {
                old(self).last_points
            }),
            recorded(
                final(self).island_diag,
                *phase,
                manifolds as int,
                final(self).last_points.0,
                old(self).warm@.slots.len(),
            ),
            final(self).island_diag.same_times(&old(self).island_diag),
            *final(self) == (ImpulseSolver {
                island_diag: final(self).island_diag,
                last_points: final(self).last_points,
                ..*old(self)
            }),
    {
        if phase.islands.len() > 0 {
            self.last_points = total;
        }
        let mut group_manifs: Vec<u32> = Vec::new();
        let mut g: usize = 0;
        while g < phase.groups.manifolds.len()
            invariant
                g <= phase.groups.manifolds@.len(),
                group_manifs@ == phase.groups.manifolds@.take(g as int),
            decreases phase.groups.manifolds@.len() - g,
        {
            group_manifs.push(phase.groups.manifolds[g]);
            g += 1;
            assert(group_manifs@ =~= phase.groups.manifolds@.take(g as int));
        }
        assert(group_manifs@ =~= phase.groups.manifolds@);
        let points: u64 = self.last_points.0;
        assert(points as u32 == points % 0x1_0000_0000) by (bit_vector);
        let slot: usize = core::mem::size_of::<WarmManifold>();
        self.island_diag.islands = phase.islands.len() as u32;
        self.island_diag.manifolds = manifolds as u32;
        self.island_diag.g_count = phase.groups.ranges.len() as u32;
        self.island_diag.group_manifs = group_manifs;
        self.island_diag.points = points as u32;
        self.island_diag.warm_count = self.warm.slots.len() as u32;
        self.island_diag.warm_bytes_per_slot = slot as u32;
    }

    /// Puts on record where the time of the solve went. The counts stay.
    pub fn record_times(&mut self, times: PhaseTimes)
        ensures
            ({
                let d = final(self).island_diag;
                &&& d.island_build_us == minus(times.islands_and_fill, times.fill)
                &&& d.gather_us == d.island_build_us
                &&& d.fill_us == times.fill
                &&& d.scope_us == times.scope
                &&& d.scatter_us == minus(times.solve, times.scope)
                &&& d.group_us == times.group
                &&& d.build_us == times.build
                &&& d.warm_us == times.warm
                &&& d.iter_us == times.iter
            }),
            final(self).island_diag.same_counts(&old(self).island_diag),
            *final(self) == (ImpulseSolver { island_diag: final(self).island_diag, ..*old(self) }),
    {
        let island_build_us: u64 = if times.islands_and_fill < times.fill {
            0
        } else {
            times.islands_and_fill - times.fill
        };
        let scatter_us: u64 = if times.solve < times.scope {
            0
        } else {
            times.solve - times.scope
        };
        self.island_diag.gather_us = island_build_us;
        self.island_diag.island_build_us = island_build_us;
        self.island_diag.fill_us = times.fill;
        self.island_diag.scope_us = times.scope;
        self.island_diag.scatter_us = scatter_us;
        self.island_diag.group_us = times.group;
        self.island_diag.build_us = times.build;
        self.island_diag.warm_us = times.warm;
        self.island_diag.iter_us = times.iter;
    }
}

/// There are no more islands than bodies.
pub proof fn lemma_islands_below(phase: Phase, bodies: &BodySet, ms: Seq<Manifold>)
    requires
        phase.of(bodies, ms),
    ensures
        phase.islands@.len() <= bodies.count(),
{
    lemma_indices_where(leads(bodies, roots_of(phase.parent@)), bodies.count());
}

pub proof fn lemma_members_hold(islands: Seq<Island>, lo: int, hi: int, s: int, i: int)
    requires
        0 <= lo <= s < hi <= islands.len(),
        in_island(islands, s, i),
        0 <= i <= u32::MAX,
    ensures
        members(islands, lo, hi).contains(i as u32),
    decreases hi - lo,
{
    let before = members(islands, lo, hi - 1);
    let last = islands[hi - 1].bodies@;
    if s == hi - 1 {
        let k = choose|k: int| 0 <= k < ints_u32(last).len() && ints_u32(last)[k] == i;
        assert(last[k] == i as u32);
        assert(members(islands, lo, hi)[before.len() + k] == i as u32);
    } else {
        lemma_members_hold(islands, lo, hi - 1, s, i);
        let k = choose|k: int| 0 <= k < before.len() && before[k] == i as u32;
        assert(members(islands, lo, hi)[k] == i as u32);
    }
}

pub proof fn lemma_members_come_from(islands: Seq<Island>, lo: int, hi: int, i: int)
    requires
        0 <= lo <= hi <= islands.len(),
        0 <= i <= u32::MAX,
        members(islands, lo, hi).contains(i as u32),
    ensures
        exists|s: int| lo <= s < hi && #[trigger] in_island(islands, s, i),
    decreases hi - lo,
{
    if lo < hi {
        let before = members(islands, lo, hi - 1);
        let last = islands[hi - 1].bodies@;
        let k = choose|k: int|
            0 <= k < members(islands, lo, hi).len() && members(islands, lo, hi)[k] == i as u32;
        if k < before.len() {
            assert(before[k] == i as u32);
            lemma_members_come_from(islands, lo, hi - 1, i);
        } else {
            assert(last[k - before.len()] == i as u32);
            assert(ints_u32(last)[k - before.len()] == i);
            assert(in_island(islands, hi - 1, i));
        }
    }
}

/// A body of an island has its place in the list of the group of the island, and a
/// body of no island has none.
proof fn lemma_place(phase: Phase, bodies: &BodySet, ms: Seq<Manifold>, threads: int, freeze: bool, g: int, s: int, i: int)
    requires
        bodies.wf(),
        bodies.count() <= u32::MAX,
        phase.begun(bodies, ms, threads, freeze),
        0 <= g < phase.groups.ranges@.len(),
        phase.groups.ranges@[g].0 <= s < phase.groups.ranges@[g].1,
        0 <= i < bodies.count(),
        bodies.dynamic@[i] ==> in_island(phase.islands@, s, i),
    ensures
        phase.bufs.local_of@[i] == NO_LOCAL || phase.bufs.local_of@[i] < phase.bufs.lv@[g]@.len(),
{
    let islands = phase.islands@;
    let count = phase.groups.ranges@.len() as int;
    let m = islands.len() as int;
    groups_tile_the_islands(m, count, g);
    let ids = group_members(islands, count, g);
    assert(phase.bufs.holds(bodies, freeze, g, ids));
    if bodies.dynamic@[i] {
        lemma_members_hold(
            islands,
            group_start(m, count, g),
            group_start(m, count, g + 1),
            s,
            i,
        );
        let k = choose|k: int| 0 <= k < ids.len() && ids[k] == i as u32;
        assert(phase.bufs.local_of@[group_members(islands, count, g)[k] as int] == k);
    } else {
        if members(islands, 0, m).contains(i as u32) {
            lemma_members_come_from(islands, 0, m, i);
            let t = choose|t: int| 0 <= t < m && #[trigger] in_island(islands, t, i);
            lemma_in_island(islands, bodies, roots_of(phase.parent@), ms, t, i);
        }
    }
}

/// The bodies of the manifolds of a group have places in the lists of the group.
pub proof fn lemma_group_fits(phase: Phase, bodies: &BodySet, ms: Seq<Manifold>, threads: int, freeze: bool, g: int, s: int)
    requires
        bodies.wf(),
        bodies.count() <= u32::MAX,
        manifolds_in(ms, bodies.count() as int),
        phase.begun(bodies, ms, threads, freeze),
        0 <= g < phase.groups.ranges@.len(),
        phase.groups.ranges@[g].0 <= s < phase.groups.ranges@[g].1,
    ensures
        s < phase.islands@.len(),
        island_fits(
            &phase.islands@[s],
            ms,
            phase.bufs.local_of@,
            phase.bufs.lv@[g]@.len(),
        ),
{
    let islands = phase.islands@;
    let count = phase.groups.ranges@.len() as int;
    let roots = roots_of(phase.parent@);
    groups_tile_the_islands(islands.len() as int, count, g);
    let isl = islands[s];
    let heads = leaders(bodies, roots, bodies.count());
    let r = roots[heads[s]];
    assert(island_of(&islands[s], bodies, roots, ms, r));
    let p = manifold_with(bodies, roots, ms, r);
    lemma_indices_where(p, ms.len());
    assert forall|k: int| 0 <= k < isl.manifs@.len() implies (#[trigger] isl.manifs@[k]) < ms.len()
        && manifold_fits(
        &ms[isl.manifs@[k] as int],
        phase.bufs.local_of@,
        phase.bufs.lv@[g]@.len(),
    ) by {
        assert(ints_usize(isl.manifs@)[k] == isl.manifs@[k]);
        let mi = isl.manifs@[k] as int;
        assert(indices_where(p, ms.len())[k] == mi);
        assert(p(mi));
        let m = ms[mi];
        let (a, b) = (m.a as int, m.b as int);
        assert(m.a < bodies.count() && m.b < bodies.count());
        if bodies.dynamic@[a] && bodies.dynamic@[b] {
            assert(touch(bodies.dynamic@, ms, a, b));
            let path = seq![a, b];
            assert(chain(bodies.dynamic@, ms, path));
            assert(path[0] == a && path.last() == b);
            assert(connected(bodies.dynamic@, ms, a, b));
            assert(root_of(phase.parent@, a) == root_of(phase.parent@, b));
        }
        lemma_in_island(islands, bodies, roots, ms, s, a);
        lemma_in_island(islands, bodies, roots, ms, s, b);
        lemma_place(phase, bodies, ms, threads, freeze, g, s, a);
        lemma_place(phase, bodies, ms, threads, freeze, g, s, b);
    }
}

/// The groups were solved: each from the speeds it held, with what it hands back.
pub open spec fn groups_solved<
    A: Fn(usize, Vec3) -> Agreement,
    C: Fn(usize, ContactPoint, WarmPoint) -> WarmCandidate,
    K: Fn(usize, WarmPoint) -> Recycled,
    B: Fn(usize, ContactPoint) -> (Vec3, Vec3),
    P: Fn(usize, ContactPoint, AnchorGeom, Option<WarmPoint>) -> PointNumbers,
    W: Fn(PointConstraint, Vec3, Side, Side) -> Option<(Speeds, Speeds)>,
    D: Fn(PointConstraint, Vec3, Side, Side) -> Scalar,
    R: Fn(PointConstraint, Scalar, Vec3, Side, Side) -> Relaxed,
    H: Fn(PointConstraint, Vec3, Side, Side) -> Option<(Speeds, Speeds)>,
>(
    scene: SolveScene,
    prep: ContactPrep<A, C, K, B, P>,
    arith: ContactArith<W, D, R, H>,
    phase: Phase,
    lv: Seq<Vec<Vec3>>,
    av: Seq<Vec<Vec3>>,
    outs: Seq<Vec<WarmOutEntry>>,
    totals: Seq<(int, int)>,
    tally: Seq<Counters>,
) -> bool {
    let count = phase.groups.ranges@.len();
    &&& tally.len() == count + 1
    &&& lv.len() == count
    &&& av.len() == count
    &&& outs.len() == count
    &&& totals.len() == count
    &&& forall|g: int|
        0 <= g < count ==> group_result(
            scene,
            prep,
            arith,
            phase.islands@,
            phase.groups.ranges@[g].0 as int,
            phase.groups.ranges@[g].1 as int,
            (GroupSpeeds { lv: phase.bufs.lv@[g]@, av: phase.bufs.av@[g]@ }),
            (GroupSpeeds { lv: lv[g]@, av: av[g]@ }),
            (#[trigger] outs[g])@,
            totals[g],
            (tally[g], tally[g + 1]),
        )
}

proof fn lemma_joined_fits(st: WarmState, outs: Seq<Vec<WarmOutEntry>>, k: int, n: int)
    requires
        0 <= k <= outs.len(),
        forall|g: int| 0 <= g < outs.len() ==> entries_fit(st, (#[trigger] outs[g])@, n),
    ensures
        entries_fit(st, joined(outs, k), n),
    decreases k,
{
    if k > 0 {
        lemma_joined_fits(st, outs, k - 1, n);
        assert(entries_fit(st, outs[k - 1]@, n));
        let before = joined(outs, k - 1);
        let all = joined(outs, k);
        assert forall|i: int| 0 <= i < all.len() implies {
            let e = #[trigger] all[i];
            &&& e.key.a < n
            &&& e.key.b < n
            &&& e.key.a != NONE
            &&& if e.slot == NONE {
                !st.has(e.key)
            } else {
                st.has(e.key) && st.index[e.key.packed_spec()] == e.slot
            }
        } by {
            if i < before.len() {
                assert(all[i] == before[i]);
            } else {
                assert(all[i] == outs[k - 1]@[i - before.len()]);
            }
        }
    }
}

proof fn lemma_joined_len(islands: Seq<Island>, count: int, outs: Seq<Vec<WarmOutEntry>>, k: int)
    requires
        count >= 1,
        0 <= k <= outs.len(),
        outs.len() == count,
        forall|g: int|
            0 <= g < outs.len() ==> (#[trigger] outs[g])@.len() <= manifold_total(
                islands,
                group_start(islands.len() as int, count, g),
                group_start(islands.len() as int, count, g + 1),
            ),
    ensures
        joined(outs, k).len() <= manifold_total(
            islands,
            0,
            group_start(islands.len() as int, count, k),
        ),
    decreases k,
{
    let m = islands.len() as int;
    groups_tile_the_islands(m, count, 0);
    if k > 0 {
        lemma_joined_len(islands, count, outs, k - 1);
        groups_tile_the_islands(m, count, k - 1);
        assert(outs[k - 1]@.len() <= manifold_total(
            islands,
            group_start(m, count, k - 1),
            group_start(m, count, k),
        ));
        lemma_manifold_total_monotone(
            islands,
            0,
            group_start(m, count, k - 1),
            group_start(m, count, k),
        );
    }
}

/// The groups were solved, and have so many points and idle points.
pub open spec fn groups_done<
    A: Fn(usize, Vec3) -> Agreement,
    C: Fn(usize, ContactPoint, WarmPoint) -> WarmCandidate,
    K: Fn(usize, WarmPoint) -> Recycled,
    B: Fn(usize, ContactPoint) -> (Vec3, Vec3),
    P: Fn(usize, ContactPoint, AnchorGeom, Option<WarmPoint>) -> PointNumbers,
    W: Fn(PointConstraint, Vec3, Side, Side) -> Option<(Speeds, Speeds)>,
    D: Fn(PointConstraint, Vec3, Side, Side) -> Scalar,
    R: Fn(PointConstraint, Scalar, Vec3, Side, Side) -> Relaxed,
    H: Fn(PointConstraint, Vec3, Side, Side) -> Option<(Speeds, Speeds)>,
>(
    scene: SolveScene,
    prep: ContactPrep<A, C, K, B, P>,
    arith: ContactArith<W, D, R, H>,
    phase: Phase,
    lv: Seq<Vec<Vec3>>,
    av: Seq<Vec<Vec3>>,
    outs: Seq<Vec<WarmOutEntry>>,
    total: (int, int),
    counts: (Counters, Counters),
) -> bool {
    exists|totals: Seq<(int, int)>, tally: Seq<Counters>|
        {
            &&& #[trigger] groups_solved(
                scene,
                prep,
                arith,
                phase,
                lv,
                av,
                outs,
                totals,
                tally,
            )
            &&& total == group_totals(totals)
            &&& tally[0] == counts.0
            &&& tally.last() == counts.1
        }
}

/// No normal impulse that the groups hand back is negative.
pub open spec fn outs_push(outs: Seq<Vec<WarmOutEntry>>) -> bool {
    forall|g: int, i: int|
        0 <= g < outs.len() && 0 <= i < outs[g]@.len() ==> entry_pushes(#[trigger] outs[g]@[i])
}

/// The sums of the counts of the groups.
pub open spec fn group_totals(totals: Seq<(int, int)>) -> (int, int)
    decreases totals.len(),
{
    if totals.len() == 0 {
        (0, 0)
    } else {
        let (n, z) = group_totals(totals.drop_last());
        (n + totals.last().0, z + totals.last().1)
    }
}

impl ImpulseSolver {
    /// Solves the groups of a phase in their own copies of the speeds, and returns
    /// what each hands back and how many points there are and how many are idle.
    pub fn solve_groups<
        A: Fn(usize, Vec3) -> Agreement,
        C: Fn(usize, ContactPoint, WarmPoint) -> WarmCandidate,
        K: Fn(usize, WarmPoint) -> Recycled,
        B: Fn(usize, ContactPoint) -> (Vec3, Vec3),
        P: Fn(usize, ContactPoint, AnchorGeom, Option<WarmPoint>) -> PointNumbers,
        W: Fn(PointConstraint, Vec3, Side, Side) -> Option<(Speeds, Speeds)>,
        D: Fn(PointConstraint, Vec3, Side, Side) -> Scalar,
        R: Fn(PointConstraint, Scalar, Vec3, Side, Side) -> Relaxed,
        H: Fn(PointConstraint, Vec3, Side, Side) -> Option<(Speeds, Speeds)>,
    >(
        &self,
        bodies: &BodySet,
        manifolds: &[Manifold],
        phase: &mut Phase,
        params: PhaseParams,
        prep: &ContactPrep<A, C, K, B, P>,
        arith: &ContactArith<W, D, R, H>,
        threads: usize,
        freeze_dormant: bool,
        counters: &mut Counters,
    ) -> (r: (Vec<Vec<WarmOutEntry>>, (u64, u64)))
        requires
            bodies.wf(),
            bodies.count() <= u32::MAX,
            manifolds@.len() <= u32::MAX,
            manifolds_in(manifolds@, bodies.count() as int),
            self.warm@.sound(),
            total_prep(*prep),
            total_contact(*arith),
            old(phase).begun(bodies, manifolds@, threads as int, freeze_dormant),
        ensures
            final(phase).parent == old(phase).parent,
            final(phase).islands == old(phase).islands,
            final(phase).groups == old(phase).groups,
            final(phase).bufs.local_of == old(phase).bufs.local_of,
            final(phase).bufs.frozen == old(phase).bufs.frozen,
            lists_fit(
                final(phase).bufs.lv@,
                old(phase).islands@,
                old(phase).groups.ranges@.len() as int,
            ),
            lists_fit(
                final(phase).bufs.av@,
                old(phase).islands@,
                old(phase).groups.ranges@.len() as int,
            ),
            groups_done(
                (SolveScene {
                    manifolds,
                    bodies,
                    table: &self.warm,
                    local_of: &old(phase).bufs.local_of,
                    params,
                }),
                *prep,
                *arith,
                *old(phase),
                final(phase).bufs.lv@,
                final(phase).bufs.av@,
                r.0@,
                (r.1.0 as int, r.1.1 as int),
                (*old(counters), *final(counters)),
            ),
            entries_fit(
                self.warm@,
                joined(r.0@, r.0@.len() as int),
                bodies.count() as int,
            ),
            joined(r.0@, r.0@.len() as int).len() <= manifolds@.len(),
            params.iters >= 1 ==> outs_push(r.0@),
    {
        let ghost phase0 = *phase;
        let ghost scene0 = SolveScene {
            manifolds,
            bodies,
            table: &self.warm,
            local_of: &phase0.bufs.local_of,
            params,
        };
        let count: usize = phase.groups.ranges.len();
        let ghost m = phase.islands@.len() as int;
        let mut outs: Vec<Vec<WarmOutEntry>> = Vec::new();
        let ghost mut totals: Seq<(int, int)> = Seq::empty();
        let ghost mut tally: Seq<Counters> = seq![*counters];
        let mut points: u64 = 0;
        let mut idle: u64 = 0;
        proof {
            islands_hold_each_manifold_once(
                phase0.islands@,
                bodies,
                roots_of(phase0.parent@),
                manifolds@,
            );
            groups_tile_the_islands(m, count as int, 0);
        }
        let mut g: usize = 0;
        while g < count
            invariant
                g <= count,
                count == phase0.groups.ranges@.len(),
                m == phase0.islands@.len(),
                bodies.wf(),
                bodies.count() <= u32::MAX,
                manifolds@.len() <= u32::MAX,
                manifolds_in(manifolds@, bodies.count() as int),
                self.warm@.sound(),
                total_prep(*prep),
                total_contact(*arith),
                phase0.begun(bodies, manifolds@, threads as int, freeze_dormant),
                manifold_total(phase0.islands@, 0, m) <= manifolds@.len(),
                scene0 == (SolveScene {
                    manifolds,
                    bodies,
                    table: &self.warm,
                    local_of: &phase0.bufs.local_of,
                    params,
                }),
                phase.parent == phase0.parent,
                phase.islands == phase0.islands,
                phase.groups == phase0.groups,
                phase.bufs.local_of == phase0.bufs.local_of,
                phase.bufs.frozen == phase0.bufs.frozen,
                phase.bufs.lv@.len() == count,
                phase.bufs.av@.len() == count,
                forall|h: int|
                    0 <= h < count ==> (#[trigger] phase.bufs.lv@[h])@.len()
                        == phase0.bufs.lv@[h]@.len(),
                forall|h: int|
                    0 <= h < count ==> (#[trigger] phase.bufs.av@[h])@.len()
                        == phase0.bufs.av@[h]@.len(),
                forall|h: int|
                    g <= h < count ==> #[trigger] phase.bufs.lv@[h] == phase0.bufs.lv@[h],
                forall|h: int|
                    g <= h < count ==> #[trigger] phase.bufs.av@[h] == phase0.bufs.av@[h],
                outs@.len() == g,
                totals.len() == g,
                tally.len() == g + 1,
                tally[0] == *old(counters),
                tally.last() == *counters,
                forall|h: int|
                    0 <= h < g ==> group_result(
                        scene0,
                        *prep,
                        *arith,
                        phase0.islands@,
                        phase0.groups.ranges@[h].0 as int,
                        phase0.groups.ranges@[h].1 as int,
                        (GroupSpeeds { lv: phase0.bufs.lv@[h]@, av: phase0.bufs.av@[h]@ }),
                        (GroupSpeeds { lv: phase.bufs.lv@[h]@, av: phase.bufs.av@[h]@ }),
                        (#[trigger] outs@[h])@,
                        totals[h],
                        (tally[h], tally[h + 1]),
                    ),
                forall|h: int|
                    0 <= h < g ==> (#[trigger] outs@[h])@.len() <= manifold_total(
                        phase0.islands@,
                        group_start(m, count as int, h),
                        group_start(m, count as int, h + 1),
                    ),
                params.iters >= 1 ==> outs_push(outs@),
                (points as int, idle as int) == group_totals(totals),
                points <= 4 * manifold_total(phase0.islands@, 0, group_start(m, count as int, g as int)),
                idle <= points,
            decreases count - g,
        {
            let (s0, e0) = phase.groups.ranges[g];
            proof {
                groups_tile_the_islands(m, count as int, g as int);
                lemma_manifold_total_monotone(phase0.islands@, 0, s0 as int, e0 as int);
                lemma_manifold_total_monotone(phase0.islands@, 0, e0 as int, m);
                lemma_manifold_total_monotone(phase0.islands@, 0, 0, s0 as int);
                assert(phase0.bufs.holds(
                    bodies,
                    freeze_dormant,
                    g as int,
                    group_members(phase0.islands@, count as int, g as int),
                ));
                assert forall|s: int| s0 <= s < e0 implies island_fits(
                    #[trigger] &phase0.islands@[s],
                    manifolds@,
                    phase0.bufs.local_of@,
                    phase0.bufs.lv@[g as int]@.len(),
                ) by {
                    lemma_group_fits(
                        phase0,
                        bodies,
                        manifolds@,
                        threads as int,
                        freeze_dormant,
                        g as int,
                        s,
                    );
                }
            }
            let ghost lv1 = phase.bufs.lv@;
            let ghost av1 = phase.bufs.av@;
            let scene = SolveScene {
                manifolds,
                bodies,
                table: &self.warm,
                local_of: &phase.bufs.local_of,
                params,
            };
            let (out, (n, z)) = solve_island_group(
                &scene,
                prep,
                arith,
                phase.islands.as_slice(),
                s0,
                e0,
                &mut phase.bufs.lv[g],
                &mut phase.bufs.av[g],
                counters,
            );
            let ghost old_outs = outs@;
            let ghost old_totals = totals;
            outs.push(out);
            proof {
                if params.iters >= 1 {
                    assert forall|h: int, i: int|
                        0 <= h < outs@.len() && 0 <= i < outs@[h]@.len() implies entry_pushes(
                        #[trigger] outs@[h]@[i],
                    ) by {
                        if h < g {
                            assert(outs@[h] == old_outs[h]);
                            assert(entry_pushes(old_outs[h]@[i]));
                        }
                    }
                }
                totals = totals.push((n as int, z as int));
                let old_tally = tally;
                tally = tally.push(*counters);
                assert(totals.drop_last() =~= old_totals);
                assert forall|h: int| 0 <= h < g + 1 implies group_result(
                    scene0,
                    *prep,
                    *arith,
                    phase0.islands@,
                    phase0.groups.ranges@[h].0 as int,
                    phase0.groups.ranges@[h].1 as int,
                    (GroupSpeeds { lv: phase0.bufs.lv@[h]@, av: phase0.bufs.av@[h]@ }),
                    (GroupSpeeds { lv: phase.bufs.lv@[h]@, av: phase.bufs.av@[h]@ }),
                    (#[trigger] outs@[h])@,
                    totals[h],
                    (tally[h], tally[h + 1]),
                ) by {
                    assert(tally[h] == old_tally[h]);
                    if h < g {
                        assert(tally[h + 1] == old_tally[h + 1]);
                        assert(outs@[h] == old_outs[h]);
                        assert(totals[h] == old_totals[h]);
                        assert(phase.bufs.lv@[h] == lv1[h]);
                        assert(phase.bufs.av@[h] == av1[h]);
                    }
                }
            }
            points = points + n;
            idle = idle + z;
            g += 1;
        }
        proof {
            assert(phase0 == *old(phase));
            assert(groups_solved(
                scene0,
                *prep,
                *arith,
                *old(phase),
                phase.bufs.lv@,
                phase.bufs.av@,
                outs@,
                totals,
                tally,
            ));
            assert forall|h: int| 0 <= h < count implies (#[trigger] phase.bufs.lv@[h])@.len()
                == group_members(phase0.islands@, count as int, h).len() by {
                assert(phase0.bufs.holds(
                    bodies,
                    freeze_dormant,
                    h,
                    group_members(phase0.islands@, count as int, h),
                ));
            }
            assert forall|h: int| 0 <= h < count implies (#[trigger] phase.bufs.av@[h])@.len()
                == group_members(phase0.islands@, count as int, h).len() by {
                assert(phase0.bufs.holds(
                    bodies,
                    freeze_dormant,
                    h,
                    group_members(phase0.islands@, count as int, h),
                ));
            }
        }
        assert(groups_done(
            scene0,
            *prep,
            *arith,
            *old(phase),
            phase.bufs.lv@,
            phase.bufs.av@,
            outs@,
            (points as int, idle as int),
            (*old(counters), *counters),
        ));
        proof {
            assert forall|h: int| 0 <= h < outs@.len() implies entries_fit(
                self.warm@,
                (#[trigger] outs@[h])@,
                bodies.count() as int,
            ) by {
                groups_tile_the_islands(m, count as int, h);
                group_entries_fit(
                    scene0,
                    *prep,
                    *arith,
                    phase0.islands@,
                    phase0.groups.ranges@[h].0 as int,
                    phase0.groups.ranges@[h].1 as int,
                    GroupSpeeds { lv: phase0.bufs.lv@[h]@, av: phase0.bufs.av@[h]@ },
                    GroupSpeeds { lv: phase.bufs.lv@[h]@, av: phase.bufs.av@[h]@ },
                    outs@[h]@,
                    totals[h],
                    (tally[h], tally[h + 1]),
                );
            }
            lemma_joined_fits(
                self.warm@,
                outs@,
                outs@.len() as int,
                bodies.count() as int,
            );
            lemma_joined_len(phase0.islands@, count as int, outs@, count as int);
            groups_tile_the_islands(m, count as int, 0);
        }
        (outs, (points, idle))
    }
}

/// The settings of a solve.
#[derive(Clone, Copy)]
pub struct SolveConfig {
    pub iterations: IterationConfig,
    pub threads: usize,
    /// Whether sleeping bodies of awake islands are held fast.
    pub freeze_dormant: bool,
    pub sleep: SleepConfig,
    pub dt: Scalar,
}

/// The bodies got their speeds back from the lists of the groups, and nothing else
/// of them changed.
pub open spec fn speeds_taken(
    before: &BodySet,
    after: &BodySet,
    phase: Phase,
    lv: Seq<Vec<Vec3>>,
    av: Seq<Vec<Vec3>>,
) -> bool {
    let count = phase.groups.ranges@.len() as int;
    &&& after.wf()
    &&& scattered(before.linvel@, after.linvel@, lv, phase.islands@, count)
    &&& scattered(before.angvel@, after.angvel@, av, phase.islands@, count)
    &&& after.dynamic == before.dynamic
    &&& after.awake == before.awake
    &&& after.position == before.position
    &&& after.rotation == before.rotation
    &&& after.sleep_timer == before.sleep_timer
}

/// What a solve went through: the islands and groups it began with, the speeds and
/// entries its groups ended with, the bodies before they were judged, and what was
/// measured of them.
pub struct SolveTrace {
    pub phase: Phase,
    pub lv: Seq<Vec<Vec3>>,
    pub av: Seq<Vec<Vec3>>,
    pub outs: Seq<Vec<WarmOutEntry>>,
    pub total: (int, int),
    /// The counters before the points were prepared, and after.
    pub counts: (Counters, Counters),
    pub moved: BodySet,
    pub heat: Seq<Heat>,
    pub motion: Seq<Motion>,
}

/// The measurements are those of the bodies.
pub open spec fn measured<M: Fn(&BodySet) -> (Vec<Heat>, Vec<Motion>)>(
    measure: M,
    bodies: &BodySet,
    heat: Seq<Heat>,
    motion: Seq<Motion>,
) -> bool {
    exists|r: (Vec<Heat>, Vec<Motion>)| #[trigger]
        measure.ensures((bodies,), r) && r.0@ == heat && r.1@ == motion
}

/// The solve went through the trace: it found the islands, solved the groups, took
/// their speeds over, updated the cache, and judged the bodies.
pub open spec fn solve_went<
    A: Fn(usize, Vec3) -> Agreement,
    C: Fn(usize, ContactPoint, WarmPoint) -> WarmCandidate,
    K: Fn(usize, WarmPoint) -> Recycled,
    B: Fn(usize, ContactPoint) -> (Vec3, Vec3),
    P: Fn(usize, ContactPoint, AnchorGeom, Option<WarmPoint>) -> PointNumbers,
    W: Fn(PointConstraint, Vec3, Side, Side) -> Option<(Speeds, Speeds)>,
    D: Fn(PointConstraint, Vec3, Side, Side) -> Scalar,
    R: Fn(PointConstraint, Scalar, Vec3, Side, Side) -> Relaxed,
    H: Fn(PointConstraint, Vec3, Side, Side) -> Option<(Speeds, Speeds)>,
    M: Fn(&BodySet) -> (Vec<Heat>, Vec<Motion>),
>(
    before: &BodySet,
    after: &BodySet,
    manifolds: &[Manifold],
    config: SolveConfig,
    cleanup: bool,
    prep: ContactPrep<A, C, K, B, P>,
    arith: ContactArith<W, D, R, H>,
    measure: M,
    from: ImpulseSolver,
    to: ImpulseSolver,
    t: SolveTrace,
) -> bool {
    let scene = SolveScene {
        manifolds,
        bodies: before,
        table: &from.warm,
        local_of: &t.phase.bufs.local_of,
        params: PhaseParams::of(config.iterations, cleanup),
    };
    &&& t.phase.begun(before, manifolds@, config.threads as int, config.freeze_dormant)
    &&& groups_done(scene, prep, arith, t.phase, t.lv, t.av, t.outs, t.total, t.counts)
    &&& speeds_taken(before, &t.moved, t.phase, t.lv, t.av)
    &&& same_frame(&t.moved, after)
    &&& outs_push(t.outs)
    &&& entries_fit(from.warm@, joined(t.outs, t.outs.len() as int), before.count() as int)
    &&& joined(t.outs, t.outs.len() as int).len() <= manifolds@.len()
    &&& to.warm@ == commit_spec(
        from.warm@,
        joined(t.outs, t.outs.len() as int),
        manifolds@.len() > 0,
        before.awake@,
        to.warm.stamp,
    )
    &&& to.warm.stamp == if from.warm.stamp == u32::MAX {
        0
    } else {
        (from.warm.stamp + 1) as u32
    }
    &&& measured(measure, &t.moved, t.heat, t.motion)
    &&& slept(
        &t.moved,
        after,
        t.phase.islands@,
        manifolds@,
        t.heat,
        t.motion,
        config.sleep,
        config.dt,
        cleanup,
        from.wake_streak@,
        to.wake_streak@,
    )
    &&& to.island_count == t.phase.islands@.len()
    &&& (to.last_points.0 as int, to.last_points.1 as int) == if t.phase.islands@.len() > 0 {
        t.total
    } else {
        (from.last_points.0 as int, from.last_points.1 as int)
    }
    &&& to.sleep_resets == if cleanup {
        from.sleep_resets as int
    } else if config.sleep.per_body {
        0
    } else {
        resets(t.motion, t.phase.islands@, t.phase.islands@.len() as int)
    }
    &&& recorded(
        to.island_diag,
        t.phase,
        manifolds@.len() as int,
        to.last_points.0,
        to.warm@.slots.len(),
    )
    &&& to.island_diag.same_times(&from.island_diag)
}

/// What was counted while points were prepared and bodies judged, and the shortest
/// rests that were returned.
pub open spec fn judgement_noted(
    config: SolveConfig,
    cleanup: bool,
    t: SolveTrace,
    before: Counters,
    after: Counters,
    rests: Seq<Scalar>,
) -> bool {
    let m = t.phase.islands@.len() as int;
    &&& t.counts.0 == before
    &&& if cleanup || config.sleep.per_body {
        after == t.counts.1 && rests.len() == 0
    } else {
        &&& after == islands_counted(
            t.counts.1,
            &t.moved,
            t.motion,
            config.dt,
            config.sleep.sleep_time,
            t.phase.islands@,
            config.sleep.deep,
            m,
        )
        &&& rests == waits(
            &t.moved,
            t.motion,
            config.dt,
            config.sleep.sleep_time,
            t.phase.islands@,
            m,
        )
    }
}

/// Everything that was measured fits the scene.
pub open spec fn measures_fit<M: Fn(&BodySet) -> (Vec<Heat>, Vec<Motion>)>(
    measure: M,
    bodies: nat,
    manifolds: nat,
) -> bool {
    &&& forall|b: &BodySet| b.count() == bodies ==> #[trigger] measure.requires((b,))
    &&& forall|b: &BodySet, r: (Vec<Heat>, Vec<Motion>)|
        b.count() == bodies && #[trigger] measure.ensures((b,), r) ==> r.0@.len() == manifolds
            && r.1@.len() == bodies
}

impl ImpulseSolver {
    /// Solves the contacts of a scene and judges its bodies. `prep` measures the
    /// points of a manifold, `arith` moves impulses and speeds, and `measure` tells
    /// how the bodies move. Returns the shortest rest of each waiting island under the
    /// island rule.
    pub fn solve_phase<
        A: Fn(usize, Vec3) -> Agreement,
        C: Fn(usize, ContactPoint, WarmPoint) -> WarmCandidate,
        K: Fn(usize, WarmPoint) -> Recycled,
        B: Fn(usize, ContactPoint) -> (Vec3, Vec3),
        P: Fn(usize, ContactPoint, AnchorGeom, Option<WarmPoint>) -> PointNumbers,
        W: Fn(PointConstraint, Vec3, Side, Side) -> Option<(Speeds, Speeds)>,
        D: Fn(PointConstraint, Vec3, Side, Side) -> Scalar,
        R: Fn(PointConstraint, Scalar, Vec3, Side, Side) -> Relaxed,
        H: Fn(PointConstraint, Vec3, Side, Side) -> Option<(Speeds, Speeds)>,
        M: Fn(&BodySet) -> (Vec<Heat>, Vec<Motion>),
    >(
        &mut self,
        bodies: &mut BodySet,
        manifolds: &[Manifold],
        config: &SolveConfig,
        cleanup: bool,
        prep: &ContactPrep<A, C, K, B, P>,
        arith: &ContactArith<W, D, R, H>,
        measure: &M,
        counters: &mut Counters,
    ) -> (r: Vec<Scalar>)
        requires
            old(bodies).wf(),
            old(bodies).count() <= u32::MAX,
            split_fits(config.threads as int, old(bodies).count() as int),
            manifolds@.len() <= u32::MAX,
            manifolds_in(manifolds@, old(bodies).count() as int),
            old(self).warm@.sound(),
            old(self).warm@.keys_below(old(bodies).count() as int),
            old(self).warm@.slots.len() + manifolds@.len() <= u32::MAX,
            total_prep(*prep),
            total_contact(*arith),
            measures_fit(*measure, old(bodies).count(), manifolds@.len()),
        ensures
            final(bodies).wf(),
            final(bodies).count() == old(bodies).count(),
            final(self).warm@.sound(),
            final(self).warm@.keys_below(old(bodies).count() as int),
            exists|t: SolveTrace| #[trigger]
                solve_went(
                    old(bodies),
                    final(bodies),
                    manifolds,
                    *config,
                    cleanup,
                    *prep,
                    *arith,
                    *measure,
                    *old(self),
                    *final(self),
                    t,
                ) && judgement_noted(*config, cleanup, t, *old(counters), *final(counters), r@),
    {
        let ghost from = *self;
        let ghost before = *bodies;
        let ghost counters0 = *counters;
        let mut phase = self.begin_phase(bodies, manifolds, config.threads, config.freeze_dormant);
        let ghost phase0 = phase;
        let (outs, total) = self.solve_groups(
            bodies,
            manifolds,
            &mut phase,
            PhaseParams::from_config(&config.iterations, cleanup),
            prep,
            arith,
            config.threads,
            config.freeze_dormant,
            counters,
        );
        let ghost counters1 = *counters;
        self.commit_phase(bodies, manifolds, &phase, &outs);
        let ghost moved = *bodies;
        proof {
            lemma_islands_below(phase0, &before, manifolds@);
        }
        self.record_counts(&phase, manifolds.len(), total);
        let (heat, motion) = measure(bodies);
        assert(measured(*measure, &moved, heat@, motion@));
        proof {
            lemma_listed_len(phase.islands@, bodies.count() as int);
        }
        let r = self.sleep_phase(
            bodies,
            manifolds,
            &phase,
            heat.as_slice(),
            motion.as_slice(),
            &config.sleep,
            config.dt,
            cleanup,
            counters,
        );
        proof {
            let t = SolveTrace {
                phase: phase0,
                lv: phase.bufs.lv@,
                av: phase.bufs.av@,
                outs: outs@,
                total: (total.0 as int, total.1 as int),
                counts: (counters0, counters1),
                moved,
                heat: heat@,
                motion: motion@,
            };
            assert(solve_went(
                &before,
                bodies,
                manifolds,
                *config,
                cleanup,
                *prep,
                *arith,
                *measure,
                from,
                *self,
                t,
            ));
            assert(judgement_noted(*config, cleanup, t, counters0, *counters, r@));
        }
        r
    }

    /// Solves the contacts of a scene.
    pub fn solve<
        A: Fn(usize, Vec3) -> Agreement,
        C: Fn(usize, ContactPoint, WarmPoint) -> WarmCandidate,
        K: Fn(usize, WarmPoint) -> Recycled,
        B: Fn(usize, ContactPoint) -> (Vec3, Vec3),
        P: Fn(usize, ContactPoint, AnchorGeom, Option<WarmPoint>) -> PointNumbers,
        W: Fn(PointConstraint, Vec3, Side, Side) -> Option<(Speeds, Speeds)>,
        D: Fn(PointConstraint, Vec3, Side, Side) -> Scalar,
        R: Fn(PointConstraint, Scalar, Vec3, Side, Side) -> Relaxed,
        H: Fn(PointConstraint, Vec3, Side, Side) -> Option<(Speeds, Speeds)>,
        M: Fn(&BodySet) -> (Vec<Heat>, Vec<Motion>),
    >(
        &mut self,
        bodies: &mut BodySet,
        manifolds: &[Manifold],
        config: &SolveConfig,
        prep: &ContactPrep<A, C, K, B, P>,
        arith: &ContactArith<W, D, R, H>,
        measure: &M,
        counters: &mut Counters,
    ) -> (r: Vec<Scalar>)
        requires
            old(bodies).wf(),
            old(bodies).count() <= u32::MAX,
            split_fits(config.threads as int, old(bodies).count() as int),
            manifolds@.len() <= u32::MAX,
            manifolds_in(manifolds@, old(bodies).count() as int),
            old(self).warm@.sound(),
            old(self).warm@.keys_below(old(bodies).count() as int),
            old(self).warm@.slots.len() + manifolds@.len() <= u32::MAX,
            total_prep(*prep),
            total_contact(*arith),
            measures_fit(*measure, old(bodies).count(), manifolds@.len()),
        ensures
            final(bodies).wf(),
            final(bodies).count() == old(bodies).count(),
            final(self).warm@.sound(),
            final(self).warm@.keys_below(old(bodies).count() as int),
            exists|t: SolveTrace| #[trigger]
                solve_went(
                    old(bodies),
                    final(bodies),
                    manifolds,
                    *config,
                    false,
                    *prep,
                    *arith,
                    *measure,
                    *old(self),
                    *final(self),
                    t,
                ) && judgement_noted(*config, false, t, *old(counters), *final(counters), r@),
    {
        self.solve_phase(bodies, manifolds, config, false, prep, arith, measure, counters)
    }

    /// Takes the correction speed out again: solves the contacts without correcting
    /// depth, and judges no body.
    pub fn solve_unbiased<
        A: Fn(usize, Vec3) -> Agreement,
        C: Fn(usize, ContactPoint, WarmPoint) -> WarmCandidate,
        K: Fn(usize, WarmPoint) -> Recycled,
        B: Fn(usize, ContactPoint) -> (Vec3, Vec3),
        P: Fn(usize, ContactPoint, AnchorGeom, Option<WarmPoint>) -> PointNumbers,
        W: Fn(PointConstraint, Vec3, Side, Side) -> Option<(Speeds, Speeds)>,
        D: Fn(PointConstraint, Vec3, Side, Side) -> Scalar,
        R: Fn(PointConstraint, Scalar, Vec3, Side, Side) -> Relaxed,
        H: Fn(PointConstraint, Vec3, Side, Side) -> Option<(Speeds, Speeds)>,
        M: Fn(&BodySet) -> (Vec<Heat>, Vec<Motion>),
    >(
        &mut self,
        bodies: &mut BodySet,
        manifolds: &[Manifold],
        config: &SolveConfig,
        prep: &ContactPrep<A, C, K, B, P>,
        arith: &ContactArith<W, D, R, H>,
        measure: &M,
        counters: &mut Counters,
    ) -> (r: Vec<Scalar>)
        requires
            old(bodies).wf(),
            old(bodies).count() <= u32::MAX,
            split_fits(config.threads as int, old(bodies).count() as int),
            manifolds@.len() <= u32::MAX,
            manifolds_in(manifolds@, old(bodies).count() as int),
            old(self).warm@.sound(),
            old(self).warm@.keys_below(old(bodies).count() as int),
            old(self).warm@.slots.len() + manifolds@.len() <= u32::MAX,
            total_prep(*prep),
            total_contact(*arith),
            measures_fit(*measure, old(bodies).count(), manifolds@.len()),
        ensures
            final(bodies).wf(),
            final(bodies).count() == old(bodies).count(),
            final(self).warm@.sound(),
            final(self).warm@.keys_below(old(bodies).count() as int),
            exists|t: SolveTrace| #[trigger]
                solve_went(
                    old(bodies),
                    final(bodies),
                    manifolds,
                    *config,
                    true,
                    *prep,
                    *arith,
                    *measure,
                    *old(self),
                    *final(self),
                    t,
                ) && judgement_noted(*config, true, t, *old(counters), *final(counters), r@),
    {
        self.solve_phase(bodies, manifolds, config, true, prep, arith, measure, counters)
    }
}

/// No more bodies are listed than there are.
pub proof fn lemma_listed_len(islands: Seq<Island>, n: int)
    requires
        listed_once(islands, n),
        n >= 0,
    ensures
        members(islands, 0, islands.len() as int).len() <= n,
{
    let all = members(islands, 0, islands.len() as int);
    all.unique_seq_to_set();
    let range = vstd::set_lib::set_int_range(0, n);
    vstd::set_lib::lemma_int_range(0, n);
    let wide = ints_u32(all);
    assert(wide.no_duplicates());
    wide.unique_seq_to_set();
    assert(wide.to_set().subset_of(range)) by {
        assert forall|i: int| wide.to_set().contains(i) implies range.contains(i) by {
            let k = choose|k: int| 0 <= k < wide.len() && wide[k] == i;
            assert(all[k] < n);
        }
    }
    vstd::set_lib::lemma_len_subset(wide.to_set(), range);
}

} // verus!
