//! Counters that describe what the solver did. They never influence it.

use vstd::prelude::*;

verus! {

/// Event counters; every one wraps around on overflow.
#[derive(Clone, Copy, Debug, PartialEq, Eq, Structural)]
pub struct Counters {
    /// Bodies over a speed limit, summed over the checked islands.
    pub sleep_fast_body: u64,
    /// Bodies checked against the speed limits.
    pub sleep_body_all: u64,
    /// Islands that stayed awake because a body was fast.
    pub sleep_fast: u64,
    /// Islands whose bodies were all slow, but not for long enough.
    pub sleep_wait: u64,
    /// Islands that fell asleep.
    pub sleep_slept: u64,
    /// Longest time, in milliseconds, that all bodies of a waiting island had been slow.
    pub sleep_wait_max_ms: u64,
    /// Fallback matches whose contact normal had changed.
    pub normal_flip: u64,
    /// Fallback matches whose contact normal had stayed.
    pub normal_same: u64,
    /// Fallback matches whose incident face moved to the other body.
    pub fallback_side: u64,
    /// Fallback matches that switched between vertex and clipped point.
    pub fallback_clip: u64,
    /// Fallback matches of the same kind with another name.
    pub fallback_hash: u64,
    /// Fallback matches with the same feature.
    pub fallback_same: u64,
    /// Points matched by feature.
    pub warm_exact: u64,
    /// Points matched by distance.
    pub warm_fallback: u64,
    /// Points that found no match.
    pub warm_miss: u64,
    /// Contact points prepared.
    pub points: u64,
    /// Contact points prepared whose bodies were still apart.
    pub separated: u64,
    /// Closing speed allowed to separated points, in thousandths.
    pub closing_milli: u64,
    /// Correction speed given to penetrating points, in thousandths.
    pub bias_milli: u64,
}

impl Counters {
    /// All counters at zero.
    pub open spec fn zero_spec() -> Counters {
        Counters {
            sleep_fast_body: 0,
            sleep_body_all: 0,
            sleep_fast: 0,
            sleep_wait: 0,
            sleep_slept: 0,
            sleep_wait_max_ms: 0,
            normal_flip: 0,
            normal_same: 0,
            fallback_side: 0,
            fallback_clip: 0,
            fallback_hash: 0,
            fallback_same: 0,
            warm_exact: 0,
            warm_fallback: 0,
            warm_miss: 0,
            points: 0,
            separated: 0,
            closing_milli: 0,
            bias_milli: 0,
        }
    }

    /// All counters at zero.
    pub fn new() -> (c: Counters)
        ensures
            c == Counters::zero_spec(),
    {
        Counters {
            sleep_fast_body: 0,
            sleep_body_all: 0,
            sleep_fast: 0,
            sleep_wait: 0,
            sleep_slept: 0,
            sleep_wait_max_ms: 0,
            normal_flip: 0,
            normal_same: 0,
            fallback_side: 0,
            fallback_clip: 0,
            fallback_hash: 0,
            fallback_same: 0,
            warm_exact: 0,
            warm_fallback: 0,
            warm_miss: 0,
            points: 0,
            separated: 0,
            closing_milli: 0,
            bias_milli: 0,
        }
    }
}

/// Two counts together.
pub open spec fn summed(m: u64, n: u64) -> u64 {
    if m + n > u64::MAX {
        (m + n - 0x1_0000_0000_0000_0000) as u64
    } else {
        (m + n) as u64
    }
}

impl Counters {
    /// The counts of both; of the longest waits, the longer one.
    pub open spec fn with(self, d: Counters) -> Counters {
        Counters {
            sleep_fast_body: summed(self.sleep_fast_body, d.sleep_fast_body),
            sleep_body_all: summed(self.sleep_body_all, d.sleep_body_all),
            sleep_fast: summed(self.sleep_fast, d.sleep_fast),
            sleep_wait: summed(self.sleep_wait, d.sleep_wait),
            sleep_slept: summed(self.sleep_slept, d.sleep_slept),
            sleep_wait_max_ms: if self.sleep_wait_max_ms < d.sleep_wait_max_ms {
                d.sleep_wait_max_ms
            } else {
                self.sleep_wait_max_ms
            },
            normal_flip: summed(self.normal_flip, d.normal_flip),
            normal_same: summed(self.normal_same, d.normal_same),
            fallback_side: summed(self.fallback_side, d.fallback_side),
            fallback_clip: summed(self.fallback_clip, d.fallback_clip),
            fallback_hash: summed(self.fallback_hash, d.fallback_hash),
            fallback_same: summed(self.fallback_same, d.fallback_same),
            warm_exact: summed(self.warm_exact, d.warm_exact),
            warm_fallback: summed(self.warm_fallback, d.warm_fallback),
            warm_miss: summed(self.warm_miss, d.warm_miss),
            points: summed(self.points, d.points),
            separated: summed(self.separated, d.separated),
            closing_milli: summed(self.closing_milli, d.closing_milli),
            bias_milli: summed(self.bias_milli, d.bias_milli),
        }
    }

    /// Takes over what was counted elsewhere, such as in a thread.
    pub fn merge(&mut self, d: &Counters)
        ensures
            *final(self) == old(self).with(*d),
    {
        self.sleep_fast_body = self.sleep_fast_body.wrapping_add(d.sleep_fast_body);
        self.sleep_body_all = self.sleep_body_all.wrapping_add(d.sleep_body_all);
        self.sleep_fast = self.sleep_fast.wrapping_add(d.sleep_fast);
        self.sleep_wait = self.sleep_wait.wrapping_add(d.sleep_wait);
        self.sleep_slept = self.sleep_slept.wrapping_add(d.sleep_slept);
        if self.sleep_wait_max_ms < d.sleep_wait_max_ms {
            self.sleep_wait_max_ms = d.sleep_wait_max_ms;
        }
        self.normal_flip = self.normal_flip.wrapping_add(d.normal_flip);
        self.normal_same = self.normal_same.wrapping_add(d.normal_same);
        self.fallback_side = self.fallback_side.wrapping_add(d.fallback_side);
        self.fallback_clip = self.fallback_clip.wrapping_add(d.fallback_clip);
        self.fallback_hash = self.fallback_hash.wrapping_add(d.fallback_hash);
        self.fallback_same = self.fallback_same.wrapping_add(d.fallback_same);
        self.warm_exact = self.warm_exact.wrapping_add(d.warm_exact);
        self.warm_fallback = self.warm_fallback.wrapping_add(d.warm_fallback);
        self.warm_miss = self.warm_miss.wrapping_add(d.warm_miss);
        self.points = self.points.wrapping_add(d.points);
        self.separated = self.separated.wrapping_add(d.separated);
        self.closing_milli = self.closing_milli.wrapping_add(d.closing_milli);
        self.bias_milli = self.bias_milli.wrapping_add(d.bias_milli);
    }
}

/// The count after one more event.
pub open spec fn counted(n: u64) -> u64 {
    if n == u64::MAX {
        0
    } else {
        (n + 1) as u64
    }
}

/// Reads and clears the per-body sleep counters: bodies over a limit, bodies
/// checked.
pub fn sleep_diag_deep_take(c: &mut Counters) -> (r: (u64, u64))
    ensures
        r == (old(c).sleep_fast_body, old(c).sleep_body_all),
        *final(c) == (Counters { sleep_fast_body: 0, sleep_body_all: 0, ..*old(c) }),
{
    let r = (c.sleep_fast_body, c.sleep_body_all);
    c.sleep_fast_body = 0;
    c.sleep_body_all = 0;
    r
}

/// Reads and clears the island sleep counters: kept awake by a fast body, all slow
/// but not yet for long enough, fell asleep, longest wait.
pub fn sleep_diag_take(c: &mut Counters) -> (r: (u64, u64, u64, u64))
    ensures
        r == (old(c).sleep_fast, old(c).sleep_wait, old(c).sleep_slept, old(c).sleep_wait_max_ms),
        *final(c) == (Counters { sleep_fast: 0, sleep_wait: 0, sleep_slept: 0, sleep_wait_max_ms: 0, ..*old(c) }),
{
    let r = (c.sleep_fast, c.sleep_wait, c.sleep_slept, c.sleep_wait_max_ms);
    c.sleep_fast = 0;
    c.sleep_wait = 0;
    c.sleep_slept = 0;
    c.sleep_wait_max_ms = 0;
    r
}

/// Reads and clears the normal counters: changed, stayed.
pub fn warm_normal_flip_take(c: &mut Counters) -> (r: (u64, u64))
    ensures
        r == (old(c).normal_flip, old(c).normal_same),
        *final(c) == (Counters { normal_flip: 0, normal_same: 0, ..*old(c) }),
{
    let r = (c.normal_flip, c.normal_same);
    c.normal_flip = 0;
    c.normal_same = 0;
    r
}

/// Reads and clears the fallback causes: side, clipping, name, none.
pub fn warm_fallback_kind_take(c: &mut Counters) -> (r: (u64, u64, u64, u64))
    ensures
        r == (old(c).fallback_side, old(c).fallback_clip, old(c).fallback_hash, old(c).fallback_same),
        *final(c) == (Counters { fallback_side: 0, fallback_clip: 0, fallback_hash: 0, fallback_same: 0, ..*old(c) }),
{
    let r = (c.fallback_side, c.fallback_clip, c.fallback_hash, c.fallback_same);
    c.fallback_side = 0;
    c.fallback_clip = 0;
    c.fallback_hash = 0;
    c.fallback_same = 0;
    r
}

/// Reads and clears the match counters: by feature, by distance, none.
pub fn warm_match_stats_take(c: &mut Counters) -> (r: (u64, u64, u64))
    ensures
        r == (old(c).warm_exact, old(c).warm_fallback, old(c).warm_miss),
        *final(c) == (Counters { warm_exact: 0, warm_fallback: 0, warm_miss: 0, ..*old(c) }),
{
    let r = (c.warm_exact, c.warm_fallback, c.warm_miss);
    c.warm_exact = 0;
    c.warm_fallback = 0;
    c.warm_miss = 0;
    r
}

/// Reads and clears the preparation counters: points, separated points, closing
/// speed, correction speed.
pub fn solve_accounting_take(c: &mut Counters) -> (r: (u64, u64, u64, u64))
    ensures
        r == (old(c).points, old(c).separated, old(c).closing_milli, old(c).bias_milli),
        *final(c) == (Counters { points: 0, separated: 0, closing_milli: 0, bias_milli: 0, ..*old(c) }),
{
    let r = (c.points, c.separated, c.closing_milli, c.bias_milli);
    c.points = 0;
    c.separated = 0;
    c.closing_milli = 0;
    c.bias_milli = 0;
    r
}

/// How one solve was split into islands and groups, and where its time went
/// (microseconds).
#[derive(Clone, Debug)]
pub struct IslandDiag {
    /// Islands, manifolds and groups of this solve.
    pub islands: u32,
    pub manifolds: u32,
    pub g_count: u32,
    /// Finding the islands.
    pub gather_us: u64,
    pub island_build_us: u64,
    /// Copying velocities into the groups.
    pub fill_us: u64,
    /// The parallel section.
    pub scope_us: u64,
    /// Writing velocities and cached impulses back.
    pub scatter_us: u64,
    /// Time and manifolds of each group.
    pub group_us: Vec<u64>,
    pub group_manifs: Vec<u32>,
    /// Preparing, warm starting and iterating, summed over the groups.
    pub build_us: u64,
    pub warm_us: u64,
    pub iter_us: u64,
    /// Contact points of this solve.
    pub points: u32,
    /// Slots of the impulse cache and the size of one.
    pub warm_count: u32,
    pub warm_bytes_per_slot: u32,
}

impl IslandDiag {
    /// The times are those of the other.
    pub open spec fn same_times(&self, other: &IslandDiag) -> bool {
        &&& self.gather_us == other.gather_us
        &&& self.island_build_us == other.island_build_us
        &&& self.fill_us == other.fill_us
        &&& self.scope_us == other.scope_us
        &&& self.scatter_us == other.scatter_us
        &&& self.group_us == other.group_us
        &&& self.build_us == other.build_us
        &&& self.warm_us == other.warm_us
        &&& self.iter_us == other.iter_us
    }

    /// The counts are those of the other.
    pub open spec fn same_counts(&self, other: &IslandDiag) -> bool {
        &&& self.islands == other.islands
        &&& self.manifolds == other.manifolds
        &&& self.g_count == other.g_count
        &&& self.group_manifs == other.group_manifs
        &&& self.points == other.points
        &&& self.warm_count == other.warm_count
        &&& self.warm_bytes_per_slot == other.warm_bytes_per_slot
    }
}

impl Default for IslandDiag {
    /// Nothing measured yet.
    fn default() -> (r: IslandDiag)
        ensures
            r.islands == 0 && r.manifolds == 0 && r.g_count == 0,
            r.gather_us == 0 && r.island_build_us == 0 && r.fill_us == 0,
            r.scope_us == 0 && r.scatter_us == 0,
            r.group_us@.len() == 0 && r.group_manifs@.len() == 0,
            r.build_us == 0 && r.warm_us == 0 && r.iter_us == 0,
            r.points == 0 && r.warm_count == 0 && r.warm_bytes_per_slot == 0,
    {
        IslandDiag {
            islands: 0,
            manifolds: 0,
            g_count: 0,
            gather_us: 0,
            island_build_us: 0,
            fill_us: 0,
            scope_us: 0,
            scatter_us: 0,
            group_us: Vec::new(),
            group_manifs: Vec::new(),
            build_us: 0,
            warm_us: 0,
            iter_us: 0,
            points: 0,
            warm_count: 0,
            warm_bytes_per_slot: 0,
        }
    }
}

} // verus!
