//! Groups of islands: which islands each worker gets, and the copies of the
//! body velocities it works on.

use crate::body::BodySet;
use crate::island::{
    in_island, island_of, islands_are_disjoint, islands_of, lemma_in_island,
    lemma_manifold_in_one_island, leaders, manifold_in_island, manifold_with, Island,
};
use crate::contact::Manifold;
use crate::select::{ints_u32, ints_usize, lemma_indices_where, lemma_indices_where_contains};
use crate::scalar::Vec3;
use vstd::arithmetic::div_mod::{lemma_div_is_ordered, lemma_div_multiples_vanish};
use vstd::prelude::*;

verus! {

/// Scenes with fewer manifolds than this are solved as one group.
pub const PARALLEL_MANIFOLDS: usize = 4096;

/// How many groups the islands are split into.
pub open spec fn group_count_spec(threads: int, manifolds: int, islands: int) -> int {
    if threads <= 1 || manifolds < PARALLEL_MANIFOLDS || islands == 0 {
        1
    } else if islands < threads {
        islands
    } else {
        threads
    }
}

/// One group for small scenes or a single thread, otherwise as many as there are
/// threads but never more than islands, and at least one.
pub fn group_count(threads: usize, manifolds: usize, islands: usize) -> (g: usize)
    ensures
        g == group_count_spec(threads as int, manifolds as int, islands as int),
        g >= 1,
{
    if threads <= 1 || manifolds < PARALLEL_MANIFOLDS {
        1
    } else {
        let g: usize = if islands < threads {
            islands
        } else {
            threads
        };
        if g < 1 {
            1
        } else {
            g
        }
    }
}

/// The first island of group `g` when `n` islands are split into `count` groups.
pub open spec fn group_start(n: int, count: int, g: int) -> int {
    g * n / count
}

/// The groups cover the islands without gap or overlap, in order.
pub proof fn groups_tile_the_islands(n: int, count: int, g: int)
    requires
        n >= 0,
        count >= 1,
        0 <= g < count,
    ensures
        group_start(n, count, 0) == 0,
        group_start(n, count, count) == n,
        0 <= group_start(n, count, g) <= group_start(n, count, g + 1) <= n,
{
    lemma_div_multiples_vanish(n, count);
    assert(count * n == n * count) by (nonlinear_arith);
    assert(0 * n == 0) by (nonlinear_arith);
    assert(g * n <= (g + 1) * n) by (nonlinear_arith)
        requires
            n >= 0,
    ;
    assert((g + 1) * n <= count * n) by (nonlinear_arith)
        requires
            n >= 0,
            g + 1 <= count,
    ;
    assert(0 <= g * n) by (nonlinear_arith)
        requires
            n >= 0,
            g >= 0,
    ;
    lemma_div_is_ordered(0, g * n, count);
    lemma_div_is_ordered(g * n, (g + 1) * n, count);
    lemma_div_is_ordered((g + 1) * n, count * n, count);
}

/// Every island is in the range of some group.
pub proof fn every_island_has_a_group(n: int, count: int, s: int)
    requires
        count >= 1,
        0 <= s < n,
    ensures
        exists|g: int|
            0 <= g < count && #[trigger] group_start(n, count, g) <= s < group_start(
                n,
                count,
                g + 1,
            ),
{
    groups_tile_the_islands(n, count, 0);
    lemma_find_group(n, count, s, count);
}

proof fn lemma_find_group(n: int, count: int, s: int, top: int)
    requires
        count >= 1,
        0 <= s < n,
        0 < top <= count,
        s < group_start(n, count, top),
    ensures
        exists|g: int|
            0 <= g < count && #[trigger] group_start(n, count, g) <= s < group_start(
                n,
                count,
                g + 1,
            ),
    decreases top,
{
    let g = top - 1;
    if group_start(n, count, g) <= s {
        assert(group_start(n, count, g) <= s < group_start(n, count, g + 1));
    } else {
        groups_tile_the_islands(n, count, 0);
        lemma_find_group(n, count, s, g);
    }
}

/// The bodies of the islands from `lo` up to `hi`, island after island.
pub open spec fn members(islands: Seq<Island>, lo: int, hi: int) -> Seq<u32>
    decreases hi - lo,
{
    if lo >= hi {
        Seq::empty()
    } else {
        members(islands, lo, hi - 1) + islands[hi - 1].bodies@
    }
}

/// How many manifolds the islands from `lo` up to `hi` hold.
pub open spec fn manifold_total(islands: Seq<Island>, lo: int, hi: int) -> int
    decreases hi - lo,
{
    if lo >= hi {
        0
    } else {
        manifold_total(islands, lo, hi - 1) + islands[hi - 1].manifs@.len()
    }
}

/// No body is listed twice, and every listed body exists.
pub open spec fn listed_once(islands: Seq<Island>, n: int) -> bool {
    &&& members(islands, 0, islands.len() as int).no_duplicates()
    &&& forall|k: int|
        0 <= k < members(islands, 0, islands.len() as int).len() ==> #[trigger] members(
            islands,
            0,
            islands.len() as int,
        )[k] < n
}

/// A run of islands is a run of the bodies of any larger run.
pub proof fn lemma_members_split(islands: Seq<Island>, lo: int, mid: int, hi: int)
    requires
        lo <= mid <= hi,
    ensures
        members(islands, lo, hi) == members(islands, lo, mid) + members(islands, mid, hi),
    decreases hi - mid,
{
    if mid < hi {
        lemma_members_split(islands, lo, mid, hi - 1);
        assert(members(islands, lo, hi) =~= members(islands, lo, mid) + members(islands, mid, hi));
    } else {
        assert(members(islands, lo, hi) =~= members(islands, lo, mid) + members(islands, mid, hi));
    }
}

/// The manifolds of two runs of islands add up.
pub proof fn lemma_manifold_total_monotone(islands: Seq<Island>, lo: int, mid: int, hi: int)
    requires
        0 <= lo <= mid <= hi,
    ensures
        0 <= manifold_total(islands, mid, hi),
        manifold_total(islands, lo, mid) + manifold_total(islands, mid, hi) == manifold_total(
            islands,
            lo,
            hi,
        ),
    decreases hi - mid,
{
    if mid < hi {
        lemma_manifold_total_monotone(islands, lo, mid, hi - 1);
    }
}

/// The island ranges of the groups and how many manifolds each group holds.
pub struct Groups {
    pub ranges: Vec<(usize, usize)>,
    pub manifolds: Vec<u32>,
}

impl Groups {
    /// The ranges split the islands evenly into `count` groups.
    pub open spec fn splits(&self, islands: Seq<Island>, count: int) -> bool {
        &&& count >= 1
        &&& self.ranges@.len() == count
        &&& self.manifolds@.len() == count
        &&& forall|g: int|
            0 <= g < count ==> (#[trigger] self.ranges@[g]).0 == group_start(
                islands.len() as int,
                count,
                g,
            ) && self.ranges@[g].1 == group_start(islands.len() as int, count, g + 1)
        &&& forall|g: int|
            0 <= g < count ==> #[trigger] self.manifolds@[g] == manifold_total(
                islands,
                group_start(islands.len() as int, count, g),
                group_start(islands.len() as int, count, g + 1),
            )
    }
}

/// Splits the islands into `count` groups of consecutive islands.
pub fn split_groups(islands: &[Island], count: usize) -> (r: Groups)
    requires
        count >= 1,
        count * islands@.len() <= usize::MAX,
        manifold_total(islands@, 0, islands@.len() as int) <= u32::MAX,
    ensures
        r.splits(islands@, count as int),
{
    let n: usize = islands.len();
    let mut ranges: Vec<(usize, usize)> = Vec::new();
    let mut totals: Vec<u32> = Vec::new();
    let mut g: usize = 0;
    while g < count
        invariant
            n == islands@.len(),
            g <= count,
            count >= 1,
            count * n <= usize::MAX,
            manifold_total(islands@, 0, n as int) <= u32::MAX,
            ranges@.len() == g,
            totals@.len() == g,
            forall|h: int|
                0 <= h < g ==> (#[trigger] ranges@[h]).0 == group_start(n as int, count as int, h)
                    && ranges@[h].1 == group_start(n as int, count as int, h + 1),
            forall|h: int|
                0 <= h < g ==> #[trigger] totals@[h] == manifold_total(
                    islands@,
                    group_start(n as int, count as int, h),
                    group_start(n as int, count as int, h + 1),
                ),
        decreases count - g,
    {
        proof {
            assert(g * n <= (g + 1) * n <= count * n) by (nonlinear_arith)
                requires
                    g + 1 <= count,
                    n >= 0,
                    g >= 0,
            ;
            groups_tile_the_islands(n as int, count as int, g as int);
        }
        let s0: usize = g * n / count;
        let e0: usize = (g + 1) * n / count;
        let mut here: u32 = 0;
        let mut s: usize = s0;
        while s < e0
            invariant
                n == islands@.len(),
                s0 <= s <= e0 <= n,
                here == manifold_total(islands@, s0 as int, s as int),
                manifold_total(islands@, 0, n as int) <= u32::MAX,
            decreases e0 - s,
        {
            proof {
                lemma_manifold_total_monotone(islands@, 0, s0 as int, n as int);
                lemma_manifold_total_monotone(islands@, s0 as int, (s + 1) as int, n as int);
                lemma_manifold_total_monotone(islands@, 0, 0, s0 as int);
            }
            here = here + islands[s].manifs.len() as u32;
            s += 1;
        }
        ranges.push((s0, e0));
        totals.push(here);
        g += 1;
    }
    Groups { ranges, manifolds: totals }
}

/// Marks a body that no group works on.
pub const NO_LOCAL: u32 = 0xffff_ffff;

/// The place of body `i` in the list of its group; a body without a place does
/// not move during the solve.
pub fn local_slot(local_of: &[u32], i: usize) -> (r: Option<usize>)
    requires
        i < local_of@.len(),
    ensures
        r == if local_of@[i as int] == NO_LOCAL {
            None
        } else {
            Some(local_of@[i as int] as usize)
        },
{
    let k: u32 = local_of[i];
    if k == NO_LOCAL {
        None
    } else {
        Some(k as usize)
    }
}

/// Working copies of the velocities, one list for each group, and the place of
/// every body in the list of its group.
pub struct GroupBufs {
    pub lv: Vec<Vec<Vec3>>,
    pub av: Vec<Vec<Vec3>>,
    pub frozen: Vec<Vec<bool>>,
    pub local_of: Vec<u32>,
}

/// The bodies of group `g`.
pub open spec fn group_members(islands: Seq<Island>, count: int, g: int) -> Seq<u32> {
    members(
        islands,
        group_start(islands.len() as int, count, g),
        group_start(islands.len() as int, count, g + 1),
    )
}

/// Body `i` takes part as an immovable one: it sleeps while its island is awake.
pub open spec fn is_frozen(bodies: &BodySet, freeze_dormant: bool, i: int) -> bool {
    freeze_dormant && !bodies.awake@[i]
}

/// The linear velocity with which body `i` enters the solve.
pub open spec fn entering_linvel(bodies: &BodySet, freeze_dormant: bool, i: int) -> Vec3 {
    if is_frozen(bodies, freeze_dormant, i) {
        Vec3::zero_spec()
    } else {
        bodies.linvel@[i]
    }
}

/// The angular velocity with which body `i` enters the solve.
pub open spec fn entering_angvel(bodies: &BodySet, freeze_dormant: bool, i: int) -> Vec3 {
    if is_frozen(bodies, freeze_dormant, i) {
        Vec3::zero_spec()
    } else {
        bodies.angvel@[i]
    }
}

impl GroupBufs {
    /// The lists of group `g` follow the bodies `ids`.
    pub open spec fn holds(
        &self,
        bodies: &BodySet,
        freeze_dormant: bool,
        g: int,
        ids: Seq<u32>,
    ) -> bool {
        &&& self.lv@[g]@ == ids.map_values(
            |i: u32| entering_linvel(bodies, freeze_dormant, i as int),
        )
        &&& self.av@[g]@ == ids.map_values(
            |i: u32| entering_angvel(bodies, freeze_dormant, i as int),
        )
        &&& self.frozen@[g]@ == ids.map_values(
            |i: u32| is_frozen(bodies, freeze_dormant, i as int),
        )
    }

    /// There is one list of each kind for every group.
    pub open spec fn sized(&self, count: int) -> bool {
        self.lv@.len() == count && self.av@.len() == count && self.frozen@.len() == count
    }

    /// Each body knows its place in the list of its group.
    pub open spec fn places(&self, islands: Seq<Island>, count: int) -> bool {
        forall|g: int, k: int|
            0 <= g < count && 0 <= k < group_members(islands, count, g).len()
                ==> self.local_of@[#[trigger] group_members(islands, count, g)[k] as int] == k
    }
}

/// The bodies of two groups are different bodies.
pub proof fn groups_have_disjoint_bodies(
    islands: Seq<Island>,
    n: int,
    count: int,
    g: int,
    h: int,
    j: int,
    k: int,
)
    requires
        listed_once(islands, n),
        count >= 1,
        0 <= g < count,
        0 <= h < count,
        0 <= j < group_members(islands, count, g).len(),
        0 <= k < group_members(islands, count, h).len(),
    ensures
        group_members(islands, count, g)[j] < n,
        group_members(islands, count, g)[j] == group_members(islands, count, h)[k] <==> (g == h && j
            == k),
{
    let m = islands.len() as int;
    let all = members(islands, 0, m);
    lemma_group_is_run(islands, count, g);
    lemma_group_is_run(islands, count, h);
    let x = members(islands, 0, group_start(m, count, g)).len();
    let y = members(islands, 0, group_start(m, count, h)).len();
    assert(all[x + j] == group_members(islands, count, g)[j]);
    assert(all[y + k] == group_members(islands, count, h)[k]);
    if g < h {
        lemma_starts_ordered(m, count, g + 1, h);
        lemma_members_split(
            islands,
            0,
            group_start(m, count, g + 1),
            group_start(m, count, h),
        );
        lemma_members_split(
            islands,
            0,
            group_start(m, count, g),
            group_start(m, count, g + 1),
        );
    } else if h < g {
        lemma_starts_ordered(m, count, h + 1, g);
        lemma_members_split(
            islands,
            0,
            group_start(m, count, h + 1),
            group_start(m, count, g),
        );
        lemma_members_split(
            islands,
            0,
            group_start(m, count, h),
            group_start(m, count, h + 1),
        );
    }
}

proof fn lemma_starts_ordered(n: int, count: int, g: int, h: int)
    requires
        n >= 0,
        count >= 1,
        0 <= g <= h <= count,
    ensures
        0 <= group_start(n, count, g) <= group_start(n, count, h) <= n,
    decreases h - g,
{
    if g < h {
        groups_tile_the_islands(n, count, g);
        lemma_starts_ordered(n, count, g + 1, h);
    } else {
        if g < count {
            groups_tile_the_islands(n, count, g);
        } else {
            groups_tile_the_islands(n, count, 0);
        }
    }
}

/// The bodies of a group are a run of all listed bodies.
proof fn lemma_group_is_run(islands: Seq<Island>, count: int, g: int)
    requires
        count >= 1,
        0 <= g < count,
    ensures
        ({
            let m = islands.len() as int;
            let x = members(islands, 0, group_start(m, count, g)).len();
            &&& x + group_members(islands, count, g).len() <= members(islands, 0, m).len()
            &&& forall|j: int|
                0 <= j < group_members(islands, count, g).len() ==> members(islands, 0, m)[x + j]
                    == #[trigger] group_members(islands, count, g)[j]
        }),
{
    let m = islands.len() as int;
    groups_tile_the_islands(m, count, g);
    let s0 = group_start(m, count, g);
    let e0 = group_start(m, count, g + 1);
    lemma_members_split(islands, 0, s0, e0);
    lemma_members_split(islands, 0, e0, m);
}

/// Every listed body of a group exists, and none is listed twice in it.
proof fn lemma_group_listed_once(islands: Seq<Island>, n: int, count: int, g: int)
    requires
        listed_once(islands, n),
        count >= 1,
        0 <= g < count,
    ensures
        group_members(islands, count, g).no_duplicates(),
        forall|k: int|
            0 <= k < group_members(islands, count, g).len() ==> #[trigger] group_members(
                islands,
                count,
                g,
            )[k] < n,
{
    let ids = group_members(islands, count, g);
    assert forall|j: int, k: int| 0 <= j < ids.len() && 0 <= k < ids.len() && j != k implies ids[j]
        != ids[k] by {
        groups_have_disjoint_bodies(islands, n, count, g, g, j, k);
    }
    assert forall|k: int| 0 <= k < ids.len() implies #[trigger] ids[k] < n by {
        groups_have_disjoint_bodies(islands, n, count, g, g, k, k);
    }
}

/// The working copies of one group.
struct GroupCopy {
    lv: Vec<Vec3>,
    av: Vec<Vec3>,
    frozen: Vec<bool>,
}

/// Copies the velocities of the islands from `s0` up to `e0` and notes the place
/// of each body.
fn gather_group(
    bodies: &BodySet,
    islands: &[Island],
    s0: usize,
    e0: usize,
    freeze_dormant: bool,
    local_of: &mut Vec<u32>,
) -> (r: GroupCopy)
    requires
        bodies.wf(),
        s0 <= e0 <= islands@.len(),
        old(local_of)@.len() == bodies.count(),
        members(islands@, s0 as int, e0 as int).no_duplicates(),
        forall|k: int|
            0 <= k < members(islands@, s0 as int, e0 as int).len() ==> #[trigger] members(
                islands@,
                s0 as int,
                e0 as int,
            )[k] < bodies.count(),
    ensures
        r.lv@ == members(islands@, s0 as int, e0 as int).map_values(
            |i: u32| entering_linvel(bodies, freeze_dormant, i as int),
        ),
        r.av@ == members(islands@, s0 as int, e0 as int).map_values(
            |i: u32| entering_angvel(bodies, freeze_dormant, i as int),
        ),
        r.frozen@ == members(islands@, s0 as int, e0 as int).map_values(
            |i: u32| is_frozen(bodies, freeze_dormant, i as int),
        ),
        final(local_of)@.len() == old(local_of)@.len(),
        forall|k: int|
            0 <= k < members(islands@, s0 as int, e0 as int).len() ==> final(local_of)@[#[trigger] members(islands@, s0 as int, e0 as int)[k] as int] == k,
        forall|i: int|
            0 <= i < bodies.count() && !members(islands@, s0 as int, e0 as int).contains(i as u32)
                ==> #[trigger] final(local_of)@[i] == old(local_of)@[i],
{
    let mut lv: Vec<Vec3> = Vec::new();
    let mut av: Vec<Vec3> = Vec::new();
    let mut frozen: Vec<bool> = Vec::new();
    let ghost ids = members(islands@, s0 as int, e0 as int);
    let ghost n = bodies.count();
    let mut s: usize = s0;
    assert(members(islands@, s0 as int, s0 as int) =~= ids.take(0));
    while s < e0
        invariant
            bodies.wf(),
            n == bodies.count(),
            s0 <= s <= e0 <= islands@.len(),
            local_of@.len() == n,
            ids == members(islands@, s0 as int, e0 as int),
            ids.no_duplicates(),
            forall|k: int| 0 <= k < ids.len() ==> #[trigger] ids[k] < n,
            lv@.len() <= ids.len(),
            members(islands@, s0 as int, s as int) == ids.take(lv@.len() as int),
            av@.len() == lv@.len(),
            frozen@.len() == lv@.len(),
            forall|k: int|
                0 <= k < lv@.len() ==> #[trigger] lv@[k] == entering_linvel(
                    bodies,
                    freeze_dormant,
                    ids[k] as int,
                ),
            forall|k: int|
                0 <= k < lv@.len() ==> #[trigger] av@[k] == entering_angvel(
                    bodies,
                    freeze_dormant,
                    ids[k] as int,
                ),
            forall|k: int|
                0 <= k < lv@.len() ==> #[trigger] frozen@[k] == is_frozen(
                    bodies,
                    freeze_dormant,
                    ids[k] as int,
                ),
            forall|k: int| 0 <= k < lv@.len() ==> local_of@[#[trigger] ids[k] as int] == k,
            forall|i: int|
                0 <= i < n && !ids.contains(i as u32) ==> #[trigger] local_of@[i] == old(local_of)@[i],
        decreases e0 - s,
    {
        let ghost done = lv@.len() as int;
        proof {
            lemma_members_split(islands@, s0 as int, (s + 1) as int, e0 as int);
            assert(members(islands@, s0 as int, (s + 1) as int) == members(
                islands@,
                s0 as int,
                s as int,
            ) + islands@[s as int].bodies@);
        }
        let m: usize = islands[s].bodies.len();
        let mut t: usize = 0;
        while t < m
            invariant
                bodies.wf(),
                n == bodies.count(),
                s < islands@.len(),
                m == islands@[s as int].bodies@.len(),
                t <= m,
                lv@.len() == done + t,
                done + m <= ids.len(),
                forall|q: int| 0 <= q < m ==> #[trigger] islands@[s as int].bodies@[q] == ids[done + q],
                local_of@.len() == n,
                ids.no_duplicates(),
                forall|k: int| 0 <= k < ids.len() ==> #[trigger] ids[k] < n,
                av@.len() == lv@.len(),
                frozen@.len() == lv@.len(),
                forall|k: int|
                    0 <= k < lv@.len() ==> #[trigger] lv@[k] == entering_linvel(
                        bodies,
                        freeze_dormant,
                        ids[k] as int,
                    ),
                forall|k: int|
                    0 <= k < lv@.len() ==> #[trigger] av@[k] == entering_angvel(
                        bodies,
                        freeze_dormant,
                        ids[k] as int,
                    ),
                forall|k: int|
                    0 <= k < lv@.len() ==> #[trigger] frozen@[k] == is_frozen(
                        bodies,
                        freeze_dormant,
                        ids[k] as int,
                    ),
                forall|k: int| 0 <= k < lv@.len() ==> local_of@[#[trigger] ids[k] as int] == k,
                forall|i: int|
                    0 <= i < n && !ids.contains(i as u32) ==> #[trigger] local_of@[i] == old(local_of)@[i],
            decreases m - t,
        {
            let bi: u32 = islands[s].bodies[t];
            let i: usize = bi as usize;
            proof {
                assert(ids[done + t] == bi);
                lemma_count_bounded(ids, n as int);
                assert(ids.contains(bi));
            }
            local_of.set(i, lv.len() as u32);
            if freeze_dormant && !bodies.awake[i] {
                lv.push(Vec3::zero());
                av.push(Vec3::zero());
                frozen.push(true);
            } else {
                lv.push(bodies.linvel[i]);
                av.push(bodies.angvel[i]);
                frozen.push(false);
            }
            t += 1;
        }
        s += 1;
        assert(members(islands@, s0 as int, s as int) =~= ids.take(lv@.len() as int));
    }
    assert(lv@.len() == ids.len());
    assert(lv@ =~= ids.map_values(|i: u32| entering_linvel(bodies, freeze_dormant, i as int)));
    assert(av@ =~= ids.map_values(|i: u32| entering_angvel(bodies, freeze_dormant, i as int)));
    assert(frozen@ =~= ids.map_values(|i: u32| is_frozen(bodies, freeze_dormant, i as int)));
    GroupCopy { lv, av, frozen }
}

/// A list without duplicates of numbers below `n` has at most `n` entries.
proof fn lemma_count_bounded(ids: Seq<u32>, n: int)
    requires
        ids.no_duplicates(),
        forall|k: int| 0 <= k < ids.len() ==> #[trigger] ids[k] < n,
        n >= 0,
    ensures
        ids.len() <= n,
{
    let wide = ids.map_values(|i: u32| i as int);
    assert(wide.no_duplicates());
    wide.unique_seq_to_set();
    let range = vstd::set_lib::set_int_range(0, n);
    vstd::set_lib::lemma_int_range(0, n);
    assert(wide.to_set().subset_of(range)) by {
        assert forall|x: int| wide.to_set().contains(x) implies range.contains(x) by {
            let k = choose|k: int| 0 <= k < wide.len() && wide[k] == x;
            assert(ids[k] < n);
        }
    }
    vstd::set_lib::lemma_len_subset(wide.to_set(), range);
}

/// Splits the islands into groups and copies the velocities of their bodies.
/// Bodies outside the islands get no place.
pub fn gather_groups(
    bodies: &BodySet,
    islands: &[Island],
    count: usize,
    freeze_dormant: bool,
) -> (r: (Groups, GroupBufs))
    requires
        bodies.wf(),
        count >= 1,
        count * islands@.len() <= usize::MAX,
        manifold_total(islands@, 0, islands@.len() as int) <= u32::MAX,
        listed_once(islands@, bodies.count() as int),
    ensures
        r.0.splits(islands@, count as int),
        r.1.sized(count as int),
        forall|g: int|
            #![trigger group_members(islands@, count as int, g)]
            0 <= g < count ==> r.1.holds(
                bodies,
                freeze_dormant,
                g,
                group_members(islands@, count as int, g),
            ),
        r.1.local_of@.len() == bodies.count(),
        r.1.places(islands@, count as int),
        forall|i: int|
            0 <= i < bodies.count() && !members(islands@, 0, islands@.len() as int).contains(
                i as u32,
            ) ==> #[trigger] r.1.local_of@[i] == NO_LOCAL,
{
    let n: usize = bodies.len();
    let groups = split_groups(islands, count);
    let mut local_of: Vec<u32> = Vec::new();
    let mut i: usize = 0;
    while i < n
        invariant
            i <= n,
            local_of@.len() == i,
            forall|j: int| 0 <= j < i ==> local_of@[j] == NO_LOCAL,
        decreases n - i,
    {
        local_of.push(NO_LOCAL);
        i += 1;
    }
    let mut bufs = GroupBufs { lv: Vec::new(), av: Vec::new(), frozen: Vec::new(), local_of };
    let mut g: usize = 0;
    while g < count
        invariant
            bodies.wf(),
            n == bodies.count(),
            g <= count,
            count >= 1,
            listed_once(islands@, n as int),
            groups.splits(islands@, count as int),
            bufs.sized(g as int),
            forall|h: int|
                #![trigger group_members(islands@, count as int, h)]
                0 <= h < g ==> bufs.holds(
                    bodies,
                    freeze_dormant,
                    h,
                    group_members(islands@, count as int, h),
                ),
            bufs.local_of@.len() == n,
            forall|h: int, k: int|
                0 <= h < g && 0 <= k < group_members(islands@, count as int, h).len()
                    ==> bufs.local_of@[#[trigger] group_members(islands@, count as int, h)[k] as int]
                    == k,
            forall|i: int|
                0 <= i < n && !members(islands@, 0, islands@.len() as int).contains(i as u32)
                    ==> #[trigger] bufs.local_of@[i] == NO_LOCAL,
        decreases count - g,
    {
        let ghost before = bufs;
        let ghost ids = group_members(islands@, count as int, g as int);
        let (s0, e0) = groups.ranges[g];
        proof {
            groups_tile_the_islands(islands@.len() as int, count as int, g as int);
            lemma_group_listed_once(islands@, n as int, count as int, g as int);
        }
        let copy = gather_group(bodies, islands, s0, e0, freeze_dormant, &mut bufs.local_of);
        bufs.lv.push(copy.lv);
        bufs.av.push(copy.av);
        bufs.frozen.push(copy.frozen);
        proof {
            assert forall|h: int|
                #![trigger group_members(islands@, count as int, h)]
                0 <= h < g + 1 implies bufs.holds(
                bodies,
                freeze_dormant,
                h,
                group_members(islands@, count as int, h),
            ) by {
                if h < g {
                    assert(before.holds(
                        bodies,
                        freeze_dormant,
                        h,
                        group_members(islands@, count as int, h),
                    ));
                }
            }
            assert forall|h: int, k: int|
                0 <= h < g + 1 && 0 <= k < group_members(
                    islands@,
                    count as int,
                    h,
                ).len() implies bufs.local_of@[#[trigger] group_members(
                islands@,
                count as int,
                h,
            )[k] as int] == k by {
                let b = group_members(islands@, count as int, h)[k];
                if h < g {
                    groups_have_disjoint_bodies(
                        islands@,
                        n as int,
                        count as int,
                        h,
                        h,
                        k,
                        k,
                    );
                    if ids.contains(b) {
                        let q = choose|q: int| 0 <= q < ids.len() && ids[q] == b;
                        groups_have_disjoint_bodies(
                            islands@,
                            n as int,
                            count as int,
                            h,
                            g as int,
                            k,
                            q,
                        );
                    }
                    assert(bufs.local_of@[b as int] == before.local_of@[b as int]);
                } else {
                    assert(ids[k] == b);
                }
            }
            assert forall|i: int|
                0 <= i < n && !members(islands@, 0, islands@.len() as int).contains(
                    i as u32,
                ) implies #[trigger] bufs.local_of@[i] == NO_LOCAL by {
                if ids.contains(i as u32) {
                    let q = choose|q: int| 0 <= q < ids.len() && ids[q] == i as u32;
                    lemma_group_is_run(islands@, count as int, g as int);
                    let x = members(
                        islands@,
                        0,
                        group_start(islands@.len() as int, count as int, g as int),
                    ).len();
                    assert(members(islands@, 0, islands@.len() as int)[x + q] == i as u32);
                }
                assert(before.local_of@[i] == NO_LOCAL);
            }
        }
        g += 1;
    }
    (groups, bufs)
}

/// One velocity list of the right length for every group.
pub open spec fn lists_fit(lists: Seq<Vec<Vec3>>, islands: Seq<Island>, count: int) -> bool {
    lists.len() == count && forall|g: int|
        0 <= g < count ==> (#[trigger] lists[g])@.len() == group_members(islands, count, g).len()
}

/// The velocities `after` are those in the lists for the bodies of the groups,
/// and those of `before` for all others.
pub open spec fn scattered(
    before: Seq<Vec3>,
    after: Seq<Vec3>,
    lists: Seq<Vec<Vec3>>,
    islands: Seq<Island>,
    count: int,
) -> bool {
    &&& after.len() == before.len()
    &&& forall|g: int, k: int|
        0 <= g < count && 0 <= k < group_members(islands, count, g).len()
            ==> after[#[trigger] group_members(islands, count, g)[k] as int] == lists[g]@[k]
    &&& forall|i: int|
        0 <= i < before.len() && !members(islands, 0, islands.len() as int).contains(i as u32)
            ==> #[trigger] after[i] == before[i]
}

/// Writes one group's list back to the bodies it was copied from.
fn scatter_list(target: &mut Vec<Vec3>, islands: &[Island], s0: usize, e0: usize, list: &Vec<Vec3>)
    requires
        old(target)@.len() <= u32::MAX,
        s0 <= e0 <= islands@.len(),
        list@.len() == members(islands@, s0 as int, e0 as int).len(),
        members(islands@, s0 as int, e0 as int).no_duplicates(),
        forall|k: int|
            0 <= k < members(islands@, s0 as int, e0 as int).len() ==> #[trigger] members(
                islands@,
                s0 as int,
                e0 as int,
            )[k] < old(target)@.len(),
    ensures
        final(target)@.len() == old(target)@.len(),
        forall|k: int|
            0 <= k < members(islands@, s0 as int, e0 as int).len()
                ==> final(target)@[#[trigger] members(islands@, s0 as int, e0 as int)[k] as int]
                == list@[k],
        forall|i: int|
            0 <= i < old(target)@.len() && !members(islands@, s0 as int, e0 as int).contains(
                i as u32,
            ) ==> #[trigger] final(target)@[i] == old(target)@[i],
{
    let ghost ids = members(islands@, s0 as int, e0 as int);
    let ghost n = target@.len();
    let total: usize = list.len();
    let mut k: usize = 0;
    let mut s: usize = s0;
    assert(members(islands@, s0 as int, s0 as int) =~= ids.take(0));
    while s < e0
        invariant
            s0 <= s <= e0 <= islands@.len(),
            ids == members(islands@, s0 as int, e0 as int),
            list@.len() == ids.len(),
                total == ids.len(),
            ids.no_duplicates(),
            n == target@.len(),
            n == old(target)@.len(),
            forall|q: int| 0 <= q < ids.len() ==> #[trigger] ids[q] < n,
            k <= ids.len(),
            members(islands@, s0 as int, s as int) == ids.take(k as int),
            forall|q: int| 0 <= q < k ==> target@[#[trigger] ids[q] as int] == list@[q],
            forall|i: int|
                0 <= i < n && !ids.contains(i as u32) ==> #[trigger] target@[i] == old(target)@[i],
        decreases e0 - s,
    {
        let ghost done = k as int;
        proof {
            lemma_members_split(islands@, s0 as int, (s + 1) as int, e0 as int);
            assert(members(islands@, s0 as int, (s + 1) as int) == members(
                islands@,
                s0 as int,
                s as int,
            ) + islands@[s as int].bodies@);
        }
        let m: usize = islands[s].bodies.len();
        let mut t: usize = 0;
        while t < m
            invariant
                s < islands@.len(),
                m == islands@[s as int].bodies@.len(),
                t <= m,
                k == done + t,
                done + m <= ids.len(),
                list@.len() == ids.len(),
                total == ids.len(),
                forall|q: int|
                    0 <= q < m ==> #[trigger] islands@[s as int].bodies@[q] == ids[done + q],
                ids.no_duplicates(),
                n == target@.len(),
                n == old(target)@.len(),
                forall|q: int| 0 <= q < ids.len() ==> #[trigger] ids[q] < n,
                forall|q: int| 0 <= q < k ==> target@[#[trigger] ids[q] as int] == list@[q],
                forall|i: int|
                    0 <= i < n && !ids.contains(i as u32) ==> #[trigger] target@[i] == old(
                        target)@[i],
            decreases m - t,
        {
            let bi: u32 = islands[s].bodies[t];
            proof {
                assert(ids[done + t] == bi);
                assert(ids.contains(bi));
            }
            target.set(bi as usize, list[k]);
            k += 1;
            t += 1;
        }
        s += 1;
        assert(members(islands@, s0 as int, s as int) =~= ids.take(k as int));
    }
    assert(k == ids.len());
}

/// Writing the list of group `g` extends what is scattered from the first `g`
/// groups to the first `g + 1`.
proof fn lemma_scatter_step(
    before: Seq<Vec3>,
    mid: Seq<Vec3>,
    after: Seq<Vec3>,
    lists: Seq<Vec<Vec3>>,
    islands: Seq<Island>,
    count: int,
    g: int,
)
    requires
        listed_once(islands, before.len() as int),
        before.len() <= u32::MAX,
        count >= 1,
        0 <= g < count,
        mid.len() == before.len(),
        after.len() == before.len(),
        forall|h: int, k: int|
            0 <= h < g && 0 <= k < group_members(islands, count, h).len()
                ==> mid[#[trigger] group_members(islands, count, h)[k] as int] == lists[h]@[k],
        forall|i: int|
            0 <= i < before.len() && !members(islands, 0, islands.len() as int).contains(i as u32)
                ==> #[trigger] mid[i] == before[i],
        forall|k: int|
            0 <= k < group_members(islands, count, g).len() ==> after[#[trigger] group_members(
                islands,
                count,
                g,
            )[k] as int] == lists[g]@[k],
        forall|i: int|
            0 <= i < before.len() && !group_members(islands, count, g).contains(i as u32)
                ==> #[trigger] after[i] == mid[i],
    ensures
        forall|h: int, k: int|
            0 <= h < g + 1 && 0 <= k < group_members(islands, count, h).len()
                ==> after[#[trigger] group_members(islands, count, h)[k] as int] == lists[h]@[k],
        forall|i: int|
            0 <= i < before.len() && !members(islands, 0, islands.len() as int).contains(i as u32)
                ==> #[trigger] after[i] == before[i],
{
    let ids = group_members(islands, count, g);
    let n = before.len() as int;
    assert forall|h: int, k: int|
        0 <= h < g + 1 && 0 <= k < group_members(
            islands,
            count,
            h,
        ).len() implies after[#[trigger] group_members(islands, count, h)[k] as int]
        == lists[h]@[k] by {
        let b = group_members(islands, count, h)[k];
        if h < g {
            groups_have_disjoint_bodies(islands, n, count, h, h, k, k);
            if ids.contains(b) {
                let q = choose|q: int| 0 <= q < ids.len() && ids[q] == b;
                groups_have_disjoint_bodies(islands, n, count, h, g, k, q);
            }
            assert(after[b as int] == mid[b as int]);
        } else {
            assert(ids[k] == b);
        }
    }
    assert forall|i: int|
        0 <= i < before.len() && !members(islands, 0, islands.len() as int).contains(
            i as u32,
        ) implies #[trigger] after[i] == before[i] by {
        if ids.contains(i as u32) {
            let q = choose|q: int| 0 <= q < ids.len() && ids[q] == i as u32;
            lemma_group_is_run(islands, count, g);
            let x = members(islands, 0, group_start(islands.len() as int, count, g)).len();
            assert(members(islands, 0, islands.len() as int)[x + q] == i as u32);
        }
        assert(mid[i] == before[i]);
    }
}

/// Writes the working copies back to the bodies. Bodies outside the islands keep
/// their velocities, and nothing but velocities changes.
pub fn scatter_groups(
    bodies: &mut BodySet,
    islands: &[Island],
    groups: &Groups,
    bufs: &GroupBufs,
)
    requires
        old(bodies).wf(),
        listed_once(islands@, old(bodies).count() as int),
        groups.splits(islands@, groups.ranges@.len() as int),
        lists_fit(bufs.lv@, islands@, groups.ranges@.len() as int),
        lists_fit(bufs.av@, islands@, groups.ranges@.len() as int),
    ensures
        final(bodies).wf(),
        scattered(
            old(bodies).linvel@,
            final(bodies).linvel@,
            bufs.lv@,
            islands@,
            groups.ranges@.len() as int,
        ),
        scattered(
            old(bodies).angvel@,
            final(bodies).angvel@,
            bufs.av@,
            islands@,
            groups.ranges@.len() as int,
        ),
        final(bodies).dynamic == old(bodies).dynamic,
        final(bodies).awake == old(bodies).awake,
        final(bodies).position == old(bodies).position,
        final(bodies).rotation == old(bodies).rotation,
        final(bodies).sleep_timer == old(bodies).sleep_timer,
{
    let ghost n = bodies.count();
    let ghost lv0 = bodies.linvel@;
    let ghost av0 = bodies.angvel@;
    let count: usize = groups.ranges.len();
    let mut g: usize = 0;
    while g < count
        invariant
            n == bodies.count(),
            n == old(bodies).count(),
            bodies.wf(),
            g <= count,
            count == groups.ranges@.len(),
            lv0 == old(bodies).linvel@,
            av0 == old(bodies).angvel@,
            lv0.len() == n,
            av0.len() == n,
            listed_once(islands@, n as int),
            groups.splits(islands@, count as int),
            lists_fit(bufs.lv@, islands@, count as int),
            lists_fit(bufs.av@, islands@, count as int),
            forall|h: int, k: int|
                0 <= h < g && 0 <= k < group_members(islands@, count as int, h).len()
                    ==> bodies.linvel@[#[trigger] group_members(
                    islands@,
                    count as int,
                    h,
                )[k] as int] == bufs.lv@[h]@[k],
            forall|h: int, k: int|
                0 <= h < g && 0 <= k < group_members(islands@, count as int, h).len()
                    ==> bodies.angvel@[#[trigger] group_members(
                    islands@,
                    count as int,
                    h,
                )[k] as int] == bufs.av@[h]@[k],
            forall|i: int|
                0 <= i < n && !members(islands@, 0, islands@.len() as int).contains(i as u32)
                    ==> #[trigger] bodies.linvel@[i] == lv0[i],
            forall|i: int|
                0 <= i < n && !members(islands@, 0, islands@.len() as int).contains(i as u32)
                    ==> #[trigger] bodies.angvel@[i] == av0[i],
            bodies.dynamic == old(bodies).dynamic,
            bodies.awake == old(bodies).awake,
            bodies.position == old(bodies).position,
            bodies.rotation == old(bodies).rotation,
            bodies.sleep_timer == old(bodies).sleep_timer,
        decreases count - g,
    {
        let ghost mid_lv = bodies.linvel@;
        let ghost mid_av = bodies.angvel@;
        let (s0, e0) = groups.ranges[g];
        proof {
            groups_tile_the_islands(islands@.len() as int, count as int, g as int);
            lemma_group_listed_once(islands@, n as int, count as int, g as int);
        }
        scatter_list(&mut bodies.linvel, islands, s0, e0, &bufs.lv[g]);
        scatter_list(&mut bodies.angvel, islands, s0, e0, &bufs.av[g]);
        proof {
            lemma_scatter_step(
                lv0,
                mid_lv,
                bodies.linvel@,
                bufs.lv@,
                islands@,
                count as int,
                g as int,
            );
            lemma_scatter_step(
                av0,
                mid_av,
                bodies.angvel@,
                bufs.av@,
                islands@,
                count as int,
                g as int,
            );
        }
        g += 1;
    }
}

/// Copying a value of every body into the lists of the groups and writing the
/// lists back restores all values.
pub proof fn scatter_undoes_gather(
    values: Seq<Vec3>,
    after: Seq<Vec3>,
    lists: Seq<Vec<Vec3>>,
    islands: Seq<Island>,
    count: int,
)
    requires
        values.len() <= u32::MAX,
        count >= 1,
        listed_once(islands, values.len() as int),
        forall|g: int|
            0 <= g < count ==> (#[trigger] lists[g])@ == group_members(
                islands,
                count,
                g,
            ).map_values(|i: u32| values[i as int]),
        scattered(values, after, lists, islands, count),
    ensures
        after == values,
{
    let m = islands.len() as int;
    let all = members(islands, 0, m);
    assert forall|i: int| 0 <= i < after.len() implies #[trigger] after[i] == values[i] by {
        if all.contains(i as u32) {
            let q = choose|q: int| 0 <= q < all.len() && all[q] == i as u32;
            lemma_position_has_group(islands, count, q);
            let (g, k) = choose|g: int, k: int|
                0 <= g < count && 0 <= k < group_members(islands, count, g).len()
                    && #[trigger] group_members(islands, count, g)[k] == all[q];
            assert(lists[g]@[k] == values[i]);
            assert(after[group_members(islands, count, g)[k] as int] == lists[g]@[k]);
        }
    }
    assert(after =~= values);
}

/// Every listed body is in the list of some group.
pub proof fn lemma_position_has_group(islands: Seq<Island>, count: int, q: int)
    requires
        count >= 1,
        0 <= q < members(islands, 0, islands.len() as int).len(),
    ensures
        exists|g: int, k: int|
            0 <= g < count && 0 <= k < group_members(islands, count, g).len()
                && #[trigger] group_members(islands, count, g)[k] == members(
                islands,
                0,
                islands.len() as int,
            )[q],
{
    let m = islands.len() as int;
    groups_tile_the_islands(m, count, 0);
    assert(members(islands, 0, group_start(m, count, 0)) =~= Seq::<u32>::empty());
    lemma_position_has_group_below(islands, count, q, count);
}

proof fn lemma_position_has_group_below(islands: Seq<Island>, count: int, q: int, top: int)
    requires
        count >= 1,
        0 <= top <= count,
        0 <= q < members(
            islands,
            0,
            group_start(islands.len() as int, count, top),
        ).len(),
    ensures
        exists|g: int, k: int|
            0 <= g < count && 0 <= k < group_members(islands, count, g).len()
                && #[trigger] group_members(islands, count, g)[k] == members(
                islands,
                0,
                islands.len() as int,
            )[q],
    decreases top,
{
    let m = islands.len() as int;
    groups_tile_the_islands(m, count, 0);
    if top == 0 {
        assert(members(islands, 0, 0).len() == 0);
    } else {
        let g = top - 1;
        groups_tile_the_islands(m, count, g);
        let s0 = group_start(m, count, g);
        let e0 = group_start(m, count, top);
        lemma_members_split(islands, 0, s0, e0);
        lemma_members_split(islands, 0, e0, m);
        let x = members(islands, 0, s0).len();
        if q < x {
            lemma_position_has_group_below(islands, count, q, g);
        } else {
            assert(group_members(islands, count, g)[q - x] == members(islands, 0, m)[q]);
        }
    }
}

/// The islands of a scene list no body twice, and every body they list exists.
pub proof fn islands_list_bodies_once(
    islands: Seq<Island>,
    bodies: &BodySet,
    roots: Seq<int>,
    ms: Seq<Manifold>,
)
    requires
        islands_of(islands, bodies, roots, ms),
    ensures
        listed_once(islands, bodies.count() as int),
{
    lemma_listed_below(islands, bodies, roots, ms, islands.len() as int);
}

proof fn lemma_listed_below(
    islands: Seq<Island>,
    bodies: &BodySet,
    roots: Seq<int>,
    ms: Seq<Manifold>,
    hi: int,
)
    requires
        islands_of(islands, bodies, roots, ms),
        0 <= hi <= islands.len(),
    ensures
        members(islands, 0, hi).no_duplicates(),
        forall|k: int|
            0 <= k < members(islands, 0, hi).len() ==> (#[trigger] members(islands, 0, hi)[k])
                < bodies.count() && exists|s: int|
                0 <= s < hi && in_island(islands, s, members(islands, 0, hi)[k] as int),
    decreases hi,
{
    if hi > 0 {
        let s = hi - 1;
        lemma_listed_below(islands, bodies, roots, ms, s);
        islands_are_disjoint(islands, bodies, roots, ms);
        let x = members(islands, 0, s);
        let y = islands[s].bodies@;
        let z = members(islands, 0, hi);
        assert(y.no_duplicates());
        assert(z == x + y);
        assert forall|t: int| 0 <= t < y.len() implies #[trigger] y[t] < bodies.count() && in_island(
            islands,
            s,
            y[t] as int,
        ) by {
            assert(ints_u32(y)[t] == y[t]);
            lemma_in_island(islands, bodies, roots, ms, s, y[t] as int);
        }
        assert forall|k: int| 0 <= k < z.len() implies (#[trigger] z[k]) < bodies.count()
            && exists|u: int| 0 <= u < hi && in_island(islands, u, z[k] as int) by {
            if k < x.len() {
                assert(z[k] == x[k]);
                let u = choose|u: int| 0 <= u < s && in_island(islands, u, x[k] as int);
                assert(in_island(islands, u, z[k] as int));
            } else {
                assert(z[k] == y[k - x.len()]);
                assert(in_island(islands, s, z[k] as int));
            }
        }
        assert forall|j: int, k: int| 0 <= j < z.len() && 0 <= k < z.len() && j != k implies z[j]
            != z[k] by {
            if j < x.len() && k >= x.len() {
                let u = choose|u: int| 0 <= u < s && in_island(islands, u, x[j] as int);
                assert(in_island(islands, s, y[k - x.len()] as int));
            } else if k < x.len() && j >= x.len() {
                let u = choose|u: int| 0 <= u < s && in_island(islands, u, x[k] as int);
                assert(in_island(islands, s, y[j - x.len()] as int));
            }
        }
    }
}

/// The islands of a scene hold no more manifolds than the scene has.
pub proof fn islands_hold_each_manifold_once(
    islands: Seq<Island>,
    bodies: &BodySet,
    roots: Seq<int>,
    ms: Seq<Manifold>,
)
    requires
        islands_of(islands, bodies, roots, ms),
    ensures
        manifold_total(islands, 0, islands.len() as int) <= ms.len(),
{
    let taken = lemma_taken_manifolds(islands, bodies, roots, ms, islands.len() as int);
    let range = vstd::set_lib::set_int_range(0, ms.len() as int);
    vstd::set_lib::lemma_int_range(0, ms.len() as int);
    assert(taken.subset_of(range)) by {
        assert forall|k: int| taken.contains(k) implies range.contains(k) by {
            let s = choose|s: int|
                0 <= s < islands.len() && manifold_in_island(islands, s, k);
            let heads = leaders(bodies, roots, bodies.count());
            assert(island_of(&islands[s], bodies, roots, ms, roots[heads[s]]));
            lemma_indices_where_contains(
                manifold_with(bodies, roots, ms, roots[heads[s]]),
                ms.len(),
                k,
            );
        }
    }
    vstd::set_lib::lemma_len_subset(taken, range);
}

/// The manifolds of the islands below `hi`, as a set of the right size.
proof fn lemma_taken_manifolds(
    islands: Seq<Island>,
    bodies: &BodySet,
    roots: Seq<int>,
    ms: Seq<Manifold>,
    hi: int,
) -> (taken: Set<int>)
    requires
        islands_of(islands, bodies, roots, ms),
        0 <= hi <= islands.len(),
    ensures
        taken.finite(),
        taken.len() == manifold_total(islands, 0, hi),
        forall|k: int|
            #[trigger] taken.contains(k) ==> exists|s: int|
                0 <= s < hi && manifold_in_island(islands, s, k),
    decreases hi,
{
    if hi == 0 {
        Set::empty()
    } else {
        let s = hi - 1;
        let below = lemma_taken_manifolds(islands, bodies, roots, ms, s);
        let heads = leaders(bodies, roots, bodies.count());
        let list = ints_usize(islands[s].manifs@);
        assert(island_of(&islands[s], bodies, roots, ms, roots[heads[s]]));
        lemma_indices_where(manifold_with(bodies, roots, ms, roots[heads[s]]), ms.len());
        assert(list.no_duplicates());
        list.unique_seq_to_set();
        let here = list.to_set();
        assert(below.disjoint(here)) by {
            assert forall|k: int| !(below.contains(k) && here.contains(k)) by {
                if below.contains(k) && here.contains(k) {
                    let u = choose|u: int| 0 <= u < s && manifold_in_island(islands, u, k);
                    assert(manifold_in_island(islands, s, k));
                    lemma_manifold_in_one_island(islands, bodies, roots, ms, u, s, k);
                }
            }
        }
        vstd::set_lib::lemma_set_disjoint_lens(below, here);
        let all = below + here;
        assert forall|k: int| #[trigger] all.contains(k) implies exists|u: int|
            0 <= u < hi && manifold_in_island(islands, u, k) by {
            if below.contains(k) {
                let u = choose|u: int| 0 <= u < s && manifold_in_island(islands, u, k);
                assert(manifold_in_island(islands, u, k));
            } else {
                assert(manifold_in_island(islands, s, k));
            }
        }
        all
    }
}

} // verus!
