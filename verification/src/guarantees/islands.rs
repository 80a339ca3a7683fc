//! What building islands and spreading them over groups promises.

use crate::body::BodySet;
use crate::contact::Manifold;
use crate::group::{
    gather_groups, group_count, group_members, group_start, groups_tile_the_islands, local_slot,
    manifold_total, members, scatter_groups, split_groups, GroupBufs, Groups,
};
use crate::island::{
    active_with, build_union_find, chain, connected, dormant_with, fill_island_buckets, in_island,
    island_of, islands_are_disjoint, islands_hold_what_is_connected_to_active, leaders, leads,
    lemma_connected_self, lemma_in_island, manifold_in_island, manifold_with, manifolds_in, roots_of,
    touch, Island,
};
use crate::scalar::{Scalar, Vec3};
use crate::select::{indices_where, ints_u32, ints_usize, lemma_indices_where_contains};
use crate::union_find::{find_small_root, forest, root_of, union_small_root};
use vstd::prelude::*;

verus! {

/// Island `s` lists body `i`.
pub open spec fn lists(islands: Seq<Island>, s: int, i: int) -> bool {
    0 <= s < islands.len() && exists|k: int|
        0 <= k < islands[s].bodies@.len() && #[trigger] islands[s].bodies@[k] == i
}

/// The label is the same on both sides of every contact of two dynamic bodies.
pub open spec fn follows_contacts(
    dynamic: Seq<bool>,
    ms: Seq<Manifold>,
    label: spec_fn(int) -> int,
) -> bool {
    forall|k: int|
        #![trigger ms[k]]
        0 <= k < ms.len() && dynamic[ms[k].a as int] && dynamic[ms[k].b as int] ==> label(
            ms[k].a as int,
        ) == label(ms[k].b as int)
}

proof fn lemma_label(
    dynamic: Seq<bool>,
    ms: Seq<Manifold>,
    label: spec_fn(int) -> int,
    p: Seq<int>,
)
    requires
        chain(dynamic, ms, p),
        follows_contacts(dynamic, ms, label),
    ensures
        label(p[0]) == label(p.last()),
    decreases p.len(),
{
    if p.len() > 1 {
        let q = p.drop_last();
        assert forall|t: int| 0 <= t < q.len() - 1 implies touch(
            dynamic,
            ms,
            #[trigger] q[t],
            q[t + 1],
        ) by {
            assert(touch(dynamic, ms, p[t], p[t + 1]));
        }
        lemma_label(dynamic, ms, label, q);
        assert(touch(dynamic, ms, p[p.len() - 2], p[p.len() - 2 + 1]));
    }
}

proof fn lemma_lists(islands: Seq<Island>, s: int, i: int)
    requires
        0 <= s < islands.len(),
    ensures
        lists(islands, s, i) <==> in_island(islands, s, i),
{
    let ids = ints_u32(islands[s].bodies@);
    if lists(islands, s, i) {
        let k = choose|k: int|
            0 <= k < islands[s].bodies@.len() && #[trigger] islands[s].bodies@[k] == i;
        assert(ids[k] == i);
    }
    if in_island(islands, s, i) {
        let k = choose|k: int| 0 <= k < ids.len() && ids[k] == i;
        assert(islands[s].bodies@[k] == i);
    }
}

/// Islands are what contacts tie together: every dynamic and awake body is in one, none
/// that is not dynamic is in any, and no body is listed twice; the two dynamic sides of
/// a contact are in the same island or in none; and an island ties no more together
/// than contacts do, since whatever is the same across contacts is the same within it.
/// Every island has a body that is awake.
pub proof fn islands_are_what_contacts_tie_together(
    bodies: &BodySet,
    manifolds: &[Manifold],
    built: Vec<u32>,
    parent: &mut Vec<u32>,
    islands: Vec<Island>,
    s: int,
    i: int,
    j: int,
    k: int,
    label: spec_fn(int) -> int,
)
    requires
        call_ensures(build_union_find, (bodies, manifolds), built),
        *old(parent) == built,
        call_ensures(fill_island_buckets, (bodies, manifolds, parent), islands),
        bodies.wf(),
        manifolds_in(manifolds@, bodies.count() as int),
        0 <= i < bodies.count(),
    ensures
        bodies.dynamic@[i] && bodies.awake@[i] ==> exists|t: int| lists(islands@, t, i),
        !bodies.dynamic@[i] ==> !lists(islands@, s, i),
        lists(islands@, s, i) && lists(islands@, j, i) ==> s == j,
        0 <= s < islands@.len() ==> islands@[s].bodies@.no_duplicates(),
        0 <= k < manifolds@.len() && bodies.dynamic@[manifolds@[k].a as int]
            && bodies.dynamic@[manifolds@[k].b as int] ==> (lists(
            islands@,
            s,
            manifolds@[k].a as int,
        ) <==> lists(islands@, s, manifolds@[k].b as int)),
        lists(islands@, s, i) && lists(islands@, s, j) && follows_contacts(
            bodies.dynamic@,
            manifolds@,
            label,
        ) ==> label(i) == label(j),
        0 <= s < islands@.len() ==> exists|q: int|
            0 <= q < islands@[s].bodies@.len() && bodies.awake@[#[trigger] islands@[s].bodies@[q] as int],
{
    lemma_tied(bodies, manifolds@, built@, islands@, s, i, j, k, label);
}

/// What holds of islands that were built from the components of the contacts.
pub proof fn lemma_tied(
    bodies: &BodySet,
    ms: Seq<Manifold>,
    parent: Seq<u32>,
    isl: Seq<Island>,
    s: int,
    i: int,
    j: int,
    k: int,
    label: spec_fn(int) -> int,
)
    requires
        parent.len() == bodies.count(),
        forest(parent),
        crate::island::roots_are_components(parent, bodies.dynamic@, ms),
        crate::island::islands_of(isl, bodies, roots_of(parent), ms),
        bodies.wf(),
        manifolds_in(ms, bodies.count() as int),
        0 <= i < bodies.count(),
    ensures
        bodies.dynamic@[i] && bodies.awake@[i] ==> exists|t: int| lists(isl, t, i),
        !bodies.dynamic@[i] ==> !lists(isl, s, i),
        lists(isl, s, i) && lists(isl, j, i) ==> s == j,
        0 <= s < isl.len() ==> isl[s].bodies@.no_duplicates(),
        0 <= k < ms.len() && bodies.dynamic@[ms[k].a as int] && bodies.dynamic@[ms[k].b as int] ==> (
        lists(isl, s, ms[k].a as int) <==> lists(isl, s, ms[k].b as int)),
        lists(isl, s, i) && lists(isl, s, j) && follows_contacts(bodies.dynamic@, ms, label)
            ==> label(i) == label(j),
        0 <= s < isl.len() ==> exists|q: int|
            0 <= q < isl[s].bodies@.len() && bodies.awake@[#[trigger] isl[s].bodies@[q] as int],
{
    let roots = roots_of(parent);
    let n = bodies.count();
    let heads = leaders(bodies, roots, n);
    crate::select::lemma_indices_where(leads(bodies, roots), n);
    islands_are_disjoint(isl, bodies, roots, ms);
    islands_hold_what_is_connected_to_active(isl, bodies, parent, ms, i);
    if bodies.dynamic@[i] && bodies.awake@[i] {
        lemma_connected_self(bodies.dynamic@, ms, i);
        assert(bodies.active(i));
        let t = choose|t: int| in_island(isl, t, i);
        assert(in_island(isl, t, i));
        lemma_lists(isl, t, i);
    }
    if 0 <= s < isl.len() {
        lemma_lists(isl, s, i);
        lemma_in_island(isl, bodies, roots, ms, s, i);
        if 0 <= j < isl.len() {
            lemma_lists(isl, j, i);
        }
        if 0 <= k < ms.len() && bodies.dynamic@[ms[k].a as int] && bodies.dynamic@[ms[k].b as int] {
            let (a, b) = (ms[k].a as int, ms[k].b as int);
            lemma_lists(isl, s, a);
            lemma_lists(isl, s, b);
            lemma_in_island(isl, bodies, roots, ms, s, a);
            lemma_in_island(isl, bodies, roots, ms, s, b);
            let p = seq![a, b];
            assert(touch(bodies.dynamic@, ms, a, b));
            assert(chain(bodies.dynamic@, ms, p));
            assert(connected(bodies.dynamic@, ms, a, b));
            assert(root_of(parent, a) == root_of(parent, b));
        }
        if lists(isl, s, i) && lists(isl, s, j) && follows_contacts(bodies.dynamic@, ms, label) {
            lemma_lists(isl, s, j);
            lemma_in_island(isl, bodies, roots, ms, s, j);
            assert(root_of(parent, i) == root_of(parent, j));
            assert(connected(bodies.dynamic@, ms, i, j));
            let p = choose|p: Seq<int>| #[trigger]
                chain(bodies.dynamic@, ms, p) && p[0] == i && p.last() == j;
            lemma_label(bodies.dynamic@, ms, label, p);
        }
        let h = heads[s];
        assert(leads(bodies, roots)(h));
        lemma_in_island(isl, bodies, roots, ms, s, h);
        lemma_lists(isl, s, h);
        let q = choose|q: int|
            0 <= q < isl[s].bodies@.len() && #[trigger] isl[s].bodies@[q] == h;
        assert(bodies.awake@[isl[s].bodies@[q] as int]);
    }
}

/// An island lists a contact exactly if it lists its first body, or its second one where
/// the first is not dynamic; each once and in order. It lists the awake bodies before
/// the sleeping ones, each in order.
pub proof fn islands_list_their_contacts(
    bodies: &BodySet,
    manifolds: &[Manifold],
    parent: &mut Vec<u32>,
    islands: Vec<Island>,
    s: int,
    k: int,
    x: int,
    y: int,
)
    requires
        call_ensures(fill_island_buckets, (bodies, manifolds, parent), islands),
        bodies.wf(),
        manifolds_in(manifolds@, bodies.count() as int),
        0 <= s < islands@.len(),
        0 <= k < manifolds@.len(),
    ensures
        (exists|q: int| 0 <= q < islands@[s].manifs@.len() && #[trigger] islands@[s].manifs@[q] == k)
            <==> (if bodies.dynamic@[manifolds@[k].a as int] {
            lists(islands@, s, manifolds@[k].a as int)
        } else {
            lists(islands@, s, manifolds@[k].b as int)
        }),
        0 <= x < y < islands@[s].manifs@.len() ==> islands@[s].manifs@[x] < islands@[s].manifs@[y],
        0 <= x < y < islands@[s].bodies@.len() ==> {
            let (i, j) = (islands@[s].bodies@[x] as int, islands@[s].bodies@[y] as int);
            &&& bodies.awake@[j] ==> bodies.awake@[i]
            &&& bodies.awake@[i] == bodies.awake@[j] ==> i < j
        },
{
    lemma_contacts_listed(bodies, manifolds@, roots_of(old(parent)@), islands@, s, k, x, y);
}

/// What islands list.
pub proof fn lemma_contacts_listed(
    bodies: &BodySet,
    ms: Seq<Manifold>,
    roots: Seq<int>,
    isl: Seq<Island>,
    s: int,
    k: int,
    x: int,
    y: int,
)
    requires
        crate::island::islands_of(isl, bodies, roots, ms),
        bodies.wf(),
        manifolds_in(ms, bodies.count() as int),
        0 <= s < isl.len(),
        0 <= k < ms.len(),
    ensures
        (exists|q: int| 0 <= q < isl[s].manifs@.len() && #[trigger] isl[s].manifs@[q] == k) <==> (
        if bodies.dynamic@[ms[k].a as int] {
            lists(isl, s, ms[k].a as int)
        } else {
            lists(isl, s, ms[k].b as int)
        }),
        0 <= x < y < isl[s].manifs@.len() ==> isl[s].manifs@[x] < isl[s].manifs@[y],
        0 <= x < y < isl[s].bodies@.len() ==> {
            let (i, j) = (isl[s].bodies@[x] as int, isl[s].bodies@[y] as int);
            &&& bodies.awake@[j] ==> bodies.awake@[i]
            &&& bodies.awake@[i] == bodies.awake@[j] ==> i < j
        },
{
    let n = bodies.count();
    let heads = leaders(bodies, roots, n);
    let r = roots[heads[s]];
    assert(island_of(&isl[s], bodies, roots, ms, r));
    let want = manifold_with(bodies, roots, ms, r);
    let list = ints_usize(isl[s].manifs@);
    lemma_indices_where_contains(want, ms.len(), k);
    crate::select::lemma_indices_where(want, ms.len());
    let (a, b) = (ms[k].a as int, ms[k].b as int);
    assert(a < n && b < n);
    lemma_in_island(isl, bodies, roots, ms, s, a);
    lemma_in_island(isl, bodies, roots, ms, s, b);
    lemma_lists(isl, s, a);
    lemma_lists(isl, s, b);
    if exists|q: int| 0 <= q < isl[s].manifs@.len() && #[trigger] isl[s].manifs@[q] == k {
        let q = choose|q: int| 0 <= q < isl[s].manifs@.len() && #[trigger] isl[s].manifs@[q] == k;
        assert(list[q] == k);
    }
    if list.contains(k) {
        let q = choose|q: int| 0 <= q < list.len() && list[q] == k;
        assert(isl[s].manifs@[q] == k);
    }
    if 0 <= x < y < isl[s].manifs@.len() {
        assert(list[x] < list[y]);
    }
    if 0 <= x < y < isl[s].bodies@.len() {
        let ids = ints_u32(isl[s].bodies@);
        let first = indices_where(active_with(bodies, roots, r), n);
        let rest = indices_where(dormant_with(bodies, roots, r), n);
        crate::select::lemma_indices_where(active_with(bodies, roots, r), n);
        crate::select::lemma_indices_where(dormant_with(bodies, roots, r), n);
        assert(ids == first + rest);
        assert(ids.len() == isl[s].bodies@.len());
        let cut = first.len() as int;
        assert(ids[x] == isl[s].bodies@[x] && ids[y] == isl[s].bodies@[y]);
        if x < first.len() {
            assert(ids[x] == first[x]);
            assert(active_with(bodies, roots, r)(first[x]));
        } else {
            assert((first + rest)[x] == rest[x - cut]);
            assert(dormant_with(bodies, roots, r)(rest[x - cut]));
        }
        if y < first.len() {
            assert(ids[y] == first[y]);
            assert(active_with(bodies, roots, r)(first[y]));
        } else {
            assert((first + rest)[y] == rest[y - cut]);
            assert(dormant_with(bodies, roots, r)(rest[y - cut]));
        }
    }
}

/// Finding a representative ends at an entry that is its own parent, no larger than
/// where it started; joining two entries gives them one representative, the smaller of
/// theirs.
pub proof fn joined_entries_share_the_smaller_root(
    parent: &mut Vec<u32>,
    x: u32,
    y: u32,
    a: &mut Vec<u32>,
    b: &mut Vec<u32>,
    rx: u32,
    ry: u32,
    c: &mut Vec<u32>,
    d: &mut Vec<u32>,
    qx: u32,
    qy: u32,
)
    requires
        forest(old(parent)@),
        x < old(parent)@.len(),
        y < old(parent)@.len(),
        call_ensures(union_small_root, (parent, x, y), ()),
        *old(a) == *old(parent),
        *old(b) == *old(parent),
        call_ensures(find_small_root, (a, x), rx),
        call_ensures(find_small_root, (b, y), ry),
        *old(c) == *final(parent),
        *old(d) == *final(parent),
        call_ensures(find_small_root, (c, x), qx),
        call_ensures(find_small_root, (d, y), qy),
    ensures
        old(parent)@[rx as int] == rx,
        rx <= x,
        qx == qy,
        qx == if rx < ry {
            rx
        } else {
            ry
        },
{
    crate::union_find::lemma_root_is_fixed(old(parent)@, x as int);
    assert(root_of(final(parent)@, x as int) == qx);
    assert(root_of(final(parent)@, y as int) == qy);
}

/// One group, unless there are several threads, several thousand contacts and any
/// islands: then as many as threads, but no more than islands.
pub proof fn groups_are_as_many_as_can_work(threads: usize, manifolds: usize, islands: usize, g: usize)
    requires
        call_ensures(group_count, (threads, manifolds, islands), g),
    ensures
        g >= 1,
        threads <= 1 || manifolds < 4096 || islands == 0 ==> g == 1,
        threads > 1 && manifolds >= 4096 && islands > 0 ==> (g == threads || g == islands) && g
            <= threads && g <= islands,
{
}

/// The manifolds of a run of islands.
pub open spec fn contacts_of(islands: Seq<Island>, lo: int, hi: int) -> int {
    islands.subrange(lo, hi).fold_left(0int, |n: int, isl: Island| n + isl.manifs@.len())
}

proof fn lemma_contacts(islands: Seq<Island>, lo: int, hi: int)
    requires
        0 <= lo <= hi <= islands.len(),
    ensures
        manifold_total(islands, lo, hi) == contacts_of(islands, lo, hi),
    decreases hi - lo,
{
    if lo < hi {
        lemma_contacts(islands, lo, hi - 1);
        let run = islands.subrange(lo, hi);
        assert(run.drop_last() =~= islands.subrange(lo, hi - 1));
        assert(run.last() == islands[hi - 1]);
    }
}

/// The groups take the islands in runs without gap or overlap, in order, of nearly equal
/// length, and each knows how many contacts it has.
pub proof fn groups_share_the_islands(islands: &[Island], count: usize, r: Groups, g: int)
    requires
        call_ensures(split_groups, (islands, count), r),
        count >= 1,
        0 <= g < count,
    ensures
        r.ranges@.len() == count,
        r.ranges@[0].0 == 0,
        r.ranges@[count - 1].1 == islands@.len(),
        r.ranges@[g].0 <= r.ranges@[g].1 <= islands@.len(),
        g + 1 < count ==> r.ranges@[g].1 == r.ranges@[g + 1].0,
        islands@.len() / (count as nat) <= r.ranges@[g].1 - r.ranges@[g].0 <= islands@.len() / (
        count as nat) + 1,
        r.manifolds@.len() == count,
        r.manifolds@[g] == contacts_of(islands@, r.ranges@[g].0 as int, r.ranges@[g].1 as int),
{
    let n = islands@.len() as int;
    let c = count as int;
    groups_tile_the_islands(n, c, g);
    assert(r.ranges@[g].0 == group_start(n, c, g));
    assert(r.ranges@[0].0 == group_start(n, c, 0));
    assert(r.ranges@[c - 1].1 == group_start(n, c, c - 1 + 1));
    if g + 1 < count {
        assert(r.ranges@[g + 1].0 == group_start(n, c, g + 1));
    }
    lemma_contacts(islands@, group_start(n, c, g), group_start(n, c, g + 1));
    assert(r.manifolds@[g] == manifold_total(
        islands@,
        group_start(n, c, g),
        group_start(n, c, g + 1),
    ));
    assert((g + 1) * n == g * n + n) by (nonlinear_arith);
    lemma_shares(g * n, n, c);
}

proof fn lemma_shares(m: int, n: int, c: int)
    requires
        n >= 0,
        m >= 0,
        c >= 1,
    ensures
        n / c <= (m + n) / c - m / c <= n / c + 1,
{
    vstd::arithmetic::div_mod::lemma_fundamental_div_mod(m, c);
    vstd::arithmetic::div_mod::lemma_fundamental_div_mod(n, c);
    vstd::arithmetic::div_mod::lemma_fundamental_div_mod(m + n, c);
    vstd::arithmetic::div_mod::lemma_mod_bound(m, c);
    vstd::arithmetic::div_mod::lemma_mod_bound(n, c);
    vstd::arithmetic::div_mod::lemma_mod_bound(m + n, c);
    let (q, a, b) = ((m + n) / c, m / c, n / c);
    assert(b <= q - a <= b + 1) by (nonlinear_arith)
        requires
            m == c * a + m % c,
            n == c * b + n % c,
            m + n == c * q + (m + n) % c,
            0 <= m % c < c,
            0 <= n % c < c,
            0 <= (m + n) % c < c,
            c >= 1,
    ;
}

/// A body in an island enters the lists of its group with its speeds, or with none if it
/// sleeps and sleeping bodies are frozen; what the lists hold is written back to the
/// body. Left as they were, the lists give every body back the speeds it entered with;
/// a body in no island keeps its own.
pub proof fn bodies_enter_and_leave_with_their_speeds(
    bodies: &mut BodySet,
    islands: &[Island],
    count: usize,
    freeze_dormant: bool,
    r: (Groups, GroupBufs),
    i: int,
)
    requires
        call_ensures(gather_groups, (&*old(bodies), islands, count, freeze_dormant), r),
        call_ensures(scatter_groups, (bodies, islands, &r.0, &r.1), ()),
        count >= 1,
        old(bodies).wf(),
        0 <= i < old(bodies).count(),
    ensures
        ({
            let listed = exists|s: int| lists(islands@, s, i);
            let zero = Vec3 { x: Scalar { bits: 0 }, y: Scalar { bits: 0 }, z: Scalar { bits: 0 } };
            let still = listed && freeze_dormant && !old(bodies).awake@[i];
            &&& final(bodies).linvel@[i] == if still {
                zero
            } else {
                old(bodies).linvel@[i]
            }
            &&& final(bodies).angvel@[i] == if still {
                zero
            } else {
                old(bodies).angvel@[i]
            }
            &&& final(bodies).position@ == old(bodies).position@
            &&& final(bodies).awake@ == old(bodies).awake@
            &&& !listed ==> r.1.local_of@[i] == 0xffff_ffff
        }),
{
    let m = islands@.len() as int;
    let c = count as int;
    let all = members(islands@, 0, m);
    lemma_listed(islands@, m, i);
    if all.contains(i as u32) {
        let q = choose|q: int| 0 <= q < all.len() && all[q] == i as u32;
        crate::group::lemma_position_has_group(islands@, c, q);
        let (g, k) = choose|g: int, k: int|
            0 <= g < c && 0 <= k < group_members(islands@, c, g).len()
                && #[trigger] group_members(islands@, c, g)[k] == all[q];
        assert(r.1.holds(&*old(bodies), freeze_dormant, g, group_members(islands@, c, g)));
        assert(r.0.ranges@.len() == c);
    }
}

proof fn lemma_listed(islands: Seq<Island>, hi: int, i: int)
    requires
        0 <= hi <= islands.len(),
        0 <= i <= u32::MAX,
    ensures
        members(islands, 0, hi).contains(i as u32) <==> exists|s: int| s < hi && lists(islands, s, i),
    decreases hi,
{
    if hi > 0 {
        lemma_listed(islands, hi - 1, i);
        let all = members(islands, 0, hi);
        let most = members(islands, 0, hi - 1);
        let here = islands[hi - 1].bodies@;
        assert(all == most + here);
        if all.contains(i as u32) {
            let x = choose|x: int| 0 <= x < all.len() && all[x] == i as u32;
            if x < most.len() {
                assert(most[x] == i as u32);
                assert(most.contains(i as u32));
                let s = choose|s: int| s < hi - 1 && lists(islands, s, i);
                assert(s < hi && lists(islands, s, i));
            } else {
                assert(islands[hi - 1].bodies@[x - most.len()] == i);
                assert(lists(islands, hi - 1, i));
            }
        }
        if exists|s: int| s < hi && lists(islands, s, i) {
            let s = choose|s: int| s < hi && lists(islands, s, i);
            let k = choose|k: int|
                0 <= k < islands[s].bodies@.len() && #[trigger] islands[s].bodies@[k] == i;
            if s == hi - 1 {
                assert(all[most.len() + k] == i as u32);
            } else {
                assert(s < hi - 1 && lists(islands, s, i));
                let x = choose|x: int| 0 <= x < most.len() && most[x] == i as u32;
                assert(all[x] == i as u32);
            }
        }
    }
}

} // verus!
