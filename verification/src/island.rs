//! Islands: groups of bodies that touch each other and hold an awake body.

use crate::body::BodySet;
use crate::contact::Manifold;
use crate::select::{
    indices_where, ints_u32, ints_usize, lemma_indices_where, lemma_indices_where_contains,
};
use crate::union_find::{
    find_small_root, forest, lemma_root_is_fixed, merged_root, root_of, union_small_root,
};
use std::collections::HashMap;
use vstd::prelude::*;

verus! {

/// Every manifold names two bodies below `n`.
pub open spec fn manifolds_in(ms: Seq<Manifold>, n: int) -> bool {
    forall|k: int| 0 <= k < ms.len() ==> (#[trigger] ms[k]).a < n && ms[k].b < n
}

/// Two dynamic bodies touch in one of the manifolds.
pub open spec fn touch(dynamic: Seq<bool>, ms: Seq<Manifold>, i: int, j: int) -> bool {
    exists|k: int|
        0 <= k < ms.len() && dynamic[(#[trigger] ms[k]).a as int] && dynamic[ms[k].b as int] && ((
        ms[k].a == i && ms[k].b == j) || (ms[k].a == j && ms[k].b == i))
}

/// A chain of bodies in which each touches the next.
pub open spec fn chain(dynamic: Seq<bool>, ms: Seq<Manifold>, p: Seq<int>) -> bool {
    p.len() >= 1 && forall|t: int|
        0 <= t < p.len() - 1 ==> touch(dynamic, ms, #[trigger] p[t], p[t + 1])
}

/// Two bodies are the ends of a chain.
pub open spec fn connected(dynamic: Seq<bool>, ms: Seq<Manifold>, i: int, j: int) -> bool {
    exists|p: Seq<int>| #[trigger] chain(dynamic, ms, p) && p[0] == i && p.last() == j
}

/// Equal representatives mean the same as being connected.
pub open spec fn roots_are_components(
    parent: Seq<u32>,
    dynamic: Seq<bool>,
    ms: Seq<Manifold>,
) -> bool {
    forall|i: int, j: int|
        0 <= i < parent.len() && 0 <= j < parent.len() ==> ((#[trigger] root_of(parent, i)
            == #[trigger] root_of(parent, j)) <==> connected(dynamic, ms, i, j))
}

/// Every body is connected to itself.
pub proof fn lemma_connected_self(dynamic: Seq<bool>, ms: Seq<Manifold>, i: int)
    ensures
        connected(dynamic, ms, i, i),
{
    let p = seq![i];
    assert(chain(dynamic, ms, p));
    assert(p[0] == i && p.last() == i);
}

/// Two chains that share an end join.
pub proof fn lemma_connected_join(dynamic: Seq<bool>, ms: Seq<Manifold>, i: int, j: int, k: int)
    requires
        connected(dynamic, ms, i, j),
        connected(dynamic, ms, j, k),
    ensures
        connected(dynamic, ms, i, k),
{
    let p = choose|p: Seq<int>| #[trigger] chain(dynamic, ms, p) && p[0] == i && p.last() == j;
    let q = choose|q: Seq<int>| #[trigger] chain(dynamic, ms, q) && q[0] == j && q.last() == k;
    let r = p + q.subrange(1, q.len() as int);
    assert forall|t: int| 0 <= t < r.len() - 1 implies touch(
        dynamic,
        ms,
        #[trigger] r[t],
        r[t + 1],
    ) by {
        if t < p.len() - 1 {
            assert(touch(dynamic, ms, p[t], p[t + 1]));
        } else {
            let u = t - (p.len() - 1);
            assert(touch(dynamic, ms, q[u], q[u + 1]));
            assert(r[t] == q[u]);
            assert(r[t + 1] == q[u + 1]);
        }
    }
    assert(chain(dynamic, ms, r));
    assert(r[0] == i);
    assert(r.last() == k);
}

/// A chain read backwards is a chain.
pub proof fn lemma_connected_reverse(dynamic: Seq<bool>, ms: Seq<Manifold>, i: int, j: int)
    requires
        connected(dynamic, ms, i, j),
    ensures
        connected(dynamic, ms, j, i),
{
    let p = choose|p: Seq<int>| #[trigger] chain(dynamic, ms, p) && p[0] == i && p.last() == j;
    let r = p.reverse();
    assert forall|t: int| 0 <= t < r.len() - 1 implies touch(
        dynamic,
        ms,
        #[trigger] r[t],
        r[t + 1],
    ) by {
        let u = p.len() - 2 - t;
        assert(touch(dynamic, ms, p[u], p[u + 1]));
        let k = choose|k: int|
            0 <= k < ms.len() && dynamic[(#[trigger] ms[k]).a as int] && dynamic[ms[k].b as int] && ((
            ms[k].a == p[u] && ms[k].b == p[u + 1]) || (ms[k].a == p[u + 1] && ms[k].b == p[u]));
        assert(dynamic[ms[k].a as int]);
    }
    assert(chain(dynamic, ms, r));
    assert(r[0] == j);
    assert(r.last() == i);
}

/// Adding a manifold breaks no chain.
proof fn lemma_connected_grows(
    dynamic: Seq<bool>,
    ms: Seq<Manifold>,
    m: Manifold,
    i: int,
    j: int,
)
    requires
        connected(dynamic, ms, i, j),
    ensures
        connected(dynamic, ms.push(m), i, j),
{
    let p = choose|p: Seq<int>| #[trigger] chain(dynamic, ms, p) && p[0] == i && p.last() == j;
    assert forall|t: int| 0 <= t < p.len() - 1 implies touch(
        dynamic,
        ms.push(m),
        #[trigger] p[t],
        p[t + 1],
    ) by {
        assert(touch(dynamic, ms, p[t], p[t + 1]));
        let k = choose|k: int|
            0 <= k < ms.len() && dynamic[(#[trigger] ms[k]).a as int] && dynamic[ms[k].b as int] && ((
            ms[k].a == p[t] && ms[k].b == p[t + 1]) || (ms[k].a == p[t + 1] && ms[k].b == p[t]));
        assert(ms.push(m)[k] == ms[k]);
    }
    assert(chain(dynamic, ms.push(m), p));
}

/// Along a chain of the longer manifold list all representatives agree.
proof fn lemma_chain_agrees(
    before: Seq<u32>,
    after: Seq<u32>,
    dynamic: Seq<bool>,
    ms: Seq<Manifold>,
    m: Manifold,
    p: Seq<int>,
    t: int,
)
    requires
        roots_are_components(before, dynamic, ms),
        before.len() == after.len(),
        manifolds_in(ms.push(m), before.len() as int),
        forall|i: int|
            0 <= i < before.len() ==> #[trigger] root_of(after, i) == if dynamic[m.a as int]
                && dynamic[m.b as int] {
                merged_root(before, m.a as int, m.b as int, i)
            } else {
                root_of(before, i)
            },
        chain(dynamic, ms.push(m), p),
        0 <= p[0] < before.len(),
        0 <= t < p.len(),
    ensures
        0 <= p[t] < before.len(),
        root_of(after, p[t]) == root_of(after, p[0]),
    decreases t,
{
    if t > 0 {
        lemma_chain_agrees(before, after, dynamic, ms, m, p, t - 1);
        let ms2 = ms.push(m);
        let (x, y) = (p[t - 1], p[t]);
        assert(touch(dynamic, ms2, p[t - 1], p[t - 1 + 1]));
        let k = choose|k: int|
            0 <= k < ms2.len() && dynamic[(#[trigger] ms2[k]).a as int] && dynamic[ms2[k].b as int]
                && ((ms2[k].a == x && ms2[k].b == y) || (ms2[k].a == y && ms2[k].b == x));
        assert(ms2[k].a < before.len() && ms2[k].b < before.len());
        if k < ms.len() {
            assert(ms2[k] == ms[k]);
            assert(touch(dynamic, ms, x, y));
            let q = seq![x, y];
            assert(chain(dynamic, ms, q));
            assert(q[0] == x && q.last() == y);
            assert(connected(dynamic, ms, x, y));
            assert(root_of(before, x) == root_of(before, y));
        }
        assert(root_of(after, x) == root_of(after, y));
    }
}

/// Adding one manifold keeps representatives and components in step.
proof fn lemma_add_manifold(
    before: Seq<u32>,
    after: Seq<u32>,
    dynamic: Seq<bool>,
    ms: Seq<Manifold>,
    m: Manifold,
)
    requires
        roots_are_components(before, dynamic, ms),
        before.len() == after.len(),
        manifolds_in(ms.push(m), before.len() as int),
        forall|i: int|
            0 <= i < before.len() ==> #[trigger] root_of(after, i) == if dynamic[m.a as int]
                && dynamic[m.b as int] {
                merged_root(before, m.a as int, m.b as int, i)
            } else {
                root_of(before, i)
            },
    ensures
        roots_are_components(after, dynamic, ms.push(m)),
{
    let ms2 = ms.push(m);
    assert(ms2[ms.len() as int] == m);
    let (a, b) = (m.a as int, m.b as int);
    assert forall|i: int, j: int| 0 <= i < after.len() && 0 <= j < after.len() implies ((
    #[trigger] root_of(after, i) == #[trigger] root_of(after, j)) <==> connected(
        dynamic,
        ms2,
        i,
        j,
    )) by {
        if root_of(after, i) == root_of(after, j) {
            if root_of(before, i) == root_of(before, j) {
                lemma_connected_grows(dynamic, ms, m, i, j);
            } else {
                assert(touch(dynamic, ms2, a, b));
                let q = seq![a, b];
                assert(chain(dynamic, ms2, q));
                assert(q[0] == a && q.last() == b);
                assert(connected(dynamic, ms2, a, b));
                lemma_connected_reverse(dynamic, ms2, a, b);
                if root_of(before, i) == root_of(before, a) {
                    assert(root_of(before, j) == root_of(before, b));
                    lemma_connected_grows(dynamic, ms, m, i, a);
                    lemma_connected_grows(dynamic, ms, m, b, j);
                    lemma_connected_join(dynamic, ms2, i, a, b);
                    lemma_connected_join(dynamic, ms2, i, b, j);
                } else {
                    assert(root_of(before, i) == root_of(before, b));
                    assert(root_of(before, j) == root_of(before, a));
                    lemma_connected_grows(dynamic, ms, m, i, b);
                    lemma_connected_grows(dynamic, ms, m, a, j);
                    lemma_connected_join(dynamic, ms2, i, b, a);
                    lemma_connected_join(dynamic, ms2, i, a, j);
                }
            }
        }
        if connected(dynamic, ms2, i, j) {
            let p = choose|p: Seq<int>|
                #[trigger] chain(dynamic, ms2, p) && p[0] == i && p.last() == j;
            lemma_chain_agrees(before, after, dynamic, ms, m, p, p.len() - 1);
        }
    }
}

/// Groups the bodies by contact: two bodies share a representative exactly when
/// a chain of touching dynamic bodies joins them.
pub fn build_union_find(bodies: &BodySet, manifolds: &[Manifold]) -> (parent: Vec<u32>)
    requires
        bodies.wf(),
        manifolds_in(manifolds@, bodies.count() as int),
    ensures
        parent@.len() == bodies.count(),
        forest(parent@),
        roots_are_components(parent@, bodies.dynamic@, manifolds@),
{
    let n: usize = bodies.len();
    let mut parent: Vec<u32> = Vec::new();
    let mut i: usize = 0;
    while i < n
        invariant
            i <= n,
            n <= u32::MAX,
            parent@.len() == i,
            forall|j: int| 0 <= j < i ==> parent@[j] == j,
        decreases n - i,
    {
        parent.push(i as u32);
        i += 1;
    }
    proof {
        let none = manifolds@.take(0);
        assert forall|i: int, j: int|
            0 <= i < parent@.len() && 0 <= j < parent@.len() implies ((#[trigger] root_of(parent@, i)
            == #[trigger] root_of(parent@, j)) <==> connected(bodies.dynamic@, none, i, j)) by {
            lemma_connected_self(bodies.dynamic@, none, i);
            if connected(bodies.dynamic@, none, i, j) {
                let p = choose|p: Seq<int>|
                    #[trigger] chain(bodies.dynamic@, none, p) && p[0] == i && p.last() == j;
                if p.len() > 1 {
                    assert(touch(bodies.dynamic@, none, p[0], p[0int + 1]));
                }
            }
        }
    }
    let mut k: usize = 0;
    while k < manifolds.len()
        invariant
            k <= manifolds@.len(),
            bodies.wf(),
            manifolds_in(manifolds@, bodies.count() as int),
            parent@.len() == bodies.count(),
            forest(parent@),
            roots_are_components(parent@, bodies.dynamic@, manifolds@.take(k as int)),
        decreases manifolds@.len() - k,
    {
        let m = manifolds[k];
        let ghost before = parent@;
        let ghost seen = manifolds@.take(k as int);
        assert(m.a < parent@.len() && m.b < parent@.len());
        if bodies.dynamic[m.a as usize] && bodies.dynamic[m.b as usize] {
            union_small_root(&mut parent, m.a, m.b);
        }
        proof {
            assert(manifolds@.take(k + 1) =~= seen.push(m));
            assert forall|q: int| 0 <= q < seen.push(m).len() implies (#[trigger] seen.push(m)[q]).a
                < before.len() && seen.push(m)[q].b < before.len() by {
                assert(seen.push(m)[q] == manifolds@[q]);
            }
            lemma_add_manifold(before, parent@, bodies.dynamic@, seen, m);
        }
        k += 1;
    }
    assert(manifolds@.take(k as int) =~= manifolds@);
    parent
}

/// The representative of a component is its smallest body.
pub proof fn root_is_smallest_of_component(
    parent: Seq<u32>,
    dynamic: Seq<bool>,
    ms: Seq<Manifold>,
    i: int,
    j: int,
)
    requires
        forest(parent),
        roots_are_components(parent, dynamic, ms),
        0 <= i < parent.len(),
        0 <= j < parent.len(),
        connected(dynamic, ms, i, j),
    ensures
        root_of(parent, i) <= j,
        connected(dynamic, ms, i, root_of(parent, i)),
{
    lemma_root_is_fixed(parent, i);
    lemma_root_is_fixed(parent, j);
    assert(root_of(parent, i) == root_of(parent, j));
    let r = root_of(parent, i);
    assert(root_of(parent, r) == root_of(parent, i));
}

/// One island: its bodies, the awake ones first, and its manifolds.
pub struct Island {
    pub bodies: Vec<u32>,
    pub manifs: Vec<usize>,
}

/// The representative of every body.
pub open spec fn roots_of(parent: Seq<u32>) -> Seq<int> {
    Seq::new(parent.len(), |i: int| root_of(parent, i))
}

/// Body `i` is the first active body of its component: it opens an island.
pub open spec fn leads(bodies: &BodySet, roots: Seq<int>) -> spec_fn(int) -> bool {
    |i: int|
        bodies.active(i) && forall|j: int|
            0 <= j < i && #[trigger] bodies.active(j) ==> roots[j] != roots[i]
}

/// The bodies that open the islands among the first `n` bodies, in island order.
pub open spec fn leaders(bodies: &BodySet, roots: Seq<int>, n: nat) -> Seq<int> {
    indices_where(leads(bodies, roots), n)
}

/// The active bodies with representative `r`.
pub open spec fn active_with(bodies: &BodySet, roots: Seq<int>, r: int) -> spec_fn(int) -> bool {
    |i: int| bodies.active(i) && roots[i] == r
}

/// The dormant bodies with representative `r`.
pub open spec fn dormant_with(bodies: &BodySet, roots: Seq<int>, r: int) -> spec_fn(int) -> bool {
    |i: int| bodies.dormant(i) && roots[i] == r
}

/// The manifolds with a dynamic side whose first dynamic body has
/// representative `r`.
pub open spec fn manifold_with(
    bodies: &BodySet,
    roots: Seq<int>,
    ms: Seq<Manifold>,
    r: int,
) -> spec_fn(int) -> bool {
    |k: int|
        if bodies.dynamic@[ms[k].a as int] {
            roots[ms[k].a as int] == r
        } else {
            bodies.dynamic@[ms[k].b as int] && roots[ms[k].b as int] == r
        }
}

/// The island holds exactly the component of `r`: its active bodies in index
/// order, then its dormant bodies in index order, and its manifolds in order.
pub open spec fn island_of(
    island: &Island,
    bodies: &BodySet,
    roots: Seq<int>,
    ms: Seq<Manifold>,
    r: int,
) -> bool {
    &&& ints_u32(island.bodies@) == indices_where(active_with(bodies, roots, r), bodies.count())
        + indices_where(dormant_with(bodies, roots, r), bodies.count())
    &&& ints_usize(island.manifs@) == indices_where(
        manifold_with(bodies, roots, ms, r),
        ms.len(),
    )
}

/// The islands of a scene: one for each component with an active body, in the
/// order of their first active bodies.
pub open spec fn islands_of(
    islands: Seq<Island>,
    bodies: &BodySet,
    roots: Seq<int>,
    ms: Seq<Manifold>,
) -> bool {
    let heads = leaders(bodies, roots, bodies.count());
    &&& islands.len() == heads.len()
    &&& forall|s: int|
        0 <= s < islands.len() ==> island_of(
            #[trigger] &islands[s],
            bodies,
            roots,
            ms,
            roots[heads[s]],
        )
}

/// The table from representatives to islands after the heads are known.
spec fn slots_match(slots: Map<u32, usize>, roots: Seq<int>, heads: Seq<int>) -> bool {
    &&& forall|s: int|
        0 <= s < heads.len() ==> slots.contains_key(roots[#[trigger] heads[s]] as u32)
            && slots[roots[heads[s]] as u32] == s
    &&& forall|r: u32| #[trigger]
        slots.contains_key(r) ==> slots[r] < heads.len() && roots[heads[slots[r] as int]] == r
}

proof fn lemma_no_match(p: spec_fn(int) -> bool, n: nat)
    requires
        forall|i: int| 0 <= i < n ==> !#[trigger] p(i),
    ensures
        indices_where(p, n) == Seq::<int>::empty(),
    decreases n,
{
    if n > 0 {
        lemma_no_match(p, (n - 1) as nat);
        assert(!p(n - 1));
    }
}

proof fn lemma_same_roots(before: Seq<u32>, after: Seq<u32>)
    requires
        before.len() == after.len(),
        forall|i: int| 0 <= i < before.len() ==> #[trigger] root_of(after, i) == root_of(before, i),
    ensures
        roots_of(after) == roots_of(before),
{
    assert(roots_of(after) =~= roots_of(before));
}

/// Opens an island for each component with an active body and puts the active
/// bodies into them.
fn open_islands(bodies: &BodySet, parent: &mut Vec<u32>) -> (r: (Vec<Island>, HashMap<u32, usize>))
    requires
        bodies.wf(),
        forest(old(parent)@),
        old(parent)@.len() == bodies.count(),
    ensures
        forest(final(parent)@),
        final(parent)@.len() == old(parent)@.len(),
        roots_of(final(parent)@) == roots_of(old(parent)@),
        r.0@.len() == leaders(bodies, roots_of(old(parent)@), bodies.count()).len(),
        slots_match(
            r.1@,
            roots_of(old(parent)@),
            leaders(bodies, roots_of(old(parent)@), bodies.count()),
        ),
        forall|s: int|
            0 <= s < r.0@.len() ==> ints_u32((#[trigger] r.0@[s]).bodies@) == indices_where(
                active_with(
                    bodies,
                    roots_of(old(parent)@),
                    roots_of(old(parent)@)[leaders(
                        bodies,
                        roots_of(old(parent)@),
                        bodies.count(),
                    )[s]],
                ),
                bodies.count(),
            ),
        forall|s: int| 0 <= s < r.0@.len() ==> (#[trigger] r.0@[s]).manifs@.len() == 0,
{
    broadcast use vstd::std_specs::hash::group_hash_axioms;

    let n: usize = bodies.len();
    let ghost roots = roots_of(parent@);
    let mut slots: HashMap<u32, usize> = HashMap::new();
    let mut islands: Vec<Island> = Vec::new();
    let mut i: usize = 0;
    while i < n
        invariant
            bodies.wf(),
            n == bodies.count(),
            i <= n,
            forest(parent@),
            parent@.len() == n,
            roots_of(parent@) == roots,
            islands@.len() == leaders(bodies, roots, i as nat).len(),
            slots_match(slots@, roots, leaders(bodies, roots, i as nat)),
            forall|j: int|
                0 <= j < i && #[trigger] bodies.active(j) ==> slots@.contains_key(roots[j] as u32),
            forall|s: int|
                0 <= s < islands@.len() ==> ints_u32((#[trigger] islands@[s]).bodies@)
                    == indices_where(
                    active_with(bodies, roots, roots[leaders(bodies, roots, i as nat)[s]]),
                    i as nat,
                ),
            forall|s: int| 0 <= s < islands@.len() ==> (#[trigger] islands@[s]).manifs@.len() == 0,
        decreases n - i,
    {
        broadcast use vstd::std_specs::hash::group_hash_axioms;

        let ghost heads = leaders(bodies, roots, i as nat);
        let ghost heads2 = leaders(bodies, roots, (i + 1) as nat);
        proof {
            lemma_indices_where(leads(bodies, roots), i as nat);
        }
        if bodies.dynamic[i] && bodies.awake[i] {
            let ghost before = parent@;
            let r: u32 = find_small_root(parent, i as u32);
            proof {
                lemma_same_roots(before, parent@);
                assert(roots[i as int] == r);
                assert(bodies.active(i as int));
                assert forall|j: int| 0 <= j < i implies roots[j] == root_of(before, j) && 0
                    <= roots[j] <= u32::MAX by {
                    lemma_root_is_fixed(before, j);
                }
            }
            let found: Option<usize> = match slots.get(&r) {
                Some(s) => Some(*s),
                None => None,
            };
            let ghost old_islands = islands@;
            match found {
                Some(slot) => {
                    proof {
                        let j = heads[slot as int];
                        assert(bodies.active(j) && roots[j] == roots[i as int]);
                        assert(!leads(bodies, roots)(i as int));
                        assert(heads2 == heads);
                    }
                    islands[slot].bodies.push(i as u32);
                    proof {
                        assert forall|s: int| 0 <= s < islands@.len() implies ints_u32(
                            (#[trigger] islands@[s]).bodies@,
                        ) == indices_where(
                            active_with(bodies, roots, roots[heads2[s]]),
                            (i + 1) as nat,
                        ) by {
                            if s == slot {
                                assert(ints_u32(islands@[s].bodies@) =~= ints_u32(
                                    old_islands[s].bodies@,
                                ).push(i as int));
                            } else {
                                assert(islands@[s] == old_islands[s]);
                                assert(slots@[roots[heads[s]] as u32] == s);
                            }
                        }
                    }
                },
                None => {
                    proof {
                        assert(leads(bodies, roots)(i as int)) by {
                            assert forall|j: int|
                                0 <= j < i && #[trigger] bodies.active(j) implies roots[j]
                                != roots[i as int] by {
                                assert(slots@.contains_key(roots[j] as u32));
                            }
                        }
                        assert(heads2 == heads.push(i as int));
                        let p = active_with(bodies, roots, r as int);
                        assert forall|j: int| 0 <= j < i implies !#[trigger] p(j) by {
                            if bodies.active(j) {
                                assert(slots@.contains_key(roots[j] as u32));
                            }
                        }
                        lemma_no_match(p, i as nat);
                    }
                    let ghost old_slots = slots@;
                    let slot: usize = islands.len();
                    let mut members: Vec<u32> = Vec::new();
                    members.push(i as u32);
                    islands.push(Island { bodies: members, manifs: Vec::new() });
                    slots.insert(r, slot);
                    proof {
                        assert forall|s: int| 0 <= s < islands@.len() implies ints_u32(
                            (#[trigger] islands@[s]).bodies@,
                        ) == indices_where(
                            active_with(bodies, roots, roots[heads2[s]]),
                            (i + 1) as nat,
                        ) by {
                            if s == slot {
                                assert(ints_u32(islands@[s].bodies@) =~= Seq::<int>::empty().push(
                                    i as int,
                                ));
                            } else {
                                assert(islands@[s] == old_islands[s]);
                                assert(old_slots.contains_key(roots[heads[s]] as u32));
                                assert(heads2[s] == heads[s]);
                                assert(0 <= heads[s] < i);
                                assert(roots[heads[s]] != r);
                            }
                        }
                        assert(slots_match(slots@, roots, heads2)) by {
                            assert forall|s: int| 0 <= s < heads2.len() implies slots@.contains_key(
                                roots[#[trigger] heads2[s]] as u32,
                            ) && slots@[roots[heads2[s]] as u32] == s by {
                                if s < heads.len() {
                                    assert(heads2[s] == heads[s]);
                                    assert(0 <= heads[s] < i);
                                    assert(old_slots.contains_key(roots[heads[s]] as u32));
                                }
                            }
                            assert forall|q: u32| #[trigger] slots@.contains_key(q) implies slots@[q]
                                < heads2.len() && roots[heads2[slots@[q] as int]] == q by {
                                if q != r {
                                    assert(old_slots.contains_key(q));
                                }
                            }
                        }
                    }
                },
            }
        } else {
            proof {
                assert(!leads(bodies, roots)(i as int));
                assert(heads2 == heads);
            }
        }
        i += 1;
    }
    (islands, slots)
}

/// The islands after the dormant bodies below `n` and the manifolds below `k`
/// have been handed out.
spec fn filled_to(
    islands: Seq<Island>,
    bodies: &BodySet,
    roots: Seq<int>,
    ms: Seq<Manifold>,
    n: nat,
    k: nat,
) -> bool {
    let heads = leaders(bodies, roots, bodies.count());
    &&& islands.len() == heads.len()
    &&& forall|s: int|
        0 <= s < islands.len() ==> ints_u32((#[trigger] islands[s]).bodies@) == indices_where(
            active_with(bodies, roots, roots[heads[s]]),
            bodies.count(),
        ) + indices_where(dormant_with(bodies, roots, roots[heads[s]]), n)
    &&& forall|s: int|
        0 <= s < islands.len() ==> ints_usize((#[trigger] islands[s]).manifs@) == indices_where(
            manifold_with(bodies, roots, ms, roots[heads[s]]),
            k,
        )
}

/// Builds the islands: a component without an active body gets none, a dormant
/// body joins the island of its component, and a manifold goes to the island of
/// its first dynamic body. The representatives stay as they are.
pub fn fill_island_buckets(
    bodies: &BodySet,
    manifolds: &[Manifold],
    parent: &mut Vec<u32>,
) -> (islands: Vec<Island>)
    requires
        bodies.wf(),
        forest(old(parent)@),
        old(parent)@.len() == bodies.count(),
        manifolds_in(manifolds@, bodies.count() as int),
    ensures
        forest(final(parent)@),
        final(parent)@.len() == old(parent)@.len(),
        roots_of(final(parent)@) == roots_of(old(parent)@),
        islands_of(islands@, bodies, roots_of(old(parent)@), manifolds@),
{
    let n: usize = bodies.len();
    let ghost roots = roots_of(parent@);
    let ghost heads = leaders(bodies, roots, bodies.count());
    let (mut islands, slots) = open_islands(bodies, parent);
    if slots.len() == 0 {
        proof {
            if heads.len() > 0 {
                assert(slots@.contains_key(roots[heads[0]] as u32));
            }
        }
        return islands;
    }
    proof {
        assert forall|s: int| 0 <= s < islands@.len() implies ints_u32(
            (#[trigger] islands@[s]).bodies@,
        ) == indices_where(active_with(bodies, roots, roots[heads[s]]), bodies.count())
            + indices_where(dormant_with(bodies, roots, roots[heads[s]]), 0) by {
            assert(ints_u32(islands@[s].bodies@) =~= indices_where(
                active_with(bodies, roots, roots[heads[s]]),
                bodies.count(),
            ) + indices_where(dormant_with(bodies, roots, roots[heads[s]]), 0));
        }
        assert forall|s: int| 0 <= s < islands@.len() implies ints_usize(
            (#[trigger] islands@[s]).manifs@,
        ) == indices_where(manifold_with(bodies, roots, manifolds@, roots[heads[s]]), 0) by {
            assert(ints_usize(islands@[s].manifs@) =~= Seq::<int>::empty());
        }
        lemma_indices_where(leads(bodies, roots), bodies.count());
    }
    let mut i: usize = 0;
    while i < n
        invariant
            bodies.wf(),
            n == bodies.count(),
            i <= n,
            forest(parent@),
            parent@.len() == n,
            roots_of(parent@) == roots,
            heads == leaders(bodies, roots, bodies.count()),
            slots_match(slots@, roots, heads),
            forall|s: int| 0 <= s < heads.len() ==> 0 <= #[trigger] heads[s] < n,
            filled_to(islands@, bodies, roots, manifolds@, i as nat, 0),
        decreases n - i,
    {
        broadcast use vstd::std_specs::hash::group_hash_axioms;

        let ghost before_islands = islands@;
        if bodies.dynamic[i] && !bodies.awake[i] {
            let ghost before = parent@;
            let r: u32 = find_small_root(parent, i as u32);
            proof {
                lemma_same_roots(before, parent@);
                assert(roots[i as int] == r);
                assert forall|j: int| 0 <= j < n implies 0 <= #[trigger] roots[j] <= u32::MAX by {
                    lemma_root_is_fixed(before, j);
                }
            }
            match slots.get(&r) {
                Some(slot) => {
                    let slot: usize = *slot;
                    islands[slot].bodies.push(i as u32);
                    proof {
                        assert forall|s: int| 0 <= s < islands@.len() implies ints_u32(
                            (#[trigger] islands@[s]).bodies@,
                        ) == indices_where(
                            active_with(bodies, roots, roots[heads[s]]),
                            bodies.count(),
                        ) + indices_where(
                            dormant_with(bodies, roots, roots[heads[s]]),
                            (i + 1) as nat,
                        ) by {
                            if s == slot {
                                assert(ints_u32(islands@[s].bodies@) =~= indices_where(
                                    active_with(bodies, roots, roots[heads[s]]),
                                    bodies.count(),
                                ) + indices_where(
                                    dormant_with(bodies, roots, roots[heads[s]]),
                                    i as nat,
                                ).push(i as int)) by {
                                    assert(ints_u32(before_islands[s].bodies@.push(i as u32))
                                        =~= ints_u32(before_islands[s].bodies@).push(i as int));
                                }
                            } else {
                                assert(islands@[s] == before_islands[s]);
                                assert(slots@[roots[heads[s]] as u32] == s);
                            }
                        }
                    }
                },
                None => {
                    proof {
                        assert forall|s: int| 0 <= s < islands@.len() implies ints_u32(
                            (#[trigger] islands@[s]).bodies@,
                        ) == indices_where(
                            active_with(bodies, roots, roots[heads[s]]),
                            bodies.count(),
                        ) + indices_where(
                            dormant_with(bodies, roots, roots[heads[s]]),
                            (i + 1) as nat,
                        ) by {
                            assert(slots@.contains_key(roots[heads[s]] as u32));
                        }
                    }
                },
            }
        }
        i += 1;
    }
    let mut k: usize = 0;
    while k < manifolds.len()
        invariant
            bodies.wf(),
            n == bodies.count(),
            k <= manifolds@.len(),
            manifolds_in(manifolds@, n as int),
            forest(parent@),
            parent@.len() == n,
            roots_of(parent@) == roots,
            heads == leaders(bodies, roots, bodies.count()),
            slots_match(slots@, roots, heads),
            forall|s: int| 0 <= s < heads.len() ==> 0 <= #[trigger] heads[s] < n,
            filled_to(islands@, bodies, roots, manifolds@, n as nat, k as nat),
        decreases manifolds@.len() - k,
    {
        broadcast use vstd::std_specs::hash::group_hash_axioms;

        let ghost before_islands = islands@;
        let m = manifolds[k];
        assert(m.a < n && m.b < n);
        let a_dynamic: bool = bodies.dynamic[m.a as usize];
        if a_dynamic || bodies.dynamic[m.b as usize] {
            let ghost before = parent@;
            let host: u32 = if a_dynamic {
                m.a
            } else {
                m.b
            };
            let r: u32 = find_small_root(parent, host);
            proof {
                lemma_same_roots(before, parent@);
                assert(roots[host as int] == r);
                assert forall|j: int| 0 <= j < n implies 0 <= #[trigger] roots[j] <= u32::MAX by {
                    lemma_root_is_fixed(before, j);
                }
            }
            match slots.get(&r) {
                Some(slot) => {
                    let slot: usize = *slot;
                    islands[slot].manifs.push(k);
                    proof {
                        assert forall|s: int| 0 <= s < islands@.len() implies ints_usize(
                            (#[trigger] islands@[s]).manifs@,
                        ) == indices_where(
                            manifold_with(bodies, roots, manifolds@, roots[heads[s]]),
                            (k + 1) as nat,
                        ) by {
                            if s == slot {
                                assert(ints_usize(islands@[s].manifs@) =~= ints_usize(
                                    before_islands[s].manifs@,
                                ).push(k as int));
                            } else {
                                assert(islands@[s] == before_islands[s]);
                                assert(slots@[roots[heads[s]] as u32] == s);
                            }
                        }
                        assert forall|s: int| 0 <= s < islands@.len() implies (
                        #[trigger] islands@[s]).bodies == before_islands[s].bodies by {
                        }
                    }
                },
                None => {
                    proof {
                        assert forall|s: int| 0 <= s < islands@.len() implies ints_usize(
                            (#[trigger] islands@[s]).manifs@,
                        ) == indices_where(
                            manifold_with(bodies, roots, manifolds@, roots[heads[s]]),
                            (k + 1) as nat,
                        ) by {
                            assert(slots@.contains_key(roots[heads[s]] as u32));
                        }
                    }
                },
            }
        }
        k += 1;
    }
    islands
}

/// Body `i` is in island `s`.
pub open spec fn in_island(islands: Seq<Island>, s: int, i: int) -> bool {
    0 <= s < islands.len() && ints_u32(islands[s].bodies@).contains(i)
}

/// Manifold `k` is in island `s`.
pub open spec fn manifold_in_island(islands: Seq<Island>, s: int, k: int) -> bool {
    0 <= s < islands.len() && ints_usize(islands[s].manifs@).contains(k)
}

/// A body is in island `s` exactly when it is dynamic and shares the
/// representative of the island's first body.
pub proof fn lemma_in_island(
    islands: Seq<Island>,
    bodies: &BodySet,
    roots: Seq<int>,
    ms: Seq<Manifold>,
    s: int,
    i: int,
)
    requires
        islands_of(islands, bodies, roots, ms),
        0 <= s < islands.len(),
    ensures
        in_island(islands, s, i) <==> (0 <= i < bodies.count() && bodies.dynamic@[i] && roots[i]
            == roots[leaders(bodies, roots, bodies.count())[s]]),
{
    let r = roots[leaders(bodies, roots, bodies.count())[s]];
    assert(island_of(&islands[s], bodies, roots, ms, r));
    let p = active_with(bodies, roots, r);
    let q = dormant_with(bodies, roots, r);
    let n = bodies.count();
    lemma_indices_where_contains(p, n, i);
    lemma_indices_where_contains(q, n, i);
    let x = indices_where(p, n);
    let y = indices_where(q, n);
    if (x + y).contains(i) {
        let k = choose|k: int| 0 <= k < (x + y).len() && (x + y)[k] == i;
        if k < x.len() {
            assert(x[k] == i);
        } else {
            assert(y[k - x.len()] == i);
        }
    }
    if x.contains(i) {
        let k = choose|k: int| 0 <= k < x.len() && x[k] == i;
        assert((x + y)[k] == i);
    }
    if y.contains(i) {
        let k = choose|k: int| 0 <= k < y.len() && y[k] == i;
        assert((x + y)[k + x.len()] == i);
    }
}

/// For every active body some leader at or below it has the same representative.
proof fn lemma_leader_exists(bodies: &BodySet, roots: Seq<int>, i: int)
    requires
        0 <= i < bodies.count(),
        bodies.active(i),
    ensures
        exists|s: int|
            0 <= s < leaders(bodies, roots, bodies.count()).len() && roots[#[trigger] leaders(
                bodies,
                roots,
                bodies.count(),
            )[s]] == roots[i],
    decreases i,
{
    let p = leads(bodies, roots);
    if p(i) {
        lemma_indices_where(p, bodies.count());
        assert(indices_where(p, bodies.count()).contains(i));
        let s = choose|s: int|
            0 <= s < indices_where(p, bodies.count()).len() && indices_where(p, bodies.count())[s]
                == i;
        assert(leaders(bodies, roots, bodies.count())[s] == i);
    } else {
        let j = choose|j: int| 0 <= j < i && #[trigger] bodies.active(j) && roots[j] == roots[i];
        lemma_leader_exists(bodies, roots, j);
    }
}

/// Two islands never share a body, and no island lists a body twice.
pub proof fn islands_are_disjoint(
    islands: Seq<Island>,
    bodies: &BodySet,
    roots: Seq<int>,
    ms: Seq<Manifold>,
)
    requires
        islands_of(islands, bodies, roots, ms),
    ensures
        forall|s: int, t: int, i: int|
            #[trigger] in_island(islands, s, i) && #[trigger] in_island(islands, t, i) ==> s == t,
        forall|s: int| 0 <= s < islands.len() ==> (#[trigger] islands[s]).bodies@.no_duplicates(),
{
    let n = bodies.count();
    let heads = leaders(bodies, roots, n);
    let p = leads(bodies, roots);
    lemma_indices_where(p, n);
    assert forall|s: int, t: int, i: int| #[trigger]
        in_island(islands, s, i) && #[trigger] in_island(islands, t, i) implies s == t by {
        lemma_in_island(islands, bodies, roots, ms, s, i);
        lemma_in_island(islands, bodies, roots, ms, t, i);
        assert(p(heads[s]) && p(heads[t]));
        if heads[s] < heads[t] {
            assert(bodies.active(heads[s]));
        } else if heads[t] < heads[s] {
            assert(bodies.active(heads[t]));
        }
    }
    assert forall|s: int| 0 <= s < islands.len() implies (
    #[trigger] islands[s]).bodies@.no_duplicates() by {
        let r = roots[heads[s]];
        assert(island_of(&islands[s], bodies, roots, ms, r));
        let pa = active_with(bodies, roots, r);
        let pd = dormant_with(bodies, roots, r);
        lemma_indices_where(pa, n);
        lemma_indices_where(pd, n);
        let x = indices_where(pa, n);
        let y = indices_where(pd, n);
        let b = islands[s].bodies@;
        assert(ints_u32(b) == x + y);
        assert(ints_u32(b).len() == b.len());
        assert forall|j: int, k: int| 0 <= j < b.len() && 0 <= k < b.len() && j != k implies b[j]
            != b[k] by {
            assert(ints_u32(b)[j] == b[j] && ints_u32(b)[k] == b[k]);
            assert((x + y)[j] != (x + y)[k]) by {
                if j < x.len() {
                    assert((x + y)[j] == x[j]);
                    assert(bodies.active(x[j]));
                } else {
                    assert((x + y)[j] == y[j - x.len()]);
                    assert(bodies.dormant(y[j - x.len()]));
                }
                if k < x.len() {
                    assert((x + y)[k] == x[k]);
                    assert(bodies.active(x[k]));
                } else {
                    assert((x + y)[k] == y[k - x.len()]);
                    assert(bodies.dormant(y[k - x.len()]));
                }
            }
        }
    }
}

/// A body is in an island exactly when it is dynamic and connected to an active
/// body; all other bodies stay frozen.
pub proof fn islands_hold_what_is_connected_to_active(
    islands: Seq<Island>,
    bodies: &BodySet,
    parent: Seq<u32>,
    ms: Seq<Manifold>,
    i: int,
)
    requires
        bodies.wf(),
        parent.len() == bodies.count(),
        roots_are_components(parent, bodies.dynamic@, ms),
        islands_of(islands, bodies, roots_of(parent), ms),
        0 <= i < bodies.count(),
    ensures
        (exists|s: int| in_island(islands, s, i)) <==> bodies.dynamic@[i] && exists|j: int|
            0 <= j < bodies.count() && #[trigger] bodies.active(j) && connected(
                bodies.dynamic@,
                ms,
                i,
                j,
            ),
{
    let roots = roots_of(parent);
    let n = bodies.count();
    let heads = leaders(bodies, roots, n);
    lemma_indices_where(leads(bodies, roots), n);
    if exists|s: int| in_island(islands, s, i) {
        let s = choose|s: int| in_island(islands, s, i);
        lemma_in_island(islands, bodies, roots, ms, s, i);
        let j = heads[s];
        assert(leads(bodies, roots)(j));
        assert(bodies.active(j));
        assert(root_of(parent, i) == root_of(parent, j));
        assert(connected(bodies.dynamic@, ms, i, j));
    }
    if bodies.dynamic@[i] && exists|j: int|
        0 <= j < n && #[trigger] bodies.active(j) && connected(bodies.dynamic@, ms, i, j) {
        let j = choose|j: int|
            0 <= j < n && #[trigger] bodies.active(j) && connected(bodies.dynamic@, ms, i, j);
        assert(root_of(parent, i) == root_of(parent, j));
        lemma_leader_exists(bodies, roots, j);
        let s = choose|s: int| 0 <= s < heads.len() && roots[#[trigger] heads[s]] == roots[j];
        lemma_in_island(islands, bodies, roots, ms, s, i);
        assert(in_island(islands, s, i));
    }
}

/// A manifold is in at most one island.
pub proof fn lemma_manifold_in_one_island(
    islands: Seq<Island>,
    bodies: &BodySet,
    roots: Seq<int>,
    ms: Seq<Manifold>,
    s: int,
    t: int,
    k: int,
)
    requires
        islands_of(islands, bodies, roots, ms),
        manifold_in_island(islands, s, k),
        manifold_in_island(islands, t, k),
    ensures
        s == t,
{
    let n = bodies.count();
    let heads = leaders(bodies, roots, n);
    let p = leads(bodies, roots);
    lemma_indices_where(p, n);
    assert(island_of(&islands[s], bodies, roots, ms, roots[heads[s]]));
    assert(island_of(&islands[t], bodies, roots, ms, roots[heads[t]]));
    lemma_indices_where_contains(manifold_with(bodies, roots, ms, roots[heads[s]]), ms.len(), k);
    lemma_indices_where_contains(manifold_with(bodies, roots, ms, roots[heads[t]]), ms.len(), k);
    assert(roots[heads[s]] == roots[heads[t]]);
    assert(p(heads[s]) && p(heads[t]));
    if heads[s] < heads[t] {
        assert(bodies.active(heads[s]));
    } else if heads[t] < heads[s] {
        assert(bodies.active(heads[t]));
    }
}

/// A manifold with an active side is in exactly one island, the one that holds
/// its dynamic bodies.
pub proof fn manifold_with_active_side_is_solved(
    islands: Seq<Island>,
    bodies: &BodySet,
    parent: Seq<u32>,
    ms: Seq<Manifold>,
    k: int,
)
    requires
        bodies.wf(),
        parent.len() == bodies.count(),
        roots_are_components(parent, bodies.dynamic@, ms),
        islands_of(islands, bodies, roots_of(parent), ms),
        manifolds_in(ms, bodies.count() as int),
        0 <= k < ms.len(),
        bodies.active(ms[k].a as int) || bodies.active(ms[k].b as int),
    ensures
        exists|s: int|
            #[trigger] manifold_in_island(islands, s, k) && (bodies.dynamic@[ms[k].a as int]
                ==> in_island(islands, s, ms[k].a as int)) && (bodies.dynamic@[ms[k].b as int]
                ==> in_island(islands, s, ms[k].b as int)),
        forall|s: int, t: int| #[trigger]
            manifold_in_island(islands, s, k) && #[trigger] manifold_in_island(islands, t, k)
                ==> s == t,
{
    let roots = roots_of(parent);
    let n = bodies.count();
    let heads = leaders(bodies, roots, n);
    let (a, b) = (ms[k].a as int, ms[k].b as int);
    let host = if bodies.dynamic@[a] {
        a
    } else {
        b
    };
    let other = if bodies.active(a) {
        a
    } else {
        b
    };
    assert(0 <= a < n && 0 <= b < n);
    if bodies.dynamic@[a] && bodies.dynamic@[b] {
        assert(touch(bodies.dynamic@, ms, a, b));
        let q = seq![a, b];
        assert(chain(bodies.dynamic@, ms, q));
        assert(q[0] == a && q.last() == b);
        assert(connected(bodies.dynamic@, ms, a, b));
        assert(root_of(parent, a) == root_of(parent, b));
    }
    assert(roots[host] == roots[other]);
    lemma_leader_exists(bodies, roots, other);
    let s = choose|s: int| 0 <= s < heads.len() && roots[#[trigger] heads[s]] == roots[other];
    assert(island_of(&islands[s], bodies, roots, ms, roots[heads[s]]));
    lemma_indices_where_contains(manifold_with(bodies, roots, ms, roots[heads[s]]), ms.len(), k);
    lemma_in_island(islands, bodies, roots, ms, s, a);
    lemma_in_island(islands, bodies, roots, ms, s, b);
    assert(manifold_in_island(islands, s, k));
    assert forall|u: int, t: int| #[trigger]
        manifold_in_island(islands, u, k) && #[trigger] manifold_in_island(
            islands,
            t,
            k,
        ) implies u == t by {
        lemma_manifold_in_one_island(islands, bodies, roots, ms, u, t, k);
    }
}

} // verus!
