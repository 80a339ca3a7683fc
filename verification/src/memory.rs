//! What a solve leaves for the next one: the cache holds, under the key of every
//! manifold that was solved, the impulses that were found for it.

use crate::body::BodySet;
use crate::constraint::{
    constraint_of, hands_back, needs_solving, AnchorGeom, ContactConstraint, PointConstraint,
    PointTerms, Recycled, WarmCandidate,
};
use crate::contact::{ContactPoint, Manifold};
use crate::contact_solve::{
    all_entries, built, entry_pushes, handed_back, island_result, terms_given, to_solve,
    GroupSpeeds, SolveScene,
};
use crate::group::groups_tile_the_islands;
use crate::grouping::{lemma_all_outcomes, outcome};
use crate::island::{
    island_of, islands_of, leaders, lemma_manifold_in_one_island, manifold_in_island,
    manifold_with, manifold_with_active_side_is_solved, manifolds_in, roots_of, Island,
};
use crate::prepare::{
    cached_points, manifold_key, prepared, solves_start_from_what_was_stored, Agreement,
    ContactPrep, PointNumbers,
};
use crate::relax::{same_contacts, ContactArith, Relaxed, Side, Speeds};
use crate::scalar::{Scalar, Vec3};
use crate::schedule::PhaseParams;
use crate::select::{
    indices_where, ints_usize, lemma_indices_where, lemma_indices_where_contains,
};
use crate::sleep::{Heat, Motion};
use crate::solver::{
    group_totals, groups_solved, outs_push, solve_went, ImpulseSolver, SolveConfig, SolveTrace,
};
use crate::stats::Counters;
use crate::warm::{
    commit_keeps_what_may_be_needed, distinct_keys, joined, solved, WarmOutEntry, WarmPoint,
};
use vstd::prelude::*;

verus! {

/// No two manifolds have the same key.
pub open spec fn keys_apart(ms: Seq<Manifold>) -> bool {
    forall|i: int, j: int|
        0 <= i < j < ms.len() ==> manifold_key(#[trigger] &ms[i]) != manifold_key(
            #[trigger] &ms[j],
        )
}

/// The entries carry the keys of the manifolds of the island that need solving, in
/// their order.
pub open spec fn keyed(
    part: Seq<WarmOutEntry>,
    isl: Island,
    ms: Seq<Manifold>,
    bodies: &BodySet,
) -> bool {
    let sel = indices_where(to_solve(isl.manifs@, ms, bodies), isl.manifs@.len());
    &&& part.len() == sel.len()
    &&& forall|i: int|
        0 <= i < part.len() ==> (#[trigger] part[i]).key == manifold_key(
            &ms[isl.manifs@[sel[i]] as int],
        )
}

proof fn lemma_island_keyed<
    A: Fn(usize, Vec3) -> Agreement,
    C: Fn(usize, ContactPoint, WarmPoint) -> WarmCandidate,
    K: Fn(usize, WarmPoint) -> Recycled,
    B: Fn(usize, ContactPoint) -> (Vec3, Vec3),
    P: Fn(usize, ContactPoint, AnchorGeom, Option<WarmPoint>) -> PointNumbers,
    W: Fn(PointConstraint, Vec3, Side, Side) -> Option<(Speeds, Speeds)>,
    D: Fn(PointConstraint, Vec3, Side, Side) -> Scalar,
    R: Fn(PointConstraint, Scalar, Vec3, Side, Side) -> Relaxed,
    H: Fn(PointConstraint, Vec3, Side, Side) -> Option<(Speeds, Speeds)>,
>(
    scene: SolveScene,
    prep: ContactPrep<A, C, K, B, P>,
    arith: ContactArith<W, D, R, H>,
    isl: Island,
    x: GroupSpeeds,
    y: GroupSpeeds,
    part: Seq<WarmOutEntry>,
    totals: (int, int),
    counts: (Counters, Counters),
)
    requires
        island_result(scene, prep, arith, isl, x, y, part, totals, counts),
    ensures
        keyed(part, isl, scene.manifolds@, scene.bodies),
{
    let (ts, tally, cs, done) = choose|
        ts: Seq<Seq<PointTerms>>,
        tally: Seq<Counters>,
        cs: Seq<ContactConstraint>,
        done: Seq<ContactConstraint>,
    |
        {
            &&& #[trigger] terms_given(
                prep,
                isl.manifs@,
                scene.manifolds@,
                scene.bodies,
                scene.table@,
                ts,
                tally,
            )
            &&& #[trigger] built(cs, isl.manifs@, scene.manifolds@, scene.bodies, scene.table@, ts)
            &&& same_contacts(cs, done)
            &&& #[trigger] handed_back(part, done)
        };
    let ms = scene.manifolds@;
    let sel = indices_where(to_solve(isl.manifs@, ms, scene.bodies), isl.manifs@.len());
    assert forall|i: int| 0 <= i < part.len() implies (#[trigger] part[i]).key == manifold_key(
        &ms[isl.manifs@[sel[i]] as int],
    ) by {
        assert(hands_back(part[i], done[i]));
        assert(constraint_of(&cs[i], &ms[isl.manifs@[sel[i]] as int], scene.table@, ts[sel[i]]));
        assert(cs[i].a == done[i].a);
    }
}

/// Which manifold an entry of an island is of.
proof fn lemma_source(
    islands: Seq<Island>,
    bodies: &BodySet,
    roots: Seq<int>,
    ms: Seq<Manifold>,
    s: int,
    part: Seq<WarmOutEntry>,
    i: int,
) -> (q: int)
    requires
        islands_of(islands, bodies, roots, ms),
        0 <= s < islands.len(),
        keyed(part, islands[s], ms, bodies),
        0 <= i < part.len(),
    ensures
        manifold_in_island(islands, s, q),
        0 <= q < ms.len(),
        part[i].key == manifold_key(&ms[q]),
        q == islands[s].manifs@[indices_where(
            to_solve(islands[s].manifs@, ms, bodies),
            islands[s].manifs@.len(),
        )[i]],
{
    let manifs = islands[s].manifs@;
    let sel = indices_where(to_solve(manifs, ms, bodies), manifs.len());
    lemma_indices_where(to_solve(manifs, ms, bodies), manifs.len());
    let q = manifs[sel[i]] as int;
    assert(ints_usize(manifs)[sel[i]] == q);
    assert(ints_usize(manifs).contains(q));
    let heads = leaders(bodies, roots, bodies.count());
    assert(island_of(&islands[s], bodies, roots, ms, roots[heads[s]]));
    lemma_indices_where_contains(
        manifold_with(bodies, roots, ms, roots[heads[s]]),
        ms.len(),
        q,
    );
    q
}

/// Entries of one island have different keys.
proof fn lemma_island_distinct(
    islands: Seq<Island>,
    bodies: &BodySet,
    roots: Seq<int>,
    ms: Seq<Manifold>,
    s: int,
    part: Seq<WarmOutEntry>,
)
    requires
        islands_of(islands, bodies, roots, ms),
        keys_apart(ms),
        0 <= s < islands.len(),
        keyed(part, islands[s], ms, bodies),
    ensures
        distinct_keys(part),
{
    let manifs = islands[s].manifs@;
    let sel = indices_where(to_solve(manifs, ms, bodies), manifs.len());
    lemma_indices_where(to_solve(manifs, ms, bodies), manifs.len());
    let heads = leaders(bodies, roots, bodies.count());
    let p = manifold_with(bodies, roots, ms, roots[heads[s]]);
    assert(island_of(&islands[s], bodies, roots, ms, roots[heads[s]]));
    lemma_indices_where(p, ms.len());
    assert forall|i: int, j: int| 0 <= i < j < part.len() implies (#[trigger] part[i]).key != (
    #[trigger] part[j]).key by {
        let u = lemma_source(islands, bodies, roots, ms, s, part, i);
        let v = lemma_source(islands, bodies, roots, ms, s, part, j);
        assert(sel[i] < sel[j]);
        assert(ints_usize(manifs)[sel[i]] == u && ints_usize(manifs)[sel[j]] == v);
        assert(indices_where(p, ms.len())[sel[i]] < indices_where(p, ms.len())[sel[j]]);
        assert(manifold_key(&ms[u]) != manifold_key(&ms[v]));
    }
}

/// The entry is one of the first `n` islands.
spec fn comes_from(parts: Seq<Seq<WarmOutEntry>>, n: int, e: WarmOutEntry) -> bool {
    exists|s: int, j: int| 0 <= s < n && 0 <= j < parts[s].len() && #[trigger] parts[s][j] == e
}

/// Every entry of the first `n` islands is one of an island, and their keys are
/// different.
proof fn lemma_entries_apart(
    islands: Seq<Island>,
    bodies: &BodySet,
    roots: Seq<int>,
    ms: Seq<Manifold>,
    parts: Seq<Seq<WarmOutEntry>>,
    n: int,
)
    requires
        islands_of(islands, bodies, roots, ms),
        keys_apart(ms),
        parts.len() == islands.len(),
        forall|s: int|
            0 <= s < parts.len() ==> keyed(#[trigger] parts[s], islands[s], ms, bodies),
        0 <= n <= parts.len(),
    ensures
        distinct_keys(all_entries(parts.take(n))),
        forall|i: int|
            0 <= i < all_entries(parts.take(n)).len() ==> comes_from(
                parts,
                n,
                #[trigger] all_entries(parts.take(n))[i],
            ),
        forall|s: int, j: int|
            0 <= s < n && 0 <= j < parts[s].len() ==> all_entries(parts.take(n)).contains(
                #[trigger] parts[s][j],
            ),
    decreases n,
{
    let all = all_entries(parts.take(n));
    if n > 0 {
        lemma_entries_apart(islands, bodies, roots, ms, parts, n - 1);
        let head = all_entries(parts.take(n - 1));
        let part = parts[n - 1];
        assert(parts.take(n).drop_last() =~= parts.take(n - 1));
        assert(parts.take(n).last() == part);
        assert(all == head + part);
        assert(keyed(part, islands[n - 1], ms, bodies));
        lemma_island_distinct(islands, bodies, roots, ms, n - 1, part);
        assert forall|i: int| 0 <= i < all.len() implies comes_from(
            parts,
            n,
            #[trigger] all[i],
        ) by {
            if i < head.len() {
                assert(all[i] == head[i]);
                assert(comes_from(parts, n - 1, head[i]));
                let (s, j) = choose|s: int, j: int|
                    0 <= s < n - 1 && 0 <= j < parts[s].len() && #[trigger] parts[s][j] == head[i];
                assert(parts[s][j] == all[i]);
            } else {
                assert(parts[n - 1][i - head.len()] == all[i]);
            }
        }
        assert forall|s: int, j: int| 0 <= s < n && 0 <= j < parts[s].len() implies all.contains(
            #[trigger] parts[s][j],
        ) by {
            if s < n - 1 {
                assert(head.contains(parts[s][j]));
                let i = choose|i: int| 0 <= i < head.len() && head[i] == parts[s][j];
                assert(all[i] == parts[s][j]);
            } else {
                assert(all[head.len() + j] == parts[s][j]);
            }
        }
        assert forall|i: int, k: int| 0 <= i < k < all.len() implies (#[trigger] all[i]).key != (
        #[trigger] all[k]).key by {
            if k < head.len() {
                assert(all[i] == head[i] && all[k] == head[k]);
            } else if i >= head.len() {
                assert(all[i] == part[i - head.len()] && all[k] == part[k - head.len()]);
            } else {
                assert(all[i] == head[i] && all[k] == part[k - head.len()]);
                assert(comes_from(parts, n - 1, head[i]));
                let (s, j) = choose|s: int, j: int|
                    0 <= s < n - 1 && 0 <= j < parts[s].len() && #[trigger] parts[s][j] == head[i];
                assert(keyed(parts[s], islands[s], ms, bodies));
                let u = lemma_source(islands, bodies, roots, ms, s, parts[s], j);
                let v = lemma_source(
                    islands,
                    bodies,
                    roots,
                    ms,
                    n - 1,
                    part,
                    k - head.len(),
                );
                if u == v {
                    lemma_manifold_in_one_island(islands, bodies, roots, ms, s, n - 1, u);
                }
                assert(manifold_key(&ms[u]) != manifold_key(&ms[v]));
            }
        }
    }
}

/// What a solve hands back: for every manifold with a point and an active side there
/// is an entry with its key, no two entries have the same key, and none pulls.
pub proof fn solves_hand_back_what_they_solve<
    A: Fn(usize, Vec3) -> Agreement,
    C: Fn(usize, ContactPoint, WarmPoint) -> WarmCandidate,
    K: Fn(usize, WarmPoint) -> Recycled,
    B: Fn(usize, ContactPoint) -> (Vec3, Vec3),
    P: Fn(usize, ContactPoint, AnchorGeom, Option<WarmPoint>) -> PointNumbers,
    W: Fn(PointConstraint, Vec3, Side, Side) -> Option<(Speeds, Speeds)>,
    D: Fn(PointConstraint, Vec3, Side, Side) -> Scalar,
    R: Fn(PointConstraint, Scalar, Vec3, Side, Side) -> Relaxed,
    H: Fn(PointConstraint, Vec3, Side, Side) -> Option<(Speeds, Speeds)>,
    M: Fn(&BodySet) -> (Vec<Heat>, Vec<Motion>),
>(
    before: &BodySet,
    after: &BodySet,
    manifolds: &[Manifold],
    config: SolveConfig,
    cleanup: bool,
    prep: ContactPrep<A, C, K, B, P>,
    arith: ContactArith<W, D, R, H>,
    measure: M,
    from: ImpulseSolver,
    to: ImpulseSolver,
    t: SolveTrace,
)
    requires
        before.wf(),
        before.count() <= u32::MAX,
        manifolds_in(manifolds@, before.count() as int),
        keys_apart(manifolds@),
        solve_went(
            before,
            after,
            manifolds,
            config,
            cleanup,
            prep,
            arith,
            measure,
            from,
            to,
            t,
        ),
    ensures
        distinct_keys(joined(t.outs, t.outs.len() as int)),
        forall|i: int|
            0 <= i < joined(t.outs, t.outs.len() as int).len() ==> entry_pushes(
                #[trigger] joined(t.outs, t.outs.len() as int)[i],
            ),
        forall|k: int|
            0 <= k < manifolds@.len() && (#[trigger] manifolds@[k]).points@.len() > 0 && (
            before.active(manifolds@[k].a as int) || before.active(manifolds@[k].b as int))
                ==> solved(
                joined(t.outs, t.outs.len() as int),
                manifold_key(&manifolds@[k]),
            ),
{
    let ms = manifolds@;
    let phase = t.phase;
    let islands = phase.islands@;
    let roots = roots_of(phase.parent@);
    let count = phase.groups.ranges@.len() as int;
    let scene = SolveScene {
        manifolds,
        bodies: before,
        table: &from.warm,
        local_of: &phase.bufs.local_of,
        params: PhaseParams::of(config.iterations, cleanup),
    };
    let (totals, tally) = choose|totals: Seq<(int, int)>, tally: Seq<Counters>|
        {
            &&& #[trigger] groups_solved(
                scene,
                prep,
                arith,
                phase,
                t.lv,
                t.av,
                t.outs,
                totals,
                tally,
            )
            &&& t.total == group_totals(totals)
            &&& tally[0] == t.counts.0
            &&& tally.last() == t.counts.1
        };
    let parts = lemma_all_outcomes(
        scene,
        prep,
        arith,
        phase,
        config.threads as int,
        config.freeze_dormant,
        t.lv,
        t.av,
        t.outs,
        totals,
        tally,
        t.moved,
        count,
    );
    let es = joined(t.outs, t.outs.len() as int);
    groups_tile_the_islands(islands.len() as int, count, 0);
    assert(parts.len() == islands.len());
    assert forall|s: int| 0 <= s < parts.len() implies keyed(
        #[trigger] parts[s],
        islands[s],
        ms,
        before,
    ) by {
        assert(outcome(
            scene,
            prep,
            arith,
            config.freeze_dormant,
            islands[s],
            t.moved,
            parts[s],
        ));
        let (x, y, sums, counts) = choose|
            x: GroupSpeeds,
            y: GroupSpeeds,
            sums: (int, int),
            counts: (Counters, Counters),
        | #[trigger]
            island_result(scene, prep, arith, islands[s], x, y, parts[s], sums, counts);
        lemma_island_keyed(scene, prep, arith, islands[s], x, y, parts[s], sums, counts);
    }
    lemma_entries_apart(islands, before, roots, ms, parts, parts.len() as int);
    assert(parts.take(parts.len() as int) =~= parts);
    lemma_joined_push(t.outs, t.outs.len() as int);
    assert forall|k: int|
        0 <= k < ms.len() && (#[trigger] ms[k]).points@.len() > 0 && (before.active(
            ms[k].a as int,
        ) || before.active(ms[k].b as int)) implies solved(es, manifold_key(&ms[k])) by {
        manifold_with_active_side_is_solved(islands, before, phase.parent@, ms, k);
        let s = choose|s: int| #[trigger] manifold_in_island(islands, s, k);
        let manifs = islands[s].manifs@;
        let p = to_solve(manifs, ms, before);
        let sel = indices_where(p, manifs.len());
        let at = choose|at: int| 0 <= at < ints_usize(manifs).len() && ints_usize(manifs)[at] == k;
        assert(manifs[at] == k);
        assert(needs_solving(&ms[k], before));
        assert(p(at));
        lemma_indices_where_contains(p, manifs.len(), at);
        let i = choose|i: int| 0 <= i < sel.len() && sel[i] == at;
        assert(keyed(parts[s], islands[s], ms, before));
        assert(parts[s][i].key == manifold_key(&ms[k]));
        assert(es.contains(parts[s][i]));
        let w = choose|w: int| 0 <= w < es.len() && es[w] == parts[s][i];
        assert(es[w].key == manifold_key(&ms[k]));
    }
}

proof fn lemma_joined_push(outs: Seq<Vec<WarmOutEntry>>, k: int)
    requires
        outs_push(outs),
        0 <= k <= outs.len(),
    ensures
        forall|i: int|
            0 <= i < joined(outs, k).len() ==> entry_pushes(#[trigger] joined(outs, k)[i]),
    decreases k,
{
    if k > 0 {
        lemma_joined_push(outs, k - 1);
        let head = joined(outs, k - 1);
        assert forall|i: int| 0 <= i < joined(outs, k).len() implies entry_pushes(
            #[trigger] joined(outs, k)[i],
        ) by {
            if i < head.len() {
                assert(joined(outs, k)[i] == head[i]);
            } else {
                assert(joined(outs, k)[i] == outs[k - 1]@[i - head.len()]);
                assert(entry_pushes(outs[k - 1]@[i - head.len()]));
            }
        }
    }
}

/// A solve starts from what the one before it found: a manifold that was solved, when
/// it comes again, finds its points in the cache; every contact that starts from a
/// cached point starts from one of those, and none of them pulls.
pub proof fn a_solve_starts_from_the_one_before<
    A: Fn(usize, Vec3) -> Agreement,
    C: Fn(usize, ContactPoint, WarmPoint) -> WarmCandidate,
    K: Fn(usize, WarmPoint) -> Recycled,
    B: Fn(usize, ContactPoint) -> (Vec3, Vec3),
    P: Fn(usize, ContactPoint, AnchorGeom, Option<WarmPoint>) -> PointNumbers,
    W: Fn(PointConstraint, Vec3, Side, Side) -> Option<(Speeds, Speeds)>,
    D: Fn(PointConstraint, Vec3, Side, Side) -> Scalar,
    R: Fn(PointConstraint, Scalar, Vec3, Side, Side) -> Relaxed,
    H: Fn(PointConstraint, Vec3, Side, Side) -> Option<(Speeds, Speeds)>,
    M: Fn(&BodySet) -> (Vec<Heat>, Vec<Motion>),
>(
    before: &BodySet,
    after: &BodySet,
    manifolds: &[Manifold],
    config: SolveConfig,
    cleanup: bool,
    prep: ContactPrep<A, C, K, B, P>,
    arith: ContactArith<W, D, R, H>,
    measure: M,
    from: ImpulseSolver,
    to: ImpulseSolver,
    t: SolveTrace,
    k: int,
    next: ContactPrep<A, C, K, B, P>,
    mi: usize,
    again: &Manifold,
    terms: Seq<PointTerms>,
    counts: (Counters, Counters),
)
    requires
        before.wf(),
        before.count() <= u32::MAX,
        manifolds_in(manifolds@, before.count() as int),
        keys_apart(manifolds@),
        from.warm@.sound(),
        from.warm@.complete(),
        from.warm@.keys_below(before.count() as int),
        from.warm@.slots.len() + manifolds@.len() <= u32::MAX,
        solve_went(
            before,
            after,
            manifolds,
            config,
            cleanup,
            prep,
            arith,
            measure,
            from,
            to,
            t,
        ),
        0 <= k < manifolds@.len(),
        manifolds@[k].points@.len() > 0,
        before.active(manifolds@[k].a as int) || before.active(manifolds@[k].b as int),
        manifold_key(again) == manifold_key(&manifolds@[k]),
        prepared(next, mi, again, to.warm@, terms, counts.0, counts.1),
    ensures
        to.warm@.sound(),
        to.warm@.complete(),
        exists|e: WarmOutEntry|
            {
                &&& #[trigger] joined(t.outs, t.outs.len() as int).contains(e)
                &&& e.key == manifold_key(again)
                &&& entry_pushes(e)
                &&& cached_points(to.warm@, manifold_key(again)) == e.value.pts_spec()
                &&& forall|j: int|
                    0 <= j < terms.len() ==> ((#[trigger] terms[j]).warm matches Some(w)
                        ==> e.value.pts_spec().contains(w))
            },
{
    solves_hand_back_what_they_solve(
        before,
        after,
        manifolds,
        config,
        cleanup,
        prep,
        arith,
        measure,
        from,
        to,
        t,
    );
    let es = joined(t.outs, t.outs.len() as int);
    let key = manifold_key(again);
    assert(solved(es, manifold_key(&manifolds@[k])));
    let i = choose|i: int| 0 <= i < es.len() && (#[trigger] es[i]).key == key;
    commit_keeps_what_may_be_needed(from.warm@, es, before.awake@, to.warm.stamp, key);
    solves_start_from_what_was_stored(
        next,
        mi,
        again,
        from.warm@,
        es,
        before.awake@,
        to.warm.stamp,
        i,
        terms,
        counts,
    );
    assert(es.contains(es[i]));
}

} // verus!
