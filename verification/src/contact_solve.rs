//! Solving the contacts of a group of islands: constraints are built, relaxed and
//! handed back to the cache, island after island.

use crate::body::BodySet;
use crate::constraint::{
    build_constraint, collect_warm, constraint_of, hands_back, lemma_point_totals, needs_solving,
    point_totals, AnchorGeom, ContactConstraint, PointConstraint, PointTerms, Recycled,
    WarmCandidate,
};
use crate::contact::{ContactPoint, Manifold};
use crate::group::{lemma_manifold_total_monotone, manifold_total, NO_LOCAL};
use crate::island::{manifolds_in, Island};
use crate::prepare::{prepared, total_prep, Agreement, ContactPrep, PointNumbers};
use crate::relax::{
    contacts_push_only, held, island_solved, places_fit, relax_island, same_contacts,
    total_contact, ContactArith, Relaxed, Side, Speeds,
};
use crate::scalar::{Scalar, Vec3};
use crate::schedule::PhaseParams;
use crate::select::{indices_where, lemma_indices_where};
use crate::stats::Counters;
use crate::warm::{entries_fit, WarmOutEntry, WarmPoint, WarmState, WarmTable, NONE};
use vstd::prelude::*;

verus! {

/// The terms of a manifold of an island, if it needs solving, and what was counted.
pub open spec fn gives_terms<
    A: Fn(usize, Vec3) -> Agreement,
    C: Fn(usize, ContactPoint, WarmPoint) -> WarmCandidate,
    K: Fn(usize, WarmPoint) -> Recycled,
    B: Fn(usize, ContactPoint) -> (Vec3, Vec3),
    P: Fn(usize, ContactPoint, AnchorGeom, Option<WarmPoint>) -> PointNumbers,
>(
    prep: ContactPrep<A, C, K, B, P>,
    mi: usize,
    m: &Manifold,
    bodies: &BodySet,
    st: WarmState,
    t: Seq<PointTerms>,
    before: Counters,
    after: Counters,
) -> bool {
    if needs_solving(m, bodies) {
        prepared(prep, mi, m, st, t, before, after)
    } else {
        after == before
    }
}

/// The terms of the manifolds of an island, and the counters before each of them and
/// after all.
pub open spec fn terms_given<
    A: Fn(usize, Vec3) -> Agreement,
    C: Fn(usize, ContactPoint, WarmPoint) -> WarmCandidate,
    K: Fn(usize, WarmPoint) -> Recycled,
    B: Fn(usize, ContactPoint) -> (Vec3, Vec3),
    P: Fn(usize, ContactPoint, AnchorGeom, Option<WarmPoint>) -> PointNumbers,
>(
    prep: ContactPrep<A, C, K, B, P>,
    manifs: Seq<usize>,
    ms: Seq<Manifold>,
    bodies: &BodySet,
    st: WarmState,
    ts: Seq<Seq<PointTerms>>,
    counts: Seq<Counters>,
) -> bool {
    &&& ts.len() == manifs.len()
    &&& counts.len() == ts.len() + 1
    &&& forall|i: int|
        0 <= i < ts.len() ==> gives_terms(
            prep,
            manifs[i],
            &ms[manifs[i] as int],
            bodies,
            st,
            #[trigger] ts[i],
            counts[i],
            counts[i + 1],
        )
}

/// Which manifolds of an island need solving.
pub open spec fn to_solve(manifs: Seq<usize>, ms: Seq<Manifold>, bodies: &BodySet) -> spec_fn(
    int,
) -> bool {
    |i: int| needs_solving(&ms[manifs[i] as int], bodies)
}

/// The constraints are those of the manifolds that need solving, in order.
pub open spec fn built(
    cs: Seq<ContactConstraint>,
    manifs: Seq<usize>,
    ms: Seq<Manifold>,
    bodies: &BodySet,
    st: WarmState,
    ts: Seq<Seq<PointTerms>>,
) -> bool {
    let sel = indices_where(to_solve(manifs, ms, bodies), manifs.len());
    &&& cs.len() == sel.len()
    &&& forall|j: int|
        0 <= j < cs.len() ==> constraint_of(
            #[trigger] &cs[j],
            &ms[manifs[sel[j]] as int],
            st,
            ts[sel[j]],
        )
}

/// The bodies of a manifold have places inside lists of `n`.
pub open spec fn manifold_fits(m: &Manifold, local_of: Seq<u32>, n: nat) -> bool {
    &&& m.a < local_of.len()
    &&& m.b < local_of.len()
    &&& local_of[m.a as int] == NO_LOCAL || local_of[m.a as int] < n
    &&& local_of[m.b as int] == NO_LOCAL || local_of[m.b as int] < n
}

/// The bodies of all manifolds of an island have places inside lists of `n`.
pub open spec fn island_fits(
    isl: &Island,
    ms: Seq<Manifold>,
    local_of: Seq<u32>,
    n: nat,
) -> bool {
    forall|k: int|
        0 <= k < isl.manifs@.len() ==> (#[trigger] isl.manifs@[k]) < ms.len() && manifold_fits(
            &ms[isl.manifs@[k] as int],
            local_of,
            n,
        )
}

fn build_island<
    A: Fn(usize, Vec3) -> Agreement,
    C: Fn(usize, ContactPoint, WarmPoint) -> WarmCandidate,
    K: Fn(usize, WarmPoint) -> Recycled,
    B: Fn(usize, ContactPoint) -> (Vec3, Vec3),
    P: Fn(usize, ContactPoint, AnchorGeom, Option<WarmPoint>) -> PointNumbers,
>(
    isl: &Island,
    manifolds: &[Manifold],
    bodies: &BodySet,
    table: &WarmTable,
    prep: &ContactPrep<A, C, K, B, P>,
    counters: &mut Counters,
    Ghost(local_of): Ghost<Seq<u32>>,
    Ghost(n): Ghost<nat>,
) -> (r: (Vec<ContactConstraint>, Ghost<Seq<Seq<PointTerms>>>, Ghost<Seq<Counters>>))
    requires
        bodies.wf(),
        manifolds_in(manifolds@, bodies.count() as int),
        table@.sound(),
        total_prep(*prep),
        island_fits(isl, manifolds@, local_of, n),
    ensures
        terms_given(*prep, isl.manifs@, manifolds@, bodies, table@, r.1@, r.2@),
        r.2@[0] == *old(counters),
        r.2@.last() == *final(counters),
        built(r.0@, isl.manifs@, manifolds@, bodies, table@, r.1@),
        places_fit(r.0@, local_of, n),
        r.0@.len() <= isl.manifs@.len(),
        forall|c: int| 0 <= c < r.0@.len() ==> (#[trigger] r.0@[c]).points@.len() <= 4,
{
    let ghost manifs = isl.manifs@;
    let ghost p = to_solve(manifs, manifolds@, bodies);
    let mut cs: Vec<ContactConstraint> = Vec::new();
    let ghost mut ts: Seq<Seq<PointTerms>> = Seq::empty();
    let ghost mut counts: Seq<Counters> = seq![*counters];
    let mut k: usize = 0;
    while k < isl.manifs.len()
        invariant
            k <= manifs.len(),
            manifs == isl.manifs@,
            p == to_solve(manifs, manifolds@, bodies),
            bodies.wf(),
            manifolds_in(manifolds@, bodies.count() as int),
            table@.sound(),
            total_prep(*prep),
            island_fits(isl, manifolds@, local_of, n),
            ts.len() == k,
            counts.len() == k + 1,
            counts[0] == *old(counters),
            counts.last() == *counters,
            forall|i: int|
                0 <= i < ts.len() ==> gives_terms(
                    *prep,
                    manifs[i],
                    &manifolds@[manifs[i] as int],
                    bodies,
                    table@,
                    #[trigger] ts[i],
                    counts[i],
                    counts[i + 1],
                ),
            cs@.len() == indices_where(p, k as nat).len(),
            cs@.len() <= k,
            forall|j: int|
                0 <= j < cs@.len() ==> constraint_of(
                    #[trigger] &cs@[j],
                    &manifolds@[manifs[indices_where(p, k as nat)[j]] as int],
                    table@,
                    ts[indices_where(p, k as nat)[j]],
                ),
            places_fit(cs@, local_of, n),
            forall|c: int| 0 <= c < cs@.len() ==> (#[trigger] cs@[c]).points@.len() <= 4,
        decreases manifs.len() - k,
    {
        let mi: usize = isl.manifs[k];
        assert(manifs[k as int] < manifolds@.len());
        let m: &Manifold = &manifolds[mi];
        assert(manifolds@[mi as int].a < bodies.count());
        let ghost before = cs@;
        let ghost sel = indices_where(p, k as nat);
        let ghost old_ts = ts;
        let ghost old_counts = counts;
        let ghost c0 = *counters;
        build_constraint(&mut cs, mi, m, bodies, table, prep, counters);
        proof {
            lemma_indices_where(p, k as nat);
            let c1 = *counters;
            let t: Seq<PointTerms> = if p(k as int) {
                choose|t: Seq<PointTerms>|
                    {
                        &&& #[trigger] prepared(*prep, mi, m, table@, t, c0, c1)
                        &&& constraint_of(&cs@.last(), m, table@, t)
                    }
            } else {
                Seq::empty()
            };
            assert(gives_terms(*prep, mi, m, bodies, table@, t, c0, c1));
            ts = ts.push(t);
            counts = counts.push(c1);
            assert forall|i: int| 0 <= i < ts.len() implies gives_terms(
                *prep,
                manifs[i],
                &manifolds@[manifs[i] as int],
                bodies,
                table@,
                #[trigger] ts[i],
                counts[i],
                counts[i + 1],
            ) by {
                if i < k {
                    assert(ts[i] == old_ts[i]);
                    assert(counts[i] == old_counts[i]);
                    assert(counts[i + 1] == old_counts[i + 1]);
                }
            }
            assert forall|j: int| 0 <= j < before.len() implies constraint_of(
                &before[j],
                &manifolds@[manifs[sel[j]] as int],
                table@,
                ts[sel[j]],
            ) by {
                assert(constraint_of(
                    &before[j],
                    &manifolds@[manifs[sel[j]] as int],
                    table@,
                    old_ts[sel[j]],
                ));
                assert(ts[sel[j]] == old_ts[sel[j]]);
            }
            if p(k as int) {
                assert(indices_where(p, (k + 1) as nat) == sel.push(k as int));
                assert(cs@.drop_last() == before);
                assert forall|j: int| 0 <= j < cs@.len() implies constraint_of(
                    #[trigger] &cs@[j],
                    &manifolds@[manifs[indices_where(p, (k + 1) as nat)[j]] as int],
                    table@,
                    ts[indices_where(p, (k + 1) as nat)[j]],
                ) by {
                    if j < before.len() {
                        assert(cs@[j] == cs@.drop_last()[j]);
                        assert(before[j] == cs@[j]);
                    }
                }
                assert forall|c: int| 0 <= c < cs@.len() implies {
                    &&& (#[trigger] cs@[c]).a < local_of.len()
                    &&& cs@[c].b < local_of.len()
                    &&& local_of[cs@[c].a as int] == NO_LOCAL || local_of[cs@[c].a as int] < n
                    &&& local_of[cs@[c].b as int] == NO_LOCAL || local_of[cs@[c].b as int] < n
                } by {
                    if c < before.len() {
                        assert(cs@[c] == cs@.drop_last()[c]);
                        assert(before[c].a < local_of.len());
                    } else {
                        assert(manifold_fits(m, local_of, n));
                    }
                }
                assert forall|c: int| 0 <= c < cs@.len() implies (#[trigger] cs@[c]).points@.len()
                    <= 4 by {
                    if c < before.len() {
                        assert(cs@[c] == cs@.drop_last()[c]);
                        assert(before[c].points@.len() <= 4);
                    }
                }
            } else {
                assert(indices_where(p, (k + 1) as nat) == sel);
                assert(cs@ == before);
            }
        }
        k += 1;
    }
    (cs, Ghost(ts), Ghost(counts))
}

/// The scene that a group is solved in.
pub struct SolveScene<'a> {
    pub manifolds: &'a [Manifold],
    pub bodies: &'a BodySet,
    pub table: &'a WarmTable,
    pub local_of: &'a Vec<u32>,
    pub params: PhaseParams,
}

/// The linear and angular speeds of a group.
pub struct GroupSpeeds {
    pub lv: Seq<Vec3>,
    pub av: Seq<Vec3>,
}

/// Every entry hands the points of its constraint back.
pub open spec fn handed_back(
    entries: Seq<WarmOutEntry>,
    done: Seq<ContactConstraint>,
) -> bool {
    &&& entries.len() == done.len()
    &&& forall|i: int| 0 <= i < done.len() ==> hands_back(#[trigger] entries[i], done[i])
}

/// No normal impulse that the entry hands back is negative.
pub open spec fn entry_pushes(e: WarmOutEntry) -> bool {
    forall|k: int|
        0 <= k < e.value.pts_spec().len() ==> !(#[trigger] e.value.pts_spec()[k]).pn.lt_spec(
            Scalar::zero_spec(),
        )
}

/// An island was solved: its constraints were built and relaxed, and their points
/// handed back and counted.
pub open spec fn island_result<
    A: Fn(usize, Vec3) -> Agreement,
    C: Fn(usize, ContactPoint, WarmPoint) -> WarmCandidate,
    K: Fn(usize, WarmPoint) -> Recycled,
    B: Fn(usize, ContactPoint) -> (Vec3, Vec3),
    P: Fn(usize, ContactPoint, AnchorGeom, Option<WarmPoint>) -> PointNumbers,
    W: Fn(PointConstraint, Vec3, Side, Side) -> Option<(Speeds, Speeds)>,
    D: Fn(PointConstraint, Vec3, Side, Side) -> Scalar,
    R: Fn(PointConstraint, Scalar, Vec3, Side, Side) -> Relaxed,
    H: Fn(PointConstraint, Vec3, Side, Side) -> Option<(Speeds, Speeds)>,
>(
    scene: SolveScene,
    prep: ContactPrep<A, C, K, B, P>,
    arith: ContactArith<W, D, R, H>,
    isl: Island,
    x: GroupSpeeds,
    y: GroupSpeeds,
    entries: Seq<WarmOutEntry>,
    totals: (int, int),
    counts: (Counters, Counters),
) -> bool {
    let zero = Scalar::zero_spec();
    exists|
        ts: Seq<Seq<PointTerms>>,
        tally: Seq<Counters>,
        cs: Seq<ContactConstraint>,
        done: Seq<ContactConstraint>,
    |
        {
            &&& #[trigger] terms_given(
                prep,
                isl.manifs@,
                scene.manifolds@,
                scene.bodies,
                scene.table@,
                ts,
                tally,
            )
            &&& tally[0] == counts.0
            &&& tally.last() == counts.1
            &&& #[trigger] built(
                cs,
                isl.manifs@,
                scene.manifolds@,
                scene.bodies,
                scene.table@,
                ts,
            )
            &&& island_solved(
                arith,
                cs,
                scene.local_of@,
                scene.params,
                held(cs, x.lv, x.av, zero),
                held(done, y.lv, y.av, zero),
            )
            &&& same_contacts(cs, done)
            &&& #[trigger] handed_back(entries, done)
            &&& totals == point_totals(done)
        }
}

/// The scene is sound and has places for the islands from `lo` up to `hi`.
pub open spec fn scene_fits<
    A: Fn(usize, Vec3) -> Agreement,
    C: Fn(usize, ContactPoint, WarmPoint) -> WarmCandidate,
    K: Fn(usize, WarmPoint) -> Recycled,
    B: Fn(usize, ContactPoint) -> (Vec3, Vec3),
    P: Fn(usize, ContactPoint, AnchorGeom, Option<WarmPoint>) -> PointNumbers,
>(
    scene: SolveScene,
    prep: ContactPrep<A, C, K, B, P>,
    islands: Seq<Island>,
    lo: int,
    hi: int,
    n: nat,
) -> bool {
    &&& scene.bodies.wf()
    &&& manifolds_in(scene.manifolds@, scene.bodies.count() as int)
    &&& scene.table@.sound()
    &&& total_prep(prep)
    &&& forall|s: int|
        lo <= s < hi ==> island_fits(
            #[trigger] &islands[s],
            scene.manifolds@,
            scene.local_of@,
            n,
        )
}

/// Solves an island, adds what it hands back, and returns how many points it has
/// and how many of them are idle.
pub fn solve_island<
    A: Fn(usize, Vec3) -> Agreement,
    C: Fn(usize, ContactPoint, WarmPoint) -> WarmCandidate,
    K: Fn(usize, WarmPoint) -> Recycled,
    B: Fn(usize, ContactPoint) -> (Vec3, Vec3),
    P: Fn(usize, ContactPoint, AnchorGeom, Option<WarmPoint>) -> PointNumbers,
    W: Fn(PointConstraint, Vec3, Side, Side) -> Option<(Speeds, Speeds)>,
    D: Fn(PointConstraint, Vec3, Side, Side) -> Scalar,
    R: Fn(PointConstraint, Scalar, Vec3, Side, Side) -> Relaxed,
    H: Fn(PointConstraint, Vec3, Side, Side) -> Option<(Speeds, Speeds)>,
>(
    scene: &SolveScene,
    prep: &ContactPrep<A, C, K, B, P>,
    arith: &ContactArith<W, D, R, H>,
    isl: &Island,
    lv: &mut Vec<Vec3>,
    av: &mut Vec<Vec3>,
    out: &mut Vec<WarmOutEntry>,
    counters: &mut Counters,
) -> (r: (u64, u64))
    requires
        total_contact(*arith),
        old(lv)@.len() == old(av)@.len(),
        scene.bodies.wf(),
        manifolds_in(scene.manifolds@, scene.bodies.count() as int),
        scene.table@.sound(),
        total_prep(*prep),
        island_fits(isl, scene.manifolds@, scene.local_of@, old(lv)@.len()),
        4 * isl.manifs@.len() <= u64::MAX,
    ensures
        final(lv)@.len() == old(lv)@.len(),
        final(av)@.len() == old(av)@.len(),
        r.0 <= 4 * isl.manifs@.len(),
        r.1 <= r.0,
        forall|i: int|
            scene.params.iters >= 1 && old(out)@.len() <= i < final(out)@.len() ==> entry_pushes(
                #[trigger] final(out)@[i],
            ),
        exists|entries: Seq<WarmOutEntry>|
            final(out)@ == old(out)@ + entries && entries.len() <= isl.manifs@.len()
                && #[trigger] island_result(
                *scene,
                *prep,
                *arith,
                *isl,
                (GroupSpeeds { lv: old(lv)@, av: old(av)@ }),
                (GroupSpeeds { lv: final(lv)@, av: final(av)@ }),
                entries,
                (r.0 as int, r.1 as int),
                (*old(counters), *final(counters)),
            ),
{
    let ghost c0 = *counters;
    let ghost x = GroupSpeeds { lv: lv@, av: av@ };
    let ghost out0 = out@;
    let (mut cs, Ghost(ts), Ghost(tally)) = build_island(
        isl,
        scene.manifolds,
        scene.bodies,
        scene.table,
        prep,
        counters,
        Ghost(scene.local_of@),
        Ghost(lv@.len()),
    );
    let ghost cs0 = cs@;
    relax_island(arith, &mut cs, scene.local_of.as_slice(), lv, av, &scene.params);
    proof {
        assert forall|c: int| 0 <= c < cs@.len() implies (#[trigger] cs@[c]).points@.len() <= 4 by {
            assert(cs0[c].points@.len() <= 4);
        }
        lemma_point_totals(cs@);
    }
    let r = collect_warm(&cs, out);
    proof {
        let entries = out@.subrange(out0.len() as int, out@.len() as int);
        assert(out@ =~= out0 + entries);
        assert forall|i: int| 0 <= i < cs@.len() implies hands_back(
            #[trigger] entries[i],
            cs@[i],
        ) by {
            assert(entries[i] == out@[out0.len() + i]);
        }
        assert(handed_back(entries, cs@));
        if scene.params.iters >= 1 {
            contacts_push_only(
                *arith,
                cs0,
                scene.local_of@,
                scene.params,
                held(cs0, x.lv, x.av, Scalar::zero_spec()),
                held(cs@, lv@, av@, Scalar::zero_spec()),
            );
            assert forall|i: int| out0.len() <= i < out@.len() implies entry_pushes(
                #[trigger] out@[i],
            ) by {
                let e = entries[i - out0.len()];
                let c = cs@[i - out0.len()];
                assert(e == out@[i]);
                assert(hands_back(e, c));
                assert forall|k: int| 0 <= k < e.value.pts_spec().len() implies !(
                #[trigger] e.value.pts_spec()[k]).pn.lt_spec(Scalar::zero_spec()) by {
                    assert(e.value.pts_spec()[k] == c.points@[k].kept_spec());
                    let points = held(cs@, lv@, av@, Scalar::zero_spec()).points;
                    assert(points[i - out0.len()] == c.points@);
                    assert(crate::relax::pushes(points[i - out0.len()][k]));
                }
            }
        }
        assert(island_result(
            *scene,
            *prep,
            *arith,
            *isl,
            x,
            (GroupSpeeds { lv: lv@, av: av@ }),
            entries,
            (r.0 as int, r.1 as int),
            (c0, *counters),
        ));
    }
    r
}

/// The lists one after the other.
pub open spec fn all_entries(parts: Seq<Seq<WarmOutEntry>>) -> Seq<WarmOutEntry>
    decreases parts.len(),
{
    if parts.len() == 0 {
        Seq::empty()
    } else {
        all_entries(parts.drop_last()) + parts.last()
    }
}

/// The sums of the counts.
pub open spec fn sum_totals(totals: Seq<(int, int)>) -> (int, int)
    decreases totals.len(),
{
    if totals.len() == 0 {
        (0, 0)
    } else {
        let (n, z) = sum_totals(totals.drop_last());
        (n + totals.last().0, z + totals.last().1)
    }
}

/// The islands from `lo` on were solved one after the other.
pub open spec fn islands_run<
    A: Fn(usize, Vec3) -> Agreement,
    C: Fn(usize, ContactPoint, WarmPoint) -> WarmCandidate,
    K: Fn(usize, WarmPoint) -> Recycled,
    B: Fn(usize, ContactPoint) -> (Vec3, Vec3),
    P: Fn(usize, ContactPoint, AnchorGeom, Option<WarmPoint>) -> PointNumbers,
    W: Fn(PointConstraint, Vec3, Side, Side) -> Option<(Speeds, Speeds)>,
    D: Fn(PointConstraint, Vec3, Side, Side) -> Scalar,
    R: Fn(PointConstraint, Scalar, Vec3, Side, Side) -> Relaxed,
    H: Fn(PointConstraint, Vec3, Side, Side) -> Option<(Speeds, Speeds)>,
>(
    scene: SolveScene,
    prep: ContactPrep<A, C, K, B, P>,
    arith: ContactArith<W, D, R, H>,
    islands: Seq<Island>,
    lo: int,
    speeds: Seq<GroupSpeeds>,
    parts: Seq<Seq<WarmOutEntry>>,
    totals: Seq<(int, int)>,
    counts: Seq<Counters>,
) -> bool {
    &&& speeds.len() == parts.len() + 1
    &&& totals.len() == parts.len()
    &&& counts.len() == parts.len() + 1
    &&& forall|k: int|
        0 <= k < parts.len() ==> island_result(
            scene,
            prep,
            arith,
            islands[lo + k],
            speeds[k],
            speeds[k + 1],
            #[trigger] parts[k],
            totals[k],
            (counts[k], counts[k + 1]),
        )
}

/// A group was solved: its islands, from `lo` up to `hi`.
pub open spec fn group_result<
    A: Fn(usize, Vec3) -> Agreement,
    C: Fn(usize, ContactPoint, WarmPoint) -> WarmCandidate,
    K: Fn(usize, WarmPoint) -> Recycled,
    B: Fn(usize, ContactPoint) -> (Vec3, Vec3),
    P: Fn(usize, ContactPoint, AnchorGeom, Option<WarmPoint>) -> PointNumbers,
    W: Fn(PointConstraint, Vec3, Side, Side) -> Option<(Speeds, Speeds)>,
    D: Fn(PointConstraint, Vec3, Side, Side) -> Scalar,
    R: Fn(PointConstraint, Scalar, Vec3, Side, Side) -> Relaxed,
    H: Fn(PointConstraint, Vec3, Side, Side) -> Option<(Speeds, Speeds)>,
>(
    scene: SolveScene,
    prep: ContactPrep<A, C, K, B, P>,
    arith: ContactArith<W, D, R, H>,
    islands: Seq<Island>,
    lo: int,
    hi: int,
    x: GroupSpeeds,
    y: GroupSpeeds,
    entries: Seq<WarmOutEntry>,
    total: (int, int),
    counts: (Counters, Counters),
) -> bool {
    exists|
        speeds: Seq<GroupSpeeds>,
        parts: Seq<Seq<WarmOutEntry>>,
        totals: Seq<(int, int)>,
        tally: Seq<Counters>,
    |
        {
            &&& #[trigger] islands_run(
                scene,
                prep,
                arith,
                islands,
                lo,
                speeds,
                parts,
                totals,
                tally,
            )
            &&& tally[0] == counts.0
            &&& tally.last() == counts.1
            &&& parts.len() == hi - lo
            &&& speeds[0] == x
            &&& speeds.last() == y
            &&& entries == all_entries(parts)
            &&& total == sum_totals(totals)
        }
}

/// Solves the islands from `lo` up to `hi`, collects what they hand back, and
/// returns how many points they have and how many of them are idle.
pub fn solve_island_group<
    A: Fn(usize, Vec3) -> Agreement,
    C: Fn(usize, ContactPoint, WarmPoint) -> WarmCandidate,
    K: Fn(usize, WarmPoint) -> Recycled,
    B: Fn(usize, ContactPoint) -> (Vec3, Vec3),
    P: Fn(usize, ContactPoint, AnchorGeom, Option<WarmPoint>) -> PointNumbers,
    W: Fn(PointConstraint, Vec3, Side, Side) -> Option<(Speeds, Speeds)>,
    D: Fn(PointConstraint, Vec3, Side, Side) -> Scalar,
    R: Fn(PointConstraint, Scalar, Vec3, Side, Side) -> Relaxed,
    H: Fn(PointConstraint, Vec3, Side, Side) -> Option<(Speeds, Speeds)>,
>(
    scene: &SolveScene,
    prep: &ContactPrep<A, C, K, B, P>,
    arith: &ContactArith<W, D, R, H>,
    islands: &[Island],
    lo: usize,
    hi: usize,
    lv: &mut Vec<Vec3>,
    av: &mut Vec<Vec3>,
    counters: &mut Counters,
) -> (r: (Vec<WarmOutEntry>, (u64, u64)))
    requires
        total_contact(*arith),
        lo <= hi <= islands@.len(),
        old(lv)@.len() == old(av)@.len(),
        scene_fits(*scene, *prep, islands@, lo as int, hi as int, old(lv)@.len()),
        4 * manifold_total(islands@, lo as int, hi as int) <= u64::MAX,
    ensures
        final(lv)@.len() == old(lv)@.len(),
        final(av)@.len() == old(av)@.len(),
        r.0@.len() <= manifold_total(islands@, lo as int, hi as int),
        r.1.0 <= 4 * manifold_total(islands@, lo as int, hi as int),
        r.1.1 <= r.1.0,
        group_result(
            *scene,
            *prep,
            *arith,
            islands@,
            lo as int,
            hi as int,
            (GroupSpeeds { lv: old(lv)@, av: old(av)@ }),
            (GroupSpeeds { lv: final(lv)@, av: final(av)@ }),
            r.0@,
            (r.1.0 as int, r.1.1 as int),
            (*old(counters), *final(counters)),
        ),
        scene.params.iters >= 1 ==> forall|i: int|
            0 <= i < r.0@.len() ==> entry_pushes(#[trigger] r.0@[i]),
{
    let ghost x = GroupSpeeds { lv: lv@, av: av@ };
    let ghost n0 = lv@.len();
    let ghost mut speeds: Seq<GroupSpeeds> = seq![x];
    let ghost mut parts: Seq<Seq<WarmOutEntry>> = Seq::empty();
    let ghost mut totals: Seq<(int, int)> = Seq::empty();
    let ghost mut counts: Seq<Counters> = seq![*counters];
    let mut out: Vec<WarmOutEntry> = Vec::new();
    let mut points: u64 = 0;
    let mut idle: u64 = 0;
    let mut s: usize = lo;
    assert(out@ =~= all_entries(parts));
    while s < hi
        invariant
            lo <= s <= hi,
            hi <= islands@.len(),
            total_contact(*arith),
            lv@.len() == n0,
            av@.len() == n0,
            scene_fits(*scene, *prep, islands@, lo as int, hi as int, n0),
            4 * manifold_total(islands@, lo as int, hi as int) <= u64::MAX,
            parts.len() == s - lo,
            islands_run(
                *scene,
                *prep,
                *arith,
                islands@,
                lo as int,
                speeds,
                parts,
                totals,
                counts,
            ),
            counts[0] == *old(counters),
            counts.last() == *counters,
            speeds[0] == x,
            speeds.last() == (GroupSpeeds { lv: lv@, av: av@ }),
            out@ == all_entries(parts),
            (points as int, idle as int) == sum_totals(totals),
            out@.len() <= manifold_total(islands@, lo as int, s as int),
            points <= 4 * manifold_total(islands@, lo as int, s as int),
            idle <= points,
            forall|i: int|
                scene.params.iters >= 1 && 0 <= i < out@.len() ==> entry_pushes(
                    #[trigger] out@[i],
                ),
        decreases hi - s,
    {
        proof {
            lemma_total_step(islands@, lo as int, s as int, hi as int);
            assert(island_fits(
                &islands@[s as int],
                scene.manifolds@,
                scene.local_of@,
                n0,
            ));
        }
        let ghost out0 = out@;
        let ghost before = GroupSpeeds { lv: lv@, av: av@ };
        let ghost c0 = *counters;
        let (n, z) = solve_island(scene, prep, arith, &islands[s], lv, av, &mut out, counters);
        proof {
            let after = GroupSpeeds { lv: lv@, av: av@ };
            let entries = choose|entries: Seq<WarmOutEntry>|
                out@ == out0 + entries && entries.len() <= islands@[s as int].manifs@.len()
                    && #[trigger] island_result(
                    *scene,
                    *prep,
                    *arith,
                    islands@[s as int],
                    before,
                    after,
                    entries,
                    (n as int, z as int),
                    (c0, *counters),
                );
            assert forall|i: int| scene.params.iters >= 1 && 0 <= i < out@.len() implies entry_pushes(
                #[trigger] out@[i],
            ) by {
                if i < out0.len() {
                    assert(out@[i] == out0[i]);
                }
            }
            let (old_speeds, old_parts, old_totals) = (speeds, parts, totals);
            let old_counts = counts;
            counts = counts.push(*counters);
            speeds = speeds.push(after);
            parts = parts.push(entries);
            totals = totals.push((n as int, z as int));
            assert(parts.drop_last() =~= old_parts);
            assert(totals.drop_last() =~= old_totals);
            assert forall|k: int| 0 <= k < parts.len() implies island_result(
                *scene,
                *prep,
                *arith,
                islands@[lo + k],
                speeds[k],
                speeds[k + 1],
                #[trigger] parts[k],
                totals[k],
                (counts[k], counts[k + 1]),
            ) by {
                assert(speeds[k] == old_speeds[k]);
                assert(counts[k] == old_counts[k]);
                if k < old_parts.len() {
                    assert(parts[k] == old_parts[k]);
                    assert(speeds[k + 1] == old_speeds[k + 1]);
                    assert(totals[k] == old_totals[k]);
                    assert(counts[k + 1] == old_counts[k + 1]);
                }
            }
        }
        points = points + n;
        idle = idle + z;
        s += 1;
    }
    (out, (points, idle))
}

proof fn lemma_total_step(islands: Seq<Island>, lo: int, s: int, hi: int)
    requires
        0 <= lo <= s < hi,
    ensures
        manifold_total(islands, lo, s + 1) == manifold_total(islands, lo, s)
            + islands[s].manifs@.len(),
        manifold_total(islands, lo, s + 1) <= manifold_total(islands, lo, hi),
        0 <= manifold_total(islands, lo, s),
{
    lemma_manifold_total_monotone(islands, lo, s + 1, hi);
    lemma_manifold_total_monotone(islands, lo, lo, s);
}

proof fn lemma_island_entries<
    A: Fn(usize, Vec3) -> Agreement,
    C: Fn(usize, ContactPoint, WarmPoint) -> WarmCandidate,
    K: Fn(usize, WarmPoint) -> Recycled,
    B: Fn(usize, ContactPoint) -> (Vec3, Vec3),
    P: Fn(usize, ContactPoint, AnchorGeom, Option<WarmPoint>) -> PointNumbers,
    W: Fn(PointConstraint, Vec3, Side, Side) -> Option<(Speeds, Speeds)>,
    D: Fn(PointConstraint, Vec3, Side, Side) -> Scalar,
    R: Fn(PointConstraint, Scalar, Vec3, Side, Side) -> Relaxed,
    H: Fn(PointConstraint, Vec3, Side, Side) -> Option<(Speeds, Speeds)>,
>(
    scene: SolveScene,
    prep: ContactPrep<A, C, K, B, P>,
    arith: ContactArith<W, D, R, H>,
    isl: Island,
    x: GroupSpeeds,
    y: GroupSpeeds,
    entries: Seq<WarmOutEntry>,
    totals: (int, int),
    counts: (Counters, Counters),
)
    requires
        island_result(scene, prep, arith, isl, x, y, entries, totals, counts),
        manifolds_in(scene.manifolds@, scene.bodies.count() as int),
        scene.bodies.count() <= u32::MAX,
        scene.table@.sound(),
        forall|k: int| 0 <= k < isl.manifs@.len() ==> (#[trigger] isl.manifs@[k]) < scene.manifolds@.len(),
    ensures
        entries_fit(scene.table@, entries, scene.bodies.count() as int),
{
    let zero = Scalar::zero_spec();
    let (ts, tally, cs, done) = choose|
        ts: Seq<Seq<PointTerms>>,
        tally: Seq<Counters>,
        cs: Seq<ContactConstraint>,
        done: Seq<ContactConstraint>,
    |
        {
            &&& #[trigger] terms_given(
                prep,
                isl.manifs@,
                scene.manifolds@,
                scene.bodies,
                scene.table@,
                ts,
                tally,
            )
            &&& tally[0] == counts.0
            &&& tally.last() == counts.1
            &&& #[trigger] built(
                cs,
                isl.manifs@,
                scene.manifolds@,
                scene.bodies,
                scene.table@,
                ts,
            )
            &&& island_solved(
                arith,
                cs,
                scene.local_of@,
                scene.params,
                held(cs, x.lv, x.av, zero),
                held(done, y.lv, y.av, zero),
            )
            &&& same_contacts(cs, done)
            &&& #[trigger] handed_back(entries, done)
            &&& totals == point_totals(done)
        };
    let p = to_solve(isl.manifs@, scene.manifolds@, scene.bodies);
    let sel = indices_where(p, isl.manifs@.len());
    lemma_indices_where(p, isl.manifs@.len());
    let n = scene.bodies.count() as int;
    let st = scene.table@;
    assert forall|i: int| 0 <= i < entries.len() implies {
        let e = #[trigger] entries[i];
        &&& e.key.a < n
        &&& e.key.b < n
        &&& e.key.a != NONE
        &&& if e.slot == NONE {
            !st.has(e.key)
        } else {
            st.has(e.key) && st.index[e.key.packed_spec()] == e.slot
        }
    } by {
        assert(hands_back(entries[i], done[i]));
        assert(cs[i].a == done[i].a);
        let m = scene.manifolds@[isl.manifs@[sel[i]] as int];
        assert(constraint_of(&cs[i], &m, st, ts[sel[i]]));
        assert(isl.manifs@[sel[i]] < scene.manifolds@.len());
        assert(m.a < n && m.b < n);
    }
}

proof fn lemma_run_entries<
    A: Fn(usize, Vec3) -> Agreement,
    C: Fn(usize, ContactPoint, WarmPoint) -> WarmCandidate,
    K: Fn(usize, WarmPoint) -> Recycled,
    B: Fn(usize, ContactPoint) -> (Vec3, Vec3),
    P: Fn(usize, ContactPoint, AnchorGeom, Option<WarmPoint>) -> PointNumbers,
    W: Fn(PointConstraint, Vec3, Side, Side) -> Option<(Speeds, Speeds)>,
    D: Fn(PointConstraint, Vec3, Side, Side) -> Scalar,
    R: Fn(PointConstraint, Scalar, Vec3, Side, Side) -> Relaxed,
    H: Fn(PointConstraint, Vec3, Side, Side) -> Option<(Speeds, Speeds)>,
>(
    scene: SolveScene,
    prep: ContactPrep<A, C, K, B, P>,
    arith: ContactArith<W, D, R, H>,
    islands: Seq<Island>,
    lo: int,
    speeds: Seq<GroupSpeeds>,
    parts: Seq<Seq<WarmOutEntry>>,
    totals: Seq<(int, int)>,
    counts: Seq<Counters>,
    k: int,
)
    requires
        islands_run(scene, prep, arith, islands, lo, speeds, parts, totals, counts),
        manifolds_in(scene.manifolds@, scene.bodies.count() as int),
        scene.bodies.count() <= u32::MAX,
        scene.table@.sound(),
        0 <= k <= parts.len(),
        forall|s: int, q: int|
            lo <= s < lo + parts.len() && 0 <= q < islands[s].manifs@.len()
                ==> (#[trigger] islands[s].manifs@[q]) < scene.manifolds@.len(),
    ensures
        entries_fit(scene.table@, all_entries(parts.take(k)), scene.bodies.count() as int),
    decreases k,
{
    if k > 0 {
        lemma_run_entries(scene, prep, arith, islands, lo, speeds, parts, totals, counts, k - 1);
        assert(parts.take(k).drop_last() =~= parts.take(k - 1));
        assert(parts.take(k).last() == parts[k - 1]);
        lemma_island_entries(
            scene,
            prep,
            arith,
            islands[lo + k - 1],
            speeds[k - 1],
            speeds[k],
            parts[k - 1],
            totals[k - 1],
            (counts[k - 1], counts[k]),
        );
        let before = all_entries(parts.take(k - 1));
        let all = all_entries(parts.take(k));
        assert(all == before + parts[k - 1]);
        assert forall|i: int| 0 <= i < all.len() implies {
            let e = #[trigger] all[i];
            &&& e.key.a < scene.bodies.count()
            &&& e.key.b < scene.bodies.count()
            &&& e.key.a != NONE
            &&& if e.slot == NONE {
                !scene.table@.has(e.key)
            } else {
                scene.table@.has(e.key) && scene.table@.index[e.key.packed_spec()] == e.slot
            }
        } by {
            if i < before.len() {
                assert(all[i] == before[i]);
            } else {
                assert(all[i] == parts[k - 1][i - before.len()]);
            }
        }
    }
}

/// What a group hands back fits the cache it was built from: every entry names
/// existing bodies and the slot its key leads to.
pub proof fn group_entries_fit<
    A: Fn(usize, Vec3) -> Agreement,
    C: Fn(usize, ContactPoint, WarmPoint) -> WarmCandidate,
    K: Fn(usize, WarmPoint) -> Recycled,
    B: Fn(usize, ContactPoint) -> (Vec3, Vec3),
    P: Fn(usize, ContactPoint, AnchorGeom, Option<WarmPoint>) -> PointNumbers,
    W: Fn(PointConstraint, Vec3, Side, Side) -> Option<(Speeds, Speeds)>,
    D: Fn(PointConstraint, Vec3, Side, Side) -> Scalar,
    R: Fn(PointConstraint, Scalar, Vec3, Side, Side) -> Relaxed,
    H: Fn(PointConstraint, Vec3, Side, Side) -> Option<(Speeds, Speeds)>,
>(
    scene: SolveScene,
    prep: ContactPrep<A, C, K, B, P>,
    arith: ContactArith<W, D, R, H>,
    islands: Seq<Island>,
    lo: int,
    hi: int,
    x: GroupSpeeds,
    y: GroupSpeeds,
    entries: Seq<WarmOutEntry>,
    total: (int, int),
    counts: (Counters, Counters),
)
    requires
        group_result(scene, prep, arith, islands, lo, hi, x, y, entries, total, counts),
        manifolds_in(scene.manifolds@, scene.bodies.count() as int),
        scene.bodies.count() <= u32::MAX,
        scene.table@.sound(),
        forall|s: int, q: int|
            lo <= s < hi && 0 <= q < islands[s].manifs@.len() ==> (#[trigger] islands[s].manifs@[q])
                < scene.manifolds@.len(),
    ensures
        entries_fit(scene.table@, entries, scene.bodies.count() as int),
{
    let (speeds, parts, totals, tally) = choose|
        speeds: Seq<GroupSpeeds>,
        parts: Seq<Seq<WarmOutEntry>>,
        totals: Seq<(int, int)>,
        tally: Seq<Counters>,
    |
        {
            &&& #[trigger] islands_run(
                scene,
                prep,
                arith,
                islands,
                lo,
                speeds,
                parts,
                totals,
                tally,
            )
            &&& tally[0] == counts.0
            &&& tally.last() == counts.1
            &&& parts.len() == hi - lo
            &&& speeds[0] == x
            &&& speeds.last() == y
            &&& entries == all_entries(parts)
            &&& total == sum_totals(totals)
        };
    lemma_run_entries(
        scene,
        prep,
        arith,
        islands,
        lo,
        speeds,
        parts,
        totals,
        tally,
        parts.len() as int,
    );
    assert(parts.take(parts.len() as int) =~= parts);
}

} // verus!
