//! What solving the contacts of islands promises.

use crate::body::BodySet;
use crate::constraint::{
    build_constraint, collect_warm, constraint_of, entry_of, hands_back, idle, idle_count,
    needs_solving, point_totals, warm_entry, AnchorGeom, ContactConstraint, PointConstraint,
    PointTerms, Recycled, WarmCandidate,
};
use crate::contact::{ContactPoint, Manifold};
use crate::contact_solve::{
    all_entries, built, gives_terms, group_result, handed_back, island_fits, island_result,
    islands_run, solve_island, solve_island_group, sum_totals, terms_given, to_solve, GroupSpeeds,
    SolveScene,
};
use crate::group::manifold_total;
use crate::guarantees::contacts::{held_for, open_to, point_held};
use crate::guarantees::sweeps::{island_swept, lemma_swept};
use crate::island::Island;
use crate::prepare::{prepared, Agreement, ContactPrep, PointNumbers};
use crate::relax::{
    held, island_solved, places_fit, same_contacts, ContactArith, IslandState, Relaxed, Side, Speeds,
};
use crate::scalar::{Scalar, Vec3};
use crate::select::{indices_where, lemma_indices_where};
use crate::stats::Counters;
use crate::warm::{WarmOutEntry, WarmPoint, WarmState, WarmTable};
use vstd::prelude::*;

verus! {

/// The point is prepared from what was measured for contact `k` of the manifold, and
/// starts with the impulses of the cached point that it continues, or with none.
pub open spec fn point_started<
    A: Fn(usize, Vec3) -> Agreement,
    C: Fn(usize, ContactPoint, WarmPoint) -> WarmCandidate,
    K: Fn(usize, WarmPoint) -> Recycled,
    B: Fn(usize, ContactPoint) -> (Vec3, Vec3),
    P: Fn(usize, ContactPoint, AnchorGeom, Option<WarmPoint>) -> PointNumbers,
>(
    prep: ContactPrep<A, C, K, B, P>,
    mi: usize,
    m: &Manifold,
    st: WarmState,
    k: int,
    p: PointConstraint,
) -> bool {
    &&& p.feature == m.points@[k].feature
    &&& p.terms.warm is Some ==> p.pn == p.terms.warm.unwrap().pn && p.pt1
        == p.terms.warm.unwrap().pt1 && p.pt2 == p.terms.warm.unwrap().pt2
    &&& p.terms.warm is None ==> p.pn.bits == 0 && p.pt1.bits == 0 && p.pt2.bits == 0
    &&& exists|aligned: bool, x: PointNumbers, cands: Seq<WarmCandidate>, kept: Recycled, fresh: (Vec3, Vec3)|
        #[trigger] point_held(
            prep,
            mi,
            m.points@[k],
            open_to(held_for(st, m.a, m.b, m.points.space_spec() as u32)),
            aligned,
            p.terms,
            x,
            cands,
            kept,
            fresh,
        )
}

/// The constraint of a manifold: its bodies, normal and feature space, the slot of the
/// cache that its key leads to, and one started point for each contact.
pub open spec fn constraint_held<
    A: Fn(usize, Vec3) -> Agreement,
    C: Fn(usize, ContactPoint, WarmPoint) -> WarmCandidate,
    K: Fn(usize, WarmPoint) -> Recycled,
    B: Fn(usize, ContactPoint) -> (Vec3, Vec3),
    P: Fn(usize, ContactPoint, AnchorGeom, Option<WarmPoint>) -> PointNumbers,
>(
    prep: ContactPrep<A, C, K, B, P>,
    mi: usize,
    m: &Manifold,
    st: WarmState,
    c: ContactConstraint,
) -> bool {
    let key = (m.a * 0x1_0000_0000_0000_0000 + m.b * 0x1_0000_0000 + m.points.space_spec()) as u128;
    &&& c.a == m.a
    &&& c.b == m.b
    &&& c.normal == m.normal
    &&& c.warm_space == m.points.space_spec()
    &&& c.warm_slot == if st.index.contains_key(key) {
        st.index[key]
    } else {
        0xffff_ffff
    }
    &&& c.points@.len() == m.points@.len()
    &&& forall|k: int|
        #![trigger c.points@[k]]
        0 <= k < c.points@.len() ==> point_started(prep, mi, m, st, k, c.points@[k])
}

proof fn lemma_constraint<
    A: Fn(usize, Vec3) -> Agreement,
    C: Fn(usize, ContactPoint, WarmPoint) -> WarmCandidate,
    K: Fn(usize, WarmPoint) -> Recycled,
    B: Fn(usize, ContactPoint) -> (Vec3, Vec3),
    P: Fn(usize, ContactPoint, AnchorGeom, Option<WarmPoint>) -> PointNumbers,
>(
    prep: ContactPrep<A, C, K, B, P>,
    mi: usize,
    m: &Manifold,
    st: WarmState,
    c: ContactConstraint,
    terms: Seq<PointTerms>,
    before: Counters,
    after: Counters,
)
    requires
        prepared(prep, mi, m, st, terms, before, after),
        constraint_of(&c, m, st, terms),
    ensures
        constraint_held(prep, mi, m, st, c),
{
    assert forall|k: int|
        #![trigger c.points@[k]]
        0 <= k < c.points@.len() implies point_started(prep, mi, m, st, k, c.points@[k]) by {
        crate::guarantees::contacts::lemma_prepared(prep, mi, m, st, terms, before, after, k);
        assert(c.points@[k] == PointConstraint::start_spec(terms[k], m.points@[k].feature));
    }
}

/// A manifold gets a constraint exactly if it has points and one of its bodies is
/// dynamic; it goes to the end of the list, and what was there stays.
pub proof fn contacts_of_dynamic_bodies_are_constrained<
    A: Fn(usize, Vec3) -> Agreement,
    C: Fn(usize, ContactPoint, WarmPoint) -> WarmCandidate,
    K: Fn(usize, WarmPoint) -> Recycled,
    B: Fn(usize, ContactPoint) -> (Vec3, Vec3),
    P: Fn(usize, ContactPoint, AnchorGeom, Option<WarmPoint>) -> PointNumbers,
>(
    out: &mut Vec<ContactConstraint>,
    mi: usize,
    m: &Manifold,
    bodies: &BodySet,
    table: &WarmTable,
    prep: &ContactPrep<A, C, K, B, P>,
    counters: &mut Counters,
)
    requires
        call_ensures(
            build_constraint::<A, C, K, B, P>,
            (out, mi, m, bodies, table, prep, counters),
            (),
        ),
    ensures
        ({
            let wanted = m.points@.len() > 0 && (bodies.dynamic@[m.a as int]
                || bodies.dynamic@[m.b as int]);
            &&& !wanted ==> final(out)@ == old(out)@ && *final(counters) == *old(counters)
            &&& wanted ==> final(out)@.len() == old(out)@.len() + 1 && constraint_held(
                *prep,
                mi,
                m,
                table@,
                final(out)@.last(),
            )
            &&& forall|k: int| 0 <= k < old(out)@.len() ==> #[trigger] final(out)@[k] == old(out)@[k]
        }),
{
    if needs_solving(m, bodies) {
        let terms = choose|terms: Seq<PointTerms>|
            {
                &&& #[trigger] prepared(
                    *prep,
                    mi,
                    m,
                    table@,
                    terms,
                    *old(counters),
                    *final(counters),
                )
                &&& constraint_of(&final(out)@.last(), m, table@, terms)
            };
        lemma_constraint(
            *prep,
            mi,
            m,
            table@,
            final(out)@.last(),
            terms,
            *old(counters),
            *final(counters),
        );
        assert forall|k: int| 0 <= k < old(out)@.len() implies #[trigger] final(out)@[k]
            == old(out)@[k] by {
            assert(final(out)@.drop_last()[k] == old(out)@[k]);
        }
    }
}

/// What is kept of a solved contact: under its bodies and feature space, for the slot it
/// came from, its normal and, for each point, the impulses it ended with, its feature
/// and its anchors.
pub open spec fn kept_of(e: WarmOutEntry, c: ContactConstraint) -> bool {
    &&& e.slot == c.warm_slot
    &&& e.key.a == c.a
    &&& e.key.b == c.b
    &&& e.key.space == c.warm_space
    &&& e.value.normal == c.normal
    &&& e.value.n == c.points@.len()
    &&& e.value.n <= 4
    &&& forall|k: int|
        #![trigger e.value.points@[k]]
        0 <= k < c.points@.len() ==> {
            let (w, p) = (e.value.points@[k], c.points@[k]);
            &&& w.pn == p.pn
            &&& w.pt1 == p.pt1
            &&& w.pt2 == p.pt2
            &&& w.feature == p.feature
            &&& w.la == p.terms.anchor.la
            &&& w.lb == p.terms.anchor.lb
            &&& w.depth0 == p.terms.anchor.depth0
        }
}

/// The point pushes hardly or not at all: its impulse is no more than a millionth.
pub open spec fn still(p: PointConstraint) -> bool {
    p.pn.le_spec(Scalar { bits: 0x3586_37bd })
}

/// How many points the contacts have.
pub open spec fn all_points(cs: Seq<ContactConstraint>) -> int {
    cs.fold_left(0int, |n: int, c: ContactConstraint| n + c.points@.len())
}

/// How many of them are still.
pub open spec fn still_points(cs: Seq<ContactConstraint>) -> int {
    cs.fold_left(
        0int,
        |n: int, c: ContactConstraint|
            n + c.points@.filter(|p: PointConstraint| still(p)).len(),
    )
}

proof fn lemma_idle(points: Seq<PointConstraint>)
    ensures
        idle_count(points) == points.filter(|p: PointConstraint| still(p)).len(),
    decreases points.len(),
{
    reveal(Seq::filter);
    if points.len() > 0 {
        lemma_idle(points.drop_last());
    }
}

proof fn lemma_totals(cs: Seq<ContactConstraint>)
    ensures
        point_totals(cs) == (all_points(cs), still_points(cs)),
    decreases cs.len(),
{
    if cs.len() > 0 {
        lemma_totals(cs.drop_last());
        lemma_idle(cs.last().points@);
    }
}

/// Every solved contact hands back what is to be kept of it, in order, and the totals
/// count all points and the still ones.
pub proof fn solved_contacts_hand_back_their_impulses(
    cs: &Vec<ContactConstraint>,
    out: &mut Vec<WarmOutEntry>,
    r: (u64, u64),
)
    requires
        call_ensures(collect_warm, (cs, out), r),
    ensures
        final(out)@.len() == old(out)@.len() + cs@.len(),
        forall|i: int| 0 <= i < old(out)@.len() ==> #[trigger] final(out)@[i] == old(out)@[i],
        forall|i: int|
            #![trigger cs@[i]]
            0 <= i < cs@.len() ==> kept_of(final(out)@[old(out)@.len() + i], cs@[i]),
        r.0 == all_points(cs@),
        r.1 == still_points(cs@),
{
    lemma_totals(cs@);
    assert forall|i: int| #![trigger cs@[i]] 0 <= i < cs@.len() implies kept_of(
        final(out)@[old(out)@.len() + i],
        cs@[i],
    ) by {
        lemma_kept(final(out)@[old(out)@.len() + i], cs@[i]);
    }
}

proof fn lemma_kept(e: WarmOutEntry, c: ContactConstraint)
    requires
        hands_back(e, c),
    ensures
        kept_of(e, c),
{
}

/// What solving an island does: every manifold of the island that has points and a
/// dynamic body is constrained, in order and no other is; the constraints are swept to
/// the end from the speeds at hand; and each hands back what is to be kept of it.
pub open spec fn island_held<
    A: Fn(usize, Vec3) -> Agreement,
    C: Fn(usize, ContactPoint, WarmPoint) -> WarmCandidate,
    K: Fn(usize, WarmPoint) -> Recycled,
    B: Fn(usize, ContactPoint) -> (Vec3, Vec3),
    P: Fn(usize, ContactPoint, AnchorGeom, Option<WarmPoint>) -> PointNumbers,
    W: Fn(PointConstraint, Vec3, Side, Side) -> Option<(Speeds, Speeds)>,
    D: Fn(PointConstraint, Vec3, Side, Side) -> Scalar,
    R: Fn(PointConstraint, Scalar, Vec3, Side, Side) -> Relaxed,
    H: Fn(PointConstraint, Vec3, Side, Side) -> Option<(Speeds, Speeds)>,
>(
    scene: SolveScene,
    prep: ContactPrep<A, C, K, B, P>,
    arith: ContactArith<W, D, R, H>,
    isl: Island,
    x: GroupSpeeds,
    y: GroupSpeeds,
    entries: Seq<WarmOutEntry>,
    totals: (int, int),
    from: Seq<int>,
    cs: Seq<ContactConstraint>,
    done: Seq<ContactConstraint>,
) -> bool {
    &&& from.len() == cs.len()
    &&& forall|j: int|
        #![trigger from[j]]
        0 <= j < from.len() ==> {
            let mi = isl.manifs@[from[j]];
            &&& 0 <= from[j] < isl.manifs@.len()
            &&& constraint_held(prep, mi, &scene.manifolds@[mi as int], scene.table@, cs[j])
        }
    &&& forall|i: int, j: int| 0 <= i < j < from.len() ==> #[trigger] from[i] < #[trigger] from[j]
    &&& forall|i: int|
        #![trigger isl.manifs@[i]]
        0 <= i < isl.manifs@.len() ==> {
            let m = scene.manifolds@[isl.manifs@[i] as int];
            from.contains(i) <==> m.points@.len() > 0 && (scene.bodies.dynamic@[m.a as int]
                || scene.bodies.dynamic@[m.b as int])
        }
    &&& exists|q: int, states: Seq<IslandState>| #[trigger]
        island_swept(
            arith,
            cs,
            scene.local_of@,
            scene.params,
            held(cs, x.lv, x.av, Scalar { bits: 0 }),
            held(done, y.lv, y.av, Scalar { bits: 0 }),
            q,
            states,
        )
    &&& done.len() == cs.len()
    &&& entries.len() == done.len()
    &&& forall|i: int|
        #![trigger done[i]]
        0 <= i < done.len() ==> {
            &&& kept_of(entries[i], done[i])
            &&& done[i].a == cs[i].a && done[i].b == cs[i].b && done[i].normal == cs[i].normal
            &&& done[i].warm_slot == cs[i].warm_slot && done[i].warm_space == cs[i].warm_space
            &&& done[i].points@.len() == cs[i].points@.len()
        }
    &&& totals == (all_points(done), still_points(done))
}

pub proof fn lemma_island<
    A: Fn(usize, Vec3) -> Agreement,
    C: Fn(usize, ContactPoint, WarmPoint) -> WarmCandidate,
    K: Fn(usize, WarmPoint) -> Recycled,
    B: Fn(usize, ContactPoint) -> (Vec3, Vec3),
    P: Fn(usize, ContactPoint, AnchorGeom, Option<WarmPoint>) -> PointNumbers,
    W: Fn(PointConstraint, Vec3, Side, Side) -> Option<(Speeds, Speeds)>,
    D: Fn(PointConstraint, Vec3, Side, Side) -> Scalar,
    R: Fn(PointConstraint, Scalar, Vec3, Side, Side) -> Relaxed,
    H: Fn(PointConstraint, Vec3, Side, Side) -> Option<(Speeds, Speeds)>,
>(
    scene: SolveScene,
    prep: ContactPrep<A, C, K, B, P>,
    arith: ContactArith<W, D, R, H>,
    isl: Island,
    x: GroupSpeeds,
    y: GroupSpeeds,
    entries: Seq<WarmOutEntry>,
    totals: (int, int),
    counts: (Counters, Counters),
)
    requires
        island_result(scene, prep, arith, isl, x, y, entries, totals, counts),
        x.lv.len() == x.av.len(),
        island_fits(&isl, scene.manifolds@, scene.local_of@, x.lv.len()),
    ensures
        exists|from: Seq<int>, cs: Seq<ContactConstraint>, done: Seq<ContactConstraint>| #[trigger]
            island_held(
                scene,
                prep,
                arith,
                isl,
                x,
                y,
                entries,
                totals,
                from,
                cs,
                done,
            ),
{
    let zero = Scalar::zero_spec();
    let (ts, tally, cs, done) = choose|
        ts: Seq<Seq<PointTerms>>,
        tally: Seq<Counters>,
        cs: Seq<ContactConstraint>,
        done: Seq<ContactConstraint>,
    |
        {
            &&& #[trigger] terms_given(
                prep,
                isl.manifs@,
                scene.manifolds@,
                scene.bodies,
                scene.table@,
                ts,
                tally,
            )
            &&& tally[0] == counts.0
            &&& tally.last() == counts.1
            &&& #[trigger] built(
                cs,
                isl.manifs@,
                scene.manifolds@,
                scene.bodies,
                scene.table@,
                ts,
            )
            &&& island_solved(
                arith,
                cs,
                scene.local_of@,
                scene.params,
                held(cs, x.lv, x.av, zero),
                held(done, y.lv, y.av, zero),
            )
            &&& same_contacts(cs, done)
            &&& #[trigger] handed_back(entries, done)
            &&& totals == point_totals(done)
        };
    let wanted = to_solve(isl.manifs@, scene.manifolds@, scene.bodies);
    let from = indices_where(wanted, isl.manifs@.len());
    lemma_indices_where(wanted, isl.manifs@.len());
    assert forall|j: int| #![trigger from[j]] 0 <= j < from.len() implies {
        let mi = isl.manifs@[from[j]];
        &&& 0 <= from[j] < isl.manifs@.len()
        &&& constraint_held(prep, mi, &scene.manifolds@[mi as int], scene.table@, cs[j])
    } by {
        let i = from[j];
        assert(wanted(i));
        let mi = isl.manifs@[i];
        let m = scene.manifolds@[mi as int];
        assert(gives_terms(
            prep,
            isl.manifs@[i],
            &scene.manifolds@[isl.manifs@[i] as int],
            scene.bodies,
            scene.table@,
            ts[i],
            tally[i],
            tally[i + 1],
        ));
        assert(constraint_of(&cs[j], &m, scene.table@, ts[i]));
        lemma_constraint(prep, mi, &m, scene.table@, cs[j], ts[i], tally[i], tally[i + 1]);
    }
    assert forall|i: int| #![trigger isl.manifs@[i]] 0 <= i < isl.manifs@.len() implies {
        let m = scene.manifolds@[isl.manifs@[i] as int];
        from.contains(i) <==> m.points@.len() > 0 && (scene.bodies.dynamic@[m.a as int]
            || scene.bodies.dynamic@[m.b as int])
    } by {
        crate::select::lemma_indices_where_contains(wanted, isl.manifs@.len(), i);
        assert(wanted(i) == needs_solving(&scene.manifolds@[isl.manifs@[i] as int], scene.bodies));
    }
    assert(places_fit(cs, scene.local_of@, x.lv.len())) by {
        assert forall|c: int| 0 <= c < cs.len() implies {
            &&& (#[trigger] cs[c]).a < scene.local_of@.len()
            &&& cs[c].b < scene.local_of@.len()
            &&& scene.local_of@[cs[c].a as int] == crate::group::NO_LOCAL
                || scene.local_of@[cs[c].a as int] < x.lv.len()
            &&& scene.local_of@[cs[c].b as int] == crate::group::NO_LOCAL
                || scene.local_of@[cs[c].b as int] < x.lv.len()
        } by {
            let i = from[c];
            assert(isl.manifs@[i] < scene.manifolds@.len());
            assert(constraint_of(&cs[c], &scene.manifolds@[isl.manifs@[i] as int], scene.table@, ts[i]));
        }
    }
    lemma_swept(
        arith,
        cs,
        scene.local_of@,
        scene.params,
        held(cs, x.lv, x.av, zero),
        held(done, y.lv, y.av, zero),
    );
    lemma_totals(done);
    assert forall|i: int| #![trigger done[i]] 0 <= i < done.len() implies {
        &&& kept_of(entries[i], done[i])
        &&& done[i].a == cs[i].a && done[i].b == cs[i].b && done[i].normal == cs[i].normal
        &&& done[i].warm_slot == cs[i].warm_slot && done[i].warm_space == cs[i].warm_space
        &&& done[i].points@.len() == cs[i].points@.len()
    } by {
        assert(hands_back(entries[i], done[i]));
        lemma_kept(entries[i], done[i]);
    }
    assert(island_held(
        scene,
        prep,
        arith,
        isl,
        x,
        y,
        entries,
        totals,
        from,
        cs,
        done,
    ));
}

/// Solving an island constrains all its contacts that have points and a dynamic body,
/// sweeps them to the end, and hands back what is to be kept, after what was there.
pub proof fn every_contact_of_an_island_is_solved<
    A: Fn(usize, Vec3) -> Agreement,
    C: Fn(usize, ContactPoint, WarmPoint) -> WarmCandidate,
    K: Fn(usize, WarmPoint) -> Recycled,
    B: Fn(usize, ContactPoint) -> (Vec3, Vec3),
    P: Fn(usize, ContactPoint, AnchorGeom, Option<WarmPoint>) -> PointNumbers,
    W: Fn(PointConstraint, Vec3, Side, Side) -> Option<(Speeds, Speeds)>,
    D: Fn(PointConstraint, Vec3, Side, Side) -> Scalar,
    R: Fn(PointConstraint, Scalar, Vec3, Side, Side) -> Relaxed,
    H: Fn(PointConstraint, Vec3, Side, Side) -> Option<(Speeds, Speeds)>,
>(
    scene: &SolveScene,
    prep: &ContactPrep<A, C, K, B, P>,
    arith: &ContactArith<W, D, R, H>,
    isl: &Island,
    lv: &mut Vec<Vec3>,
    av: &mut Vec<Vec3>,
    out: &mut Vec<WarmOutEntry>,
    counters: &mut Counters,
    r: (u64, u64),
)
    requires
        call_ensures(
            solve_island::<A, C, K, B, P, W, D, R, H>,
            (scene, prep, arith, isl, lv, av, out, counters),
            r,
        ),
        old(lv)@.len() == old(av)@.len(),
        island_fits(isl, scene.manifolds@, scene.local_of@, old(lv)@.len()),
    ensures
        exists|
            entries: Seq<WarmOutEntry>,
            from: Seq<int>,
            cs: Seq<ContactConstraint>,
            done: Seq<ContactConstraint>,
        | #[trigger]
            island_held(
                *scene,
                *prep,
                *arith,
                *isl,
                (GroupSpeeds { lv: old(lv)@, av: old(av)@ }),
                (GroupSpeeds { lv: final(lv)@, av: final(av)@ }),
                entries,
                (r.0 as int, r.1 as int),
                from,
                cs,
                done,
            ) && final(out)@ == old(out)@ + entries,
{
    let x = GroupSpeeds { lv: old(lv)@, av: old(av)@ };
    let y = GroupSpeeds { lv: final(lv)@, av: final(av)@ };
    let entries = choose|entries: Seq<WarmOutEntry>|
        final(out)@ == old(out)@ + entries && entries.len() <= isl.manifs@.len()
            && #[trigger] island_result(
            *scene,
            *prep,
            *arith,
            *isl,
            x,
            y,
            entries,
            (r.0 as int, r.1 as int),
            (*old(counters), *final(counters)),
        );
    lemma_island(
        *scene,
        *prep,
        *arith,
        *isl,
        x,
        y,
        entries,
        (r.0 as int, r.1 as int),
        (*old(counters), *final(counters)),
    );
}

} // verus!
