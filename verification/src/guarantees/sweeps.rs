//! What the sweeps over the contacts of an island promise.

use crate::constraint::{ContactConstraint, PointConstraint};
use crate::relax::{
    constraint_events, events_fit, fresh_plan, held, island_solved, kept_through, lemma_nudge_sweep,
    lemma_nudge_trace, lemma_relax_sweep, lemma_relax_trace, lemma_sweep_events, lemma_sweeps_keep,
    nudge_event, nudge_sweep, nudge_trace, place_of, places_fit, point_events, points_of,
    relax_event, relax_island, relax_sweep, relax_trace, side_at, sweep_events, sweep_step,
    sweeps_run, ContactArith, IslandState, Push, Relaxed, Side, Speeds,
};
use crate::schedule::{visited, PhaseParams, Sweep, SweepPlan};
use crate::scalar::{Scalar, Vec3};
use vstd::prelude::*;

verus! {

/// The speeds of a body as a contact sees them: those at its place, and none for a body
/// that has no place.
pub open spec fn seen(local_of: Seq<u32>, st: IslandState, body: u32) -> Side {
    let k = local_of[body as int];
    if k == 0xffff_ffff {
        Side {
            body,
            placed: false,
            speeds: Speeds {
                lin: Vec3 { x: Scalar { bits: 0 }, y: Scalar { bits: 0 }, z: Scalar { bits: 0 } },
                ang: Vec3 { x: Scalar { bits: 0 }, y: Scalar { bits: 0 }, z: Scalar { bits: 0 } },
            },
        }
    } else {
        Side { body, placed: true, speeds: Speeds { lin: st.lv[k as int], ang: st.av[k as int] } }
    }
}

/// The two bodies of a contact have these speeds next, as far as they have places;
/// nobody else's change.
pub open spec fn speeds_set(
    local_of: Seq<u32>,
    c: ContactConstraint,
    st: IslandState,
    next: IslandState,
    x: Speeds,
    y: Speeds,
) -> bool {
    let (ka, kb) = (local_of[c.a as int], local_of[c.b as int]);
    &&& next.lv.len() == st.lv.len()
    &&& next.av.len() == st.av.len()
    &&& ka != 0xffff_ffff && ka != kb ==> next.lv[ka as int] == x.lin && next.av[ka as int] == x.ang
    &&& kb != 0xffff_ffff ==> next.lv[kb as int] == y.lin && next.av[kb as int] == y.ang
    &&& forall|q: int|
        0 <= q < st.lv.len() && q != ka && q != kb ==> #[trigger] next.lv[q] == st.lv[q]
    &&& forall|q: int|
        0 <= q < st.av.len() && q != ka && q != kb ==> #[trigger] next.av[q] == st.av[q]
}

/// Everything about the points but the impulses of one is as it was.
pub open spec fn point_set(st: IslandState, next: IslandState, c: int, i: int, p: PointConstraint) -> bool {
    &&& next.points.len() == st.points.len()
    &&& forall|d: int|
        0 <= d < st.points.len() && d != c ==> #[trigger] next.points[d] == st.points[d]
    &&& next.points[c].len() == st.points[c].len()
    &&& forall|j: int|
        0 <= j < st.points[c].len() && j != i ==> #[trigger] next.points[c][j] == st.points[c][j]
    &&& next.points[c][i] == p
}

/// A point is relaxed: unless it is passed over, its wanted impulse is asked for with
/// the current speeds, cut to a push, applied, and what comes back becomes the point's
/// impulses and the two bodies' speeds.
pub open spec fn point_relaxed<
    D: Fn(PointConstraint, Vec3, Side, Side) -> Scalar,
    R: Fn(PointConstraint, Scalar, Vec3, Side, Side) -> Relaxed,
>(
    relax: Push<D, R>,
    cs: Seq<ContactConstraint>,
    local_of: Seq<u32>,
    reduce: bool,
    st: IslandState,
    e: (int, int),
    next: IslandState,
    w: Scalar,
    push: Scalar,
    r: Relaxed,
) -> bool {
    let p = st.points[e.0][e.1];
    let c = cs[e.0];
    let idle = p.pn.magnitude() == 0 && p.pt1.magnitude() == 0 && p.pt2.magnitude() == 0
        && p.terms.cfm.lt_spec(Scalar { bits: 0x3f80_0000 });
    if reduce && idle {
        next == st
    } else {
        &&& relax.demand.ensures(
            (p, c.normal, seen(local_of, st, c.a), seen(local_of, st, c.b)),
            w,
        )
        &&& 0 < w.bits <= 0x7f80_0000 ==> push == w
        &&& !(0 < w.bits <= 0x7f80_0000) ==> push.magnitude() == 0
        &&& relax.apply.ensures(
            (p, push, c.normal, seen(local_of, st, c.a), seen(local_of, st, c.b)),
            r,
        )
        &&& point_set(
            st,
            next,
            e.0,
            e.1,
            PointConstraint {
                pn: push,
                pt1: r.pt1,
                pt2: r.pt2,
                terms: p.terms,
                feature: p.feature,
            },
        )
        &&& speeds_set(local_of, c, st, next, r.a, r.b)
        &&& next.resid == r.resid || next.resid == st.resid
        &&& !r.resid.is_nan_spec() && !st.resid.is_nan_spec() ==> r.resid.le_spec(next.resid)
            && st.resid.le_spec(next.resid)
    }
}

/// A point is nudged: the current speeds go in, and if something comes back it becomes
/// the two bodies' speeds. At the start only points that continue an impulse are.
pub open spec fn point_nudged<N: Fn(PointConstraint, Vec3, Side, Side) -> Option<(Speeds, Speeds)>>(
    nudge: N,
    cs: Seq<ContactConstraint>,
    local_of: Seq<u32>,
    warm: bool,
    st: IslandState,
    e: (int, int),
    next: IslandState,
    r: Option<(Speeds, Speeds)>,
) -> bool {
    let p = st.points[e.0][e.1];
    let c = cs[e.0];
    let cold = p.terms.warm is None || (p.terms.warm.unwrap().pn.magnitude() == 0
        && p.terms.warm.unwrap().pt1.magnitude() == 0 && p.terms.warm.unwrap().pt2.magnitude() == 0);
    if warm && cold {
        next == st
    } else {
        &&& nudge.ensures((p, c.normal, seen(local_of, st, c.a), seen(local_of, st, c.b)), r)
        &&& next.points == st.points
        &&& r is None ==> next == st
        &&& r is Some ==> speeds_set(local_of, c, st, next, r.unwrap().0, r.unwrap().1)
    }
}

/// The points of one contact, first to last or last to first.
pub open spec fn round(c: int, n: nat, reverse: bool) -> Seq<(int, int)> {
    Seq::new(
        n,
        |q: int|
            if reverse {
                (c, n - 1 - q)
            } else {
                (c, q)
            },
    )
}

/// A tour: every contact in turn, first to last or last to first, and each of them
/// `inner` times point by point.
pub open spec fn tour(points: Seq<Seq<PointConstraint>>, inner: int, reverse: bool) -> Seq<(int, int)> {
    Seq::new(
        points.len(),
        |k: int|
            {
                let c = if reverse {
                    points.len() - 1 - k
                } else {
                    k
                };
                Seq::new(inner as nat, |q: int| round(c, points[c].len(), reverse)).flatten()
            },
    ).flatten()
}

proof fn lemma_rounds(c: int, n: nat, inner: int, reverse: bool)
    requires
        inner >= 0,
    ensures
        constraint_events(c, n, inner, reverse) == Seq::new(
            inner as nat,
            |q: int| round(c, n, reverse),
        ).flatten(),
    decreases inner,
{
    let all = Seq::new(inner as nat, |q: int| round(c, n, reverse));
    if inner > 0 {
        lemma_rounds(c, n, inner - 1, reverse);
        let before = Seq::new((inner - 1) as nat, |q: int| round(c, n, reverse));
        assert(point_events(c, n, reverse) =~= round(c, n, reverse));
        before.lemma_flatten_push(round(c, n, reverse));
        assert(all =~= before.push(round(c, n, reverse)));
    }
}

proof fn lemma_tour(points: Seq<Seq<PointConstraint>>, k: int, inner: int, reverse: bool)
    requires
        inner >= 0,
        0 <= k <= points.len(),
    ensures
        sweep_events(points, k, inner, reverse) == Seq::new(
            k as nat,
            |k: int|
                {
                    let c = if reverse {
                        points.len() - 1 - k
                    } else {
                        k
                    };
                    Seq::new(inner as nat, |q: int| round(c, points[c].len(), reverse)).flatten()
                },
        ).flatten(),
    decreases k,
{
    let f = |k: int|
        {
            let c = if reverse {
                points.len() - 1 - k
            } else {
                k
            };
            Seq::new(inner as nat, |q: int| round(c, points[c].len(), reverse)).flatten()
        };
    let all = Seq::new(k as nat, f);
    if k > 0 {
        lemma_tour(points, k - 1, inner, reverse);
        let before = Seq::new((k - 1) as nat, f);
        let c = visited(points.len() as int, k - 1, reverse);
        lemma_rounds(c, points[c].len(), inner, reverse);
        before.lemma_flatten_push(f(k - 1));
        assert(all =~= before.push(f(k - 1)));
    }
}

/// The point was relaxed with some answers.
pub open spec fn relaxed_so<
    D: Fn(PointConstraint, Vec3, Side, Side) -> Scalar,
    R: Fn(PointConstraint, Scalar, Vec3, Side, Side) -> Relaxed,
>(
    relax: Push<D, R>,
    cs: Seq<ContactConstraint>,
    local_of: Seq<u32>,
    reduce: bool,
    st: IslandState,
    e: (int, int),
    next: IslandState,
) -> bool {
    exists|w: Scalar, push: Scalar, r: Relaxed| #[trigger]
        point_relaxed(relax, cs, local_of, reduce, st, e, next, w, push, r)
}

/// The point was nudged with some answer.
pub open spec fn nudged_so<N: Fn(PointConstraint, Vec3, Side, Side) -> Option<(Speeds, Speeds)>>(
    nudge: N,
    cs: Seq<ContactConstraint>,
    local_of: Seq<u32>,
    warm: bool,
    st: IslandState,
    e: (int, int),
    next: IslandState,
) -> bool {
    exists|r: Option<(Speeds, Speeds)>| #[trigger]
        point_nudged(nudge, cs, local_of, warm, st, e, next, r)
}

/// A sweep that relaxes: the points of a tour one after the other, with the corrections
/// counted afresh.
#[verifier::opaque]
pub open spec fn relaxing_sweep<
    D: Fn(PointConstraint, Vec3, Side, Side) -> Scalar,
    R: Fn(PointConstraint, Scalar, Vec3, Side, Side) -> Relaxed,
>(
    relax: Push<D, R>,
    cs: Seq<ContactConstraint>,
    local_of: Seq<u32>,
    inner: int,
    reverse: bool,
    reduce: bool,
    st: IslandState,
    next: IslandState,
) -> bool {
    exists|states: Seq<IslandState>|
        #![trigger states.len()]
        {
            let events = tour(st.points, inner, reverse);
            &&& states.len() == events.len() + 1
            &&& states[0].points == st.points && states[0].lv == st.lv && states[0].av == st.av
            &&& states[0].resid.bits == 0
            &&& states.last() == next
            &&& forall|k: int|
                0 <= k < events.len() ==> relaxed_so(
                    relax,
                    cs,
                    local_of,
                    reduce,
                    #[trigger] states[k],
                    events[k],
                    states[k + 1],
                )
        }
}

/// A sweep that nudges: every point once, first to last.
#[verifier::opaque]
pub open spec fn nudging_sweep<N: Fn(PointConstraint, Vec3, Side, Side) -> Option<(Speeds, Speeds)>>(
    nudge: N,
    cs: Seq<ContactConstraint>,
    local_of: Seq<u32>,
    warm: bool,
    st: IslandState,
    next: IslandState,
) -> bool {
    exists|states: Seq<IslandState>|
        #![trigger states.len()]
        {
            let events = tour(st.points, 1, false);
            &&& states.len() == events.len() + 1
            &&& states[0].points == st.points && states[0].lv == st.lv && states[0].av == st.av
            &&& states[0].resid.bits == 0
            &&& states.last() == next
            &&& forall|k: int|
                0 <= k < events.len() ==> nudged_so(
                    nudge,
                    cs,
                    local_of,
                    warm,
                    #[trigger] states[k],
                    events[k],
                    states[k + 1],
                )
        }
}

proof fn lemma_relax_step<
    D: Fn(PointConstraint, Vec3, Side, Side) -> Scalar,
    R: Fn(PointConstraint, Scalar, Vec3, Side, Side) -> Relaxed,
>(
    relax: Push<D, R>,
    cs: Seq<ContactConstraint>,
    local_of: Seq<u32>,
    reduce: bool,
    st: IslandState,
    e: (int, int),
    next: IslandState,
)
    requires
        relax_event(relax, cs, local_of, reduce, st, e, next),
        0 <= e.0 < cs.len(),
        st.points.len() == cs.len(),
        0 <= e.1 < st.points[e.0].len(),
        st.lv.len() == st.av.len(),
        places_fit(cs, local_of, st.lv.len()),
    ensures
        relaxed_so(relax, cs, local_of, reduce, st, e, next),
{
    let p = st.points[e.0][e.1];
    let c = cs[e.0];
    let sa = side_at(local_of, st.lv, st.av, c.a);
    let sb = side_at(local_of, st.lv, st.av, c.b);
    assert(sa == seen(local_of, st, c.a));
    assert(sb == seen(local_of, st, c.b));
    if crate::schedule::passes_over_spec(reduce, p) {
        let any = Relaxed {
            pt1: p.pt1,
            pt2: p.pt2,
            a: sa.speeds,
            b: sb.speeds,
            resid: st.resid,
        };
        assert(point_relaxed(relax, cs, local_of, reduce, st, e, next, p.pn, p.pn, any));
    } else {
        let (w, r) = choose|w: Scalar, r: Relaxed| #[trigger]
            relax.pushed(p, c.normal, sa, sb, w, r) && next == crate::relax::relaxed(
                cs,
                local_of,
                st,
                e,
                w,
                r,
            );
        assert(point_relaxed(
            relax,
            cs,
            local_of,
            reduce,
            st,
            e,
            next,
            w,
            crate::relax::pushing(w),
            r,
        ));
    }
}

proof fn lemma_nudge_step<N: Fn(PointConstraint, Vec3, Side, Side) -> Option<(Speeds, Speeds)>>(
    nudge: N,
    cs: Seq<ContactConstraint>,
    local_of: Seq<u32>,
    warm: bool,
    st: IslandState,
    e: (int, int),
    next: IslandState,
)
    requires
        nudge_event(nudge, cs, local_of, warm, st, e, next),
        0 <= e.0 < cs.len(),
        st.points.len() == cs.len(),
        0 <= e.1 < st.points[e.0].len(),
        st.lv.len() == st.av.len(),
        places_fit(cs, local_of, st.lv.len()),
    ensures
        nudged_so(nudge, cs, local_of, warm, st, e, next),
{
    let p = st.points[e.0][e.1];
    let c = cs[e.0];
    let sa = side_at(local_of, st.lv, st.av, c.a);
    let sb = side_at(local_of, st.lv, st.av, c.b);
    assert(sa == seen(local_of, st, c.a));
    assert(sb == seen(local_of, st, c.b));
    if warm && !crate::schedule::has_warm_impulse_spec(p.terms.warm) {
        assert(point_nudged(nudge, cs, local_of, warm, st, e, next, None));
    } else {
        let r = choose|r: Option<(Speeds, Speeds)>| #[trigger]
            nudge.ensures((p, c.normal, sa, sb), r) && next == crate::relax::nudged(
                cs,
                local_of,
                st,
                e,
                r,
            );
        assert(point_nudged(nudge, cs, local_of, warm, st, e, next, r));
    }
}

proof fn lemma_relaxing<
    D: Fn(PointConstraint, Vec3, Side, Side) -> Scalar,
    R: Fn(PointConstraint, Scalar, Vec3, Side, Side) -> Relaxed,
>(
    relax: Push<D, R>,
    cs: Seq<ContactConstraint>,
    local_of: Seq<u32>,
    inner: int,
    reverse: bool,
    reduce: bool,
    st: IslandState,
    next: IslandState,
)
    requires
        relax_sweep(relax, cs, local_of, inner, reverse, reduce, st, next),
        st.points.len() == cs.len(),
        st.lv.len() == st.av.len(),
        places_fit(cs, local_of, st.lv.len()),
        inner >= 0,
    ensures
        relaxing_sweep(relax, cs, local_of, inner, reverse, reduce, st, next),
{
    reveal(relaxing_sweep);
    let events = sweep_events(st.points, st.points.len() as int, inner, reverse);
    let states = choose|states: Seq<IslandState>| #[trigger]
        relax_trace(relax, cs, local_of, reduce, events, states) && states[0] == (IslandState {
            resid: Scalar::zero_spec(),
            ..st
        }) && states.last() == next;
    lemma_sweep_events(st.points, st.points.len() as int, inner, reverse);
    lemma_tour(st.points, st.points.len() as int, inner, reverse);
    assert(events == tour(st.points, inner, reverse));
    assert forall|k: int| 0 <= k < events.len() implies relaxed_so(
        relax,
        cs,
        local_of,
        reduce,
        #[trigger] states[k],
        events[k],
        states[k + 1],
    ) by {
        lemma_relax_trace(relax, cs, local_of, reduce, events, states, k);
        assert(0 <= events[k].0 < st.points.len());
        assert(states[0].points[events[k].0].len() == states[k].points[events[k].0].len());
        assert(relax_event(relax, cs, local_of, reduce, states[k], events[k], states[k + 1]));
        lemma_relax_step(relax, cs, local_of, reduce, states[k], events[k], states[k + 1]);
    }
    assert(states.len() == events.len() + 1);
}

proof fn lemma_nudging<N: Fn(PointConstraint, Vec3, Side, Side) -> Option<(Speeds, Speeds)>>(
    nudge: N,
    cs: Seq<ContactConstraint>,
    local_of: Seq<u32>,
    warm: bool,
    st: IslandState,
    next: IslandState,
)
    requires
        nudge_sweep(nudge, cs, local_of, warm, st, next),
        st.points.len() == cs.len(),
        st.lv.len() == st.av.len(),
        places_fit(cs, local_of, st.lv.len()),
    ensures
        nudging_sweep(nudge, cs, local_of, warm, st, next),
{
    reveal(nudging_sweep);
    let events = sweep_events(st.points, st.points.len() as int, 1, false);
    let states = choose|states: Seq<IslandState>| #[trigger]
        nudge_trace(nudge, cs, local_of, warm, events, states) && states[0] == (IslandState {
            resid: Scalar::zero_spec(),
            ..st
        }) && states.last() == next;
    lemma_sweep_events(st.points, st.points.len() as int, 1, false);
    lemma_tour(st.points, st.points.len() as int, 1, false);
    assert(events == tour(st.points, 1, false));
    assert forall|k: int| 0 <= k < events.len() implies nudged_so(
        nudge,
        cs,
        local_of,
        warm,
        #[trigger] states[k],
        events[k],
        states[k + 1],
    ) by {
        lemma_nudge_trace(nudge, cs, local_of, warm, events, states, k);
        assert(0 <= events[k].0 < st.points.len());
        assert(nudge_event(nudge, cs, local_of, warm, states[k], events[k], states[k + 1]));
        lemma_nudge_step(nudge, cs, local_of, warm, states[k], events[k], states[k + 1]);
    }
    assert(states.len() == events.len() + 1);
}

/// The sweeps of an island, after `states[0]`: `q` relaxing ones in alternating
/// directions, passing over idle points from the third on; as many shock sweeps as are
/// set, backwards; and as many holding sweeps as are set.
pub open spec fn island_swept<
    W: Fn(PointConstraint, Vec3, Side, Side) -> Option<(Speeds, Speeds)>,
    D: Fn(PointConstraint, Vec3, Side, Side) -> Scalar,
    R: Fn(PointConstraint, Scalar, Vec3, Side, Side) -> Relaxed,
    H: Fn(PointConstraint, Vec3, Side, Side) -> Option<(Speeds, Speeds)>,
>(
    arith: ContactArith<W, D, R, H>,
    cs: Seq<ContactConstraint>,
    local_of: Seq<u32>,
    params: PhaseParams,
    before: IslandState,
    after: IslandState,
    q: int,
    states: Seq<IslandState>,
) -> bool {
    let eps = Scalar { bits: 0x3b03_126f };
    let inner: int = if params.normal_inner == 0 {
        1
    } else {
        params.normal_inner as int
    };
    &&& nudging_sweep(arith.warm, cs, local_of, true, before, states[0])
    &&& 0 <= q <= params.iters
    &&& q < params.iters ==> q >= 4 && states[q].resid.lt_spec(eps)
    &&& states.len() == q + params.shock + params.settled_hold + 1
    &&& after.points == states.last().points
    &&& after.lv == states.last().lv
    &&& after.av == states.last().av
    &&& forall|j: int|
        #![trigger states[j]]
        0 <= j < q ==> {
            &&& relaxing_sweep(
                arith.relax,
                cs,
                local_of,
                inner,
                j % 2 == 1,
                j >= 2,
                states[j],
                states[j + 1],
            )
            &&& j + 1 < q ==> j < 3 || !states[j + 1].resid.lt_spec(eps)
        }
    &&& forall|j: int|
        #![trigger states[j]]
        q <= j < q + params.shock ==> relaxing_sweep(
            arith.relax,
            cs,
            local_of,
            inner,
            true,
            false,
            states[j],
            states[j + 1],
        )
    &&& forall|j: int|
        #![trigger states[j]]
        q + params.shock <= j < states.len() - 1 ==> nudging_sweep(
            arith.hold,
            cs,
            local_of,
            false,
            states[j],
            states[j + 1],
        )
}

/// Where a plan stands after `k` sweeps.
spec fn stands(p: SweepPlan, params: PhaseParams, k: int, states: Seq<IslandState>) -> bool {
    let q = p.relaxed as int;
    let eps = Scalar { bits: 0x3b03_126f };
    &&& p.iters == params.iters && p.shock == params.shock && p.hold == params.settled_hold
    &&& q <= p.iters
    &&& q <= k
    &&& p.shocked == if k - q < p.shock {
        k - q
    } else {
        p.shock as int
    }
    &&& p.held == k - q - p.shocked
    &&& p.held <= p.hold
    &&& k > q ==> q == p.iters || p.settled
    &&& p.settled ==> q >= 4 && states[q].resid.lt_spec(eps)
    &&& q >= 4 && states[q].resid.lt_spec(eps) ==> p.settled
}

proof fn lemma_stands<
    W: Fn(PointConstraint, Vec3, Side, Side) -> Option<(Speeds, Speeds)>,
    D: Fn(PointConstraint, Vec3, Side, Side) -> Scalar,
    R: Fn(PointConstraint, Scalar, Vec3, Side, Side) -> Relaxed,
    H: Fn(PointConstraint, Vec3, Side, Side) -> Option<(Speeds, Speeds)>,
>(
    arith: ContactArith<W, D, R, H>,
    cs: Seq<ContactConstraint>,
    local_of: Seq<u32>,
    params: PhaseParams,
    inner: int,
    plans: Seq<SweepPlan>,
    states: Seq<IslandState>,
    k: int,
)
    requires
        sweeps_run(arith, cs, local_of, inner, plans, states),
        0 <= k < states.len(),
        plans[0] == fresh_plan(params),
    ensures
        stands(plans[k], params, k, states),
        forall|j: int|
            #![trigger plans[j]]
            0 <= j <= k ==> plans[j].relaxed == if j < plans[k].relaxed {
                j
            } else {
                plans[k].relaxed as int
            },
    decreases k,
{
    if k > 0 {
        lemma_stands(arith, cs, local_of, params, inner, plans, states, k - 1);
        let st = states[k - 1];
        assert(sweep_step(arith, cs, local_of, inner, plans[k - 1], st, states[k - 1 + 1]));
        assert(plans[k] == plans[k - 1].after(states[k].resid));
    }
}

/// Relaxing an island goes through its sweeps to the end: first every point that
/// continues an impulse is nudged by it, then the relaxing sweeps run to their count or
/// until one from the fourth on corrects less than two thousandths, then all shock
/// sweeps and all holding sweeps; every sweep goes through every point of every
/// contact, a relaxing one as often as is set.
#[verifier::spinoff_prover]
pub proof fn islands_are_swept_to_the_end<
    W: Fn(PointConstraint, Vec3, Side, Side) -> Option<(Speeds, Speeds)>,
    D: Fn(PointConstraint, Vec3, Side, Side) -> Scalar,
    R: Fn(PointConstraint, Scalar, Vec3, Side, Side) -> Relaxed,
    H: Fn(PointConstraint, Vec3, Side, Side) -> Option<(Speeds, Speeds)>,
>(
    arith: &ContactArith<W, D, R, H>,
    cs: &mut Vec<ContactConstraint>,
    local_of: &[u32],
    lv: &mut Vec<Vec3>,
    av: &mut Vec<Vec3>,
    params: &PhaseParams,
)
    requires
        call_ensures(relax_island::<W, D, R, H>, (arith, cs, local_of, lv, av, params), ()),
        old(lv)@.len() == old(av)@.len(),
        places_fit(old(cs)@, local_of@, old(lv)@.len()),
    ensures
        exists|q: int, states: Seq<IslandState>| #[trigger]
            island_swept(
                *arith,
                old(cs)@,
                local_of@,
                *params,
                held(old(cs)@, old(lv)@, old(av)@, Scalar { bits: 0 }),
                held(final(cs)@, final(lv)@, final(av)@, Scalar { bits: 0 }),
                q,
                states,
            ),
{
    lemma_swept(
        *arith,
        old(cs)@,
        local_of@,
        *params,
        held(old(cs)@, old(lv)@, old(av)@, Scalar { bits: 0 }),
        held(final(cs)@, final(lv)@, final(av)@, Scalar { bits: 0 }),
    );
}

#[verifier::spinoff_prover]
pub proof fn lemma_swept<
    W: Fn(PointConstraint, Vec3, Side, Side) -> Option<(Speeds, Speeds)>,
    D: Fn(PointConstraint, Vec3, Side, Side) -> Scalar,
    R: Fn(PointConstraint, Scalar, Vec3, Side, Side) -> Relaxed,
    H: Fn(PointConstraint, Vec3, Side, Side) -> Option<(Speeds, Speeds)>,
>(
    arith: ContactArith<W, D, R, H>,
    cs: Seq<ContactConstraint>,
    local_of: Seq<u32>,
    params: PhaseParams,
    before: IslandState,
    after: IslandState,
)
    requires
        island_solved(arith, cs, local_of, params, before, after),
        before.points.len() == cs.len(),
        before.lv.len() == before.av.len(),
        places_fit(cs, local_of, before.lv.len()),
    ensures
        exists|q: int, states: Seq<IslandState>| #[trigger]
            island_swept(arith, cs, local_of, params, before, after, q, states),
{
    let inner = crate::schedule::at_least_one(params.normal_inner) as int;
    let (plans, states) = choose|plans: Seq<SweepPlan>, states: Seq<IslandState>|
        {
            &&& states.len() > 0
            &&& nudge_sweep(arith.warm, cs, local_of, true, before, states[0])
            &&& plans[0] == fresh_plan(params)
            &&& #[trigger] sweeps_run(arith, cs, local_of, inner, plans, states)
            &&& plans.last().next_spec() == Sweep::Done
            &&& after.points == states.last().points
            &&& after.lv == states.last().lv
            &&& after.av == states.last().av
        };
    lemma_nudging(arith.warm, cs, local_of, true, before, states[0]);
    lemma_nudge_sweep(arith.warm, cs, local_of, true, before, states[0]);
    let n = states.len() - 1;
    lemma_stands(arith, cs, local_of, params, inner, plans, states, n);
    let q = plans[n].relaxed as int;
    assert(states.len() == q + params.shock + params.settled_hold + 1);
    assert forall|j: int| #![trigger states[j]] 0 <= j < n implies went_at(
        arith,
        cs,
        local_of,
        params,
        inner,
        q,
        states,
        j,
    ) by {
        lemma_one(arith, cs, local_of, params, inner, plans, states, j);
    }
    assert(island_swept(arith, cs, local_of, params, before, after, q, states)) by {
        assert forall|j: int|
            #![trigger states[j]]
            0 <= j < q implies {
            &&& relaxing_sweep(
                arith.relax,
                cs,
                local_of,
                inner,
                j % 2 == 1,
                j >= 2,
                states[j],
                states[j + 1],
            )
            &&& j + 1 < q ==> j < 3 || !states[j + 1].resid.lt_spec(Scalar { bits: 0x3b03_126f })
        } by {
            assert(went_at(arith, cs, local_of, params, inner, q, states, j));
        }
        assert forall|j: int|
            #![trigger states[j]]
            q <= j < q + params.shock implies relaxing_sweep(
            arith.relax,
            cs,
            local_of,
            inner,
            true,
            false,
            states[j],
            states[j + 1],
        ) by {
            assert(went_at(arith, cs, local_of, params, inner, q, states, j));
        }
        assert forall|j: int|
            #![trigger states[j]]
            q + params.shock <= j < states.len() - 1 implies nudging_sweep(
            arith.hold,
            cs,
            local_of,
            false,
            states[j],
            states[j + 1],
        ) by {
            assert(went_at(arith, cs, local_of, params, inner, q, states, j));
        }
    }
}

#[verifier::spinoff_prover]
proof fn lemma_one<
    W: Fn(PointConstraint, Vec3, Side, Side) -> Option<(Speeds, Speeds)>,
    D: Fn(PointConstraint, Vec3, Side, Side) -> Scalar,
    R: Fn(PointConstraint, Scalar, Vec3, Side, Side) -> Relaxed,
    H: Fn(PointConstraint, Vec3, Side, Side) -> Option<(Speeds, Speeds)>,
>(
    arith: ContactArith<W, D, R, H>,
    cs: Seq<ContactConstraint>,
    local_of: Seq<u32>,
    params: PhaseParams,
    inner: int,
    plans: Seq<SweepPlan>,
    states: Seq<IslandState>,
    j: int,
)
    requires
        inner >= 0,
        sweeps_run(arith, cs, local_of, inner, plans, states),
        plans[0] == fresh_plan(params),
        plans.last().next_spec() == Sweep::Done,
        states[0].points.len() == cs.len(),
        states[0].lv.len() == states[0].av.len(),
        places_fit(cs, local_of, states[0].lv.len()),
        0 <= j < states.len() - 1,
    ensures
        went_at(
            arith,
            cs,
            local_of,
            params,
            inner,
            plans[states.len() - 1].relaxed as int,
            states,
            j,
        ),
{
    let n = states.len() - 1;
    let q = plans[n].relaxed as int;
    lemma_stands(arith, cs, local_of, params, inner, plans, states, n);
    lemma_stands(arith, cs, local_of, params, inner, plans, states, j);
    if j < q {
        lemma_stands(arith, cs, local_of, params, inner, plans, states, j + 1);
    }
    assert(plans[j].relaxed == if j < q {
        j
    } else {
        q
    });
    lemma_sweeps_keep(arith, cs, local_of, inner, plans, states, j);
    assert(sweep_step(arith, cs, local_of, inner, plans[j], states[j], states[j + 1]));
    if j < q {
        assert(plans[j + 1].relaxed == j + 1);
        lemma_relaxing(
            arith.relax,
            cs,
            local_of,
            inner,
            j % 2 == 1,
            j >= 2,
            states[j],
            states[j + 1],
        );
    } else if j < q + params.shock {
        lemma_relaxing(
            arith.relax,
            cs,
            local_of,
            inner,
            true,
            false,
            states[j],
            states[j + 1],
        );
    } else {
        lemma_nudging(arith.hold, cs, local_of, false, states[j], states[j + 1]);
    }
    if j + 1 < q {
        assert(plans[j + 1].relaxed == j + 1);
    }
}

/// What sweep `j` does.
spec fn went_at<
    W: Fn(PointConstraint, Vec3, Side, Side) -> Option<(Speeds, Speeds)>,
    D: Fn(PointConstraint, Vec3, Side, Side) -> Scalar,
    R: Fn(PointConstraint, Scalar, Vec3, Side, Side) -> Relaxed,
    H: Fn(PointConstraint, Vec3, Side, Side) -> Option<(Speeds, Speeds)>,
>(
    arith: ContactArith<W, D, R, H>,
    cs: Seq<ContactConstraint>,
    local_of: Seq<u32>,
    params: PhaseParams,
    inner: int,
    q: int,
    states: Seq<IslandState>,
    j: int,
) -> bool {
    if j < q {
        &&& relaxing_sweep(
            arith.relax,
            cs,
            local_of,
            inner,
            j % 2 == 1,
            j >= 2,
            states[j],
            states[j + 1],
        )
        &&& j + 1 < q ==> j < 3 || !states[j + 1].resid.lt_spec(Scalar { bits: 0x3b03_126f })
    } else if j < q + params.shock {
        relaxing_sweep(
            arith.relax,
            cs,
            local_of,
            inner,
            true,
            false,
            states[j],
            states[j + 1],
        )
    } else {
        nudging_sweep(arith.hold, cs, local_of, false, states[j], states[j + 1])
    }
}

} // verus!
