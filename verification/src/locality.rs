//! What the result of solving an island depends on: its own bodies, and nothing
//! else. So the islands may be solved in any order.

use crate::constraint::{ContactConstraint, PointConstraint};
use crate::relax::{
    events_fit, foreign, fresh_plan, island_solved, lemma_nudge_sweep, lemma_nudge_trace,
    lemma_relax_sweep, lemma_relax_trace, lemma_sweep_events, nudge_event, nudge_sweep,
    nudge_trace, place_of, places_fit, put, relax_event, relax_sweep, relax_trace, relaxed, nudged, same_points,
    same_speeds, side_at, solving_changes_only_its_own, sweep_events, sweep_step, sweeps_run,
    ContactArith, IslandState, Push, Relaxed, Side, Speeds,
};
use crate::scalar::{Scalar, Vec3};
use crate::schedule::{
    at_least_one, has_warm_impulse_spec, passes_over_spec, PhaseParams, Sweep, SweepPlan,
};
use vstd::prelude::*;

verus! {

/// The arithmetic gives the same answer to the same question.
pub open spec fn steady_contact<
    W: Fn(PointConstraint, Vec3, Side, Side) -> Option<(Speeds, Speeds)>,
    D: Fn(PointConstraint, Vec3, Side, Side) -> Scalar,
    R: Fn(PointConstraint, Scalar, Vec3, Side, Side) -> Relaxed,
    H: Fn(PointConstraint, Vec3, Side, Side) -> Option<(Speeds, Speeds)>,
>(arith: ContactArith<W, D, R, H>) -> bool {
    &&& steady_nudge(arith.warm)
    &&& steady_relax(arith.relax)
    &&& steady_nudge(arith.hold)
}

/// The arithmetic gives the same answer to the same question.
pub open spec fn steady_relax<
    D: Fn(PointConstraint, Vec3, Side, Side) -> Scalar,
    R: Fn(PointConstraint, Scalar, Vec3, Side, Side) -> Relaxed,
>(
    relax: Push<D, R>,
) -> bool {
    &&& forall|p: PointConstraint, n: Vec3, a: Side, b: Side, r: Scalar, s: Scalar| #[trigger]
        relax.demand.ensures((p, n, a, b), r) && #[trigger] relax.demand.ensures((p, n, a, b), s)
            ==> r == s
    &&& forall|
        p: PointConstraint,
        w: Scalar,
        n: Vec3,
        a: Side,
        b: Side,
        r: Relaxed,
        s: Relaxed,
    | #[trigger]
        relax.apply.ensures((p, w, n, a, b), r) && #[trigger] relax.apply.ensures(
            (p, w, n, a, b),
            s,
        ) ==> r == s
}

/// The arithmetic gives the same answer to the same question.
pub open spec fn steady_nudge<
    N: Fn(PointConstraint, Vec3, Side, Side) -> Option<(Speeds, Speeds)>,
>(nudge: N) -> bool {
    forall|
        p: PointConstraint,
        n: Vec3,
        a: Side,
        b: Side,
        r: Option<(Speeds, Speeds)>,
        s: Option<(Speeds, Speeds)>,
    | #[trigger]
        nudge.ensures((p, n, a, b), r) && #[trigger] nudge.ensures((p, n, a, b), s) ==> r == s
}

/// The body is in one of the contacts.
pub open spec fn takes_part(cs: Seq<ContactConstraint>, u: u32) -> bool {
    exists|c: int| 0 <= c < cs.len() && ((#[trigger] cs[c]).a == u || cs[c].b == u)
}

/// Two tables of places tell the bodies of the contacts apart alike, and give the
/// same bodies a place.
pub open spec fn alike_places(cs: Seq<ContactConstraint>, l1: Seq<u32>, l2: Seq<u32>) -> bool {
    forall|u: u32, v: u32|
        #![trigger takes_part(cs, u), takes_part(cs, v)]
        takes_part(cs, u) && takes_part(cs, v) ==> {
            &&& place_of(l1, u) is None <==> place_of(l2, u) is None
            &&& place_of(l1, u) == place_of(l1, v) <==> place_of(l2, u) == place_of(l2, v)
        }
}

/// The states, each with its table of places, agree in the points, in the
/// corrections, and in the speeds of the bodies of the contacts.
pub open spec fn agree(
    cs: Seq<ContactConstraint>,
    l1: Seq<u32>,
    x: IslandState,
    l2: Seq<u32>,
    y: IslandState,
) -> bool {
    &&& x.points == y.points
    &&& x.resid == y.resid
    &&& agree_in_speed(cs, l1, x, l2, y)
}

/// The states agree in the speeds of the bodies of the contacts.
pub open spec fn agree_in_speed(
    cs: Seq<ContactConstraint>,
    l1: Seq<u32>,
    x: IslandState,
    l2: Seq<u32>,
    y: IslandState,
) -> bool {
    forall|u: u32| #[trigger]
        takes_part(cs, u) ==> side_at(l1, x.lv, x.av, u) == side_at(l2, y.lv, y.av, u)
}

/// A state whose lists have places for the contacts.
pub open spec fn roomy(cs: Seq<ContactConstraint>, local_of: Seq<u32>, x: IslandState) -> bool {
    &&& x.lv.len() == x.av.len()
    &&& places_fit(cs, local_of, x.lv.len())
    &&& x.points.len() == cs.len()
}

/// Writing the same speeds to the bodies of a contact keeps the agreement.
proof fn lemma_put_agrees(
    cs: Seq<ContactConstraint>,
    l1: Seq<u32>,
    l2: Seq<u32>,
    x: IslandState,
    x2: IslandState,
    y: IslandState,
    y2: IslandState,
    c: int,
    p: Speeds,
    q: Speeds,
)
    requires
        alike_places(cs, l1, l2),
        roomy(cs, l1, x),
        roomy(cs, l2, y),
        agree_in_speed(cs, l1, x, l2, y),
        0 <= c < cs.len(),
        x2.lv == put(put(x.lv, place_of(l1, cs[c].a), p.lin), place_of(l1, cs[c].b), q.lin),
        x2.av == put(put(x.av, place_of(l1, cs[c].a), p.ang), place_of(l1, cs[c].b), q.ang),
        y2.lv == put(put(y.lv, place_of(l2, cs[c].a), p.lin), place_of(l2, cs[c].b), q.lin),
        y2.av == put(put(y.av, place_of(l2, cs[c].a), p.ang), place_of(l2, cs[c].b), q.ang),
    ensures
        agree_in_speed(cs, l1, x2, l2, y2),
{
    let (a, b) = (cs[c].a, cs[c].b);
    assert(takes_part(cs, a) && takes_part(cs, b));
    assert forall|u: u32| #[trigger] takes_part(cs, u) implies side_at(l1, x2.lv, x2.av, u)
        == side_at(l2, y2.lv, y2.av, u) by {
        assert(side_at(l1, x.lv, x.av, u) == side_at(l2, y.lv, y.av, u));
        let d = choose|d: int| 0 <= d < cs.len() && ((#[trigger] cs[d]).a == u || cs[d].b == u);
        assert(cs[d].a < l1.len());
        assert(takes_part(cs, u) && takes_part(cs, a));
        assert(takes_part(cs, u) && takes_part(cs, b));
    }
}

/// A body of the contacts has its place inside the lists.
proof fn lemma_own_place(cs: Seq<ContactConstraint>, local_of: Seq<u32>, q: usize, n: nat)
    requires
        places_fit(cs, local_of, n),
        !foreign(cs, local_of, q),
    ensures
        q < n,
{
    let c = choose|c: int|
        0 <= c < cs.len() && !(place_of(local_of, (#[trigger] cs[c]).a) != Some(q) && place_of(
            local_of,
            cs[c].b,
        ) != Some(q));
    assert(cs[c].a < local_of.len());
}

proof fn lemma_relax_event_agrees<
    D: Fn(PointConstraint, Vec3, Side, Side) -> Scalar,
    R: Fn(PointConstraint, Scalar, Vec3, Side, Side) -> Relaxed,
>(
    relax: Push<D, R>,
    cs: Seq<ContactConstraint>,
    l1: Seq<u32>,
    l2: Seq<u32>,
    reduce: bool,
    e: (int, int),
    x: IslandState,
    x2: IslandState,
    y: IslandState,
    y2: IslandState,
)
    requires
        steady_relax(relax),
        alike_places(cs, l1, l2),
        0 <= e.0 < cs.len(),
        roomy(cs, l1, x),
        roomy(cs, l2, y),
        agree(cs, l1, x, l2, y),
        relax_event(relax, cs, l1, reduce, x, e, x2),
        relax_event(relax, cs, l2, reduce, y, e, y2),
    ensures
        agree(cs, l1, x2, l2, y2),
{
    let c = cs[e.0];
    assert(takes_part(cs, c.a) && takes_part(cs, c.b));
    let p = x.points[e.0][e.1];
    if !passes_over_spec(reduce, p) {
        let (sa, sb) = (side_at(l1, x.lv, x.av, c.a), side_at(l1, x.lv, x.av, c.b));
        let (w, r) = choose|w: Scalar, r: Relaxed| #[trigger]
            relax.pushed(p, c.normal, sa, sb, w, r) && x2 == relaxed(cs, l1, x, e, w, r);
        let (v, q) = choose|w: Scalar, r: Relaxed| #[trigger]
            relax.pushed(p, c.normal, sa, sb, w, r) && y2 == relaxed(cs, l2, y, e, w, r);
        assert(w == v);
        assert(r == q);
        lemma_put_agrees(cs, l1, l2, x, x2, y, y2, e.0, r.a, r.b);
    }
}

proof fn lemma_nudge_event_agrees<
    N: Fn(PointConstraint, Vec3, Side, Side) -> Option<(Speeds, Speeds)>,
>(
    nudge: N,
    cs: Seq<ContactConstraint>,
    l1: Seq<u32>,
    l2: Seq<u32>,
    warm: bool,
    e: (int, int),
    x: IslandState,
    x2: IslandState,
    y: IslandState,
    y2: IslandState,
)
    requires
        steady_nudge(nudge),
        alike_places(cs, l1, l2),
        0 <= e.0 < cs.len(),
        roomy(cs, l1, x),
        roomy(cs, l2, y),
        agree(cs, l1, x, l2, y),
        nudge_event(nudge, cs, l1, warm, x, e, x2),
        nudge_event(nudge, cs, l2, warm, y, e, y2),
    ensures
        agree(cs, l1, x2, l2, y2),
{
    let c = cs[e.0];
    assert(takes_part(cs, c.a) && takes_part(cs, c.b));
    let p = x.points[e.0][e.1];
    if !warm || has_warm_impulse_spec(p.terms.warm) {
        let (sa, sb) = (side_at(l1, x.lv, x.av, c.a), side_at(l1, x.lv, x.av, c.b));
        let r = choose|r: Option<(Speeds, Speeds)>| #[trigger]
            nudge.ensures((p, c.normal, sa, sb), r) && x2 == nudged(cs, l1, x, e, r);
        let q = choose|r: Option<(Speeds, Speeds)>| #[trigger]
            nudge.ensures((p, c.normal, sa, sb), r) && y2 == nudged(cs, l2, y, e, r);
        assert(r == q);
        if let Some((u, v)) = r {
            lemma_put_agrees(cs, l1, l2, x, x2, y, y2, e.0, u, v);
        }
    }
}

proof fn lemma_relax_traces_agree<
    D: Fn(PointConstraint, Vec3, Side, Side) -> Scalar,
    R: Fn(PointConstraint, Scalar, Vec3, Side, Side) -> Relaxed,
>(
    relax: Push<D, R>,
    cs: Seq<ContactConstraint>,
    l1: Seq<u32>,
    l2: Seq<u32>,
    reduce: bool,
    events: Seq<(int, int)>,
    xs: Seq<IslandState>,
    ys: Seq<IslandState>,
    k: int,
)
    requires
        steady_relax(relax),
        alike_places(cs, l1, l2),
        roomy(cs, l1, xs[0]),
        roomy(cs, l2, ys[0]),
        agree(cs, l1, xs[0], l2, ys[0]),
        events_fit(events, xs[0].points),
        relax_trace(relax, cs, l1, reduce, events, xs),
        relax_trace(relax, cs, l2, reduce, events, ys),
        0 <= k <= events.len(),
    ensures
        agree(cs, l1, xs[k], l2, ys[k]),
    decreases k,
{
    if k > 0 {
        lemma_relax_traces_agree(relax, cs, l1, l2, reduce, events, xs, ys, k - 1);
        lemma_relax_trace(relax, cs, l1, reduce, events, xs, k - 1);
        lemma_relax_trace(relax, cs, l2, reduce, events, ys, k - 1);
        assert(same_points(xs[0].points, xs[k - 1].points));
        assert(same_points(ys[0].points, ys[k - 1].points));
        assert(relax_event(relax, cs, l1, reduce, xs[k - 1], events[k - 1], xs[k - 1 + 1]));
        assert(relax_event(relax, cs, l2, reduce, ys[k - 1], events[k - 1], ys[k - 1 + 1]));
        assert(0 <= events[k - 1].0 < cs.len());
        lemma_relax_event_agrees(
            relax,
            cs,
            l1,
            l2,
            reduce,
            events[k - 1],
            xs[k - 1],
            xs[k],
            ys[k - 1],
            ys[k],
        );
    }
}

proof fn lemma_nudge_traces_agree<
    N: Fn(PointConstraint, Vec3, Side, Side) -> Option<(Speeds, Speeds)>,
>(
    nudge: N,
    cs: Seq<ContactConstraint>,
    l1: Seq<u32>,
    l2: Seq<u32>,
    warm: bool,
    events: Seq<(int, int)>,
    xs: Seq<IslandState>,
    ys: Seq<IslandState>,
    k: int,
)
    requires
        steady_nudge(nudge),
        alike_places(cs, l1, l2),
        roomy(cs, l1, xs[0]),
        roomy(cs, l2, ys[0]),
        agree(cs, l1, xs[0], l2, ys[0]),
        events_fit(events, xs[0].points),
        nudge_trace(nudge, cs, l1, warm, events, xs),
        nudge_trace(nudge, cs, l2, warm, events, ys),
        0 <= k <= events.len(),
    ensures
        agree(cs, l1, xs[k], l2, ys[k]),
    decreases k,
{
    if k > 0 {
        lemma_nudge_traces_agree(nudge, cs, l1, l2, warm, events, xs, ys, k - 1);
        lemma_nudge_trace(nudge, cs, l1, warm, events, xs, k - 1);
        lemma_nudge_trace(nudge, cs, l2, warm, events, ys, k - 1);
        assert(nudge_event(nudge, cs, l1, warm, xs[k - 1], events[k - 1], xs[k - 1 + 1]));
        assert(nudge_event(nudge, cs, l2, warm, ys[k - 1], events[k - 1], ys[k - 1 + 1]));
        assert(0 <= events[k - 1].0 < cs.len());
        lemma_nudge_event_agrees(
            nudge,
            cs,
            l1,
            l2,
            warm,
            events[k - 1],
            xs[k - 1],
            xs[k],
            ys[k - 1],
            ys[k],
        );
    }
}

proof fn lemma_relax_sweeps_agree<
    D: Fn(PointConstraint, Vec3, Side, Side) -> Scalar,
    R: Fn(PointConstraint, Scalar, Vec3, Side, Side) -> Relaxed,
>(
    relax: Push<D, R>,
    cs: Seq<ContactConstraint>,
    l1: Seq<u32>,
    l2: Seq<u32>,
    inner: int,
    reverse: bool,
    reduce: bool,
    x: IslandState,
    x2: IslandState,
    y: IslandState,
    y2: IslandState,
)
    requires
        steady_relax(relax),
        alike_places(cs, l1, l2),
        roomy(cs, l1, x),
        roomy(cs, l2, y),
        x.points == y.points,
        agree_in_speed(cs, l1, x, l2, y),
        relax_sweep(relax, cs, l1, inner, reverse, reduce, x, x2),
        relax_sweep(relax, cs, l2, inner, reverse, reduce, y, y2),
    ensures
        agree(cs, l1, x2, l2, y2),
        roomy(cs, l1, x2),
        roomy(cs, l2, y2),
{
    let events = sweep_events(x.points, x.points.len() as int, inner, reverse);
    let zero = Scalar::zero_spec();
    let xs = choose|states: Seq<IslandState>| #[trigger]
        relax_trace(relax, cs, l1, reduce, events, states) && states[0] == (IslandState {
            resid: zero,
            ..x
        }) && states.last() == x2;
    let ys = choose|states: Seq<IslandState>| #[trigger]
        relax_trace(relax, cs, l2, reduce, events, states) && states[0] == (IslandState {
            resid: zero,
            ..y
        }) && states.last() == y2;
    lemma_sweep_events(x.points, x.points.len() as int, inner, reverse);
    lemma_relax_sweep(relax, cs, l1, inner, reverse, reduce, x, x2);
    lemma_relax_sweep(relax, cs, l2, inner, reverse, reduce, y, y2);
    assert(same_points(x.points, x2.points));
    assert(same_points(y.points, y2.points));
    lemma_relax_traces_agree(relax, cs, l1, l2, reduce, events, xs, ys, events.len() as int);
}

proof fn lemma_nudge_sweeps_agree<
    N: Fn(PointConstraint, Vec3, Side, Side) -> Option<(Speeds, Speeds)>,
>(
    nudge: N,
    cs: Seq<ContactConstraint>,
    l1: Seq<u32>,
    l2: Seq<u32>,
    warm: bool,
    x: IslandState,
    x2: IslandState,
    y: IslandState,
    y2: IslandState,
)
    requires
        steady_nudge(nudge),
        alike_places(cs, l1, l2),
        roomy(cs, l1, x),
        roomy(cs, l2, y),
        x.points == y.points,
        agree_in_speed(cs, l1, x, l2, y),
        nudge_sweep(nudge, cs, l1, warm, x, x2),
        nudge_sweep(nudge, cs, l2, warm, y, y2),
    ensures
        agree(cs, l1, x2, l2, y2),
        roomy(cs, l1, x2),
        roomy(cs, l2, y2),
{
    let events = sweep_events(x.points, x.points.len() as int, 1, false);
    let zero = Scalar::zero_spec();
    let xs = choose|states: Seq<IslandState>| #[trigger]
        nudge_trace(nudge, cs, l1, warm, events, states) && states[0] == (IslandState {
            resid: zero,
            ..x
        }) && states.last() == x2;
    let ys = choose|states: Seq<IslandState>| #[trigger]
        nudge_trace(nudge, cs, l2, warm, events, states) && states[0] == (IslandState {
            resid: zero,
            ..y
        }) && states.last() == y2;
    lemma_sweep_events(x.points, x.points.len() as int, 1, false);
    lemma_nudge_sweep(nudge, cs, l1, warm, x, x2);
    lemma_nudge_sweep(nudge, cs, l2, warm, y, y2);
    lemma_nudge_traces_agree(nudge, cs, l1, l2, warm, events, xs, ys, events.len() as int);
}

proof fn lemma_sweeps_agree<
    W: Fn(PointConstraint, Vec3, Side, Side) -> Option<(Speeds, Speeds)>,
    D: Fn(PointConstraint, Vec3, Side, Side) -> Scalar,
    R: Fn(PointConstraint, Scalar, Vec3, Side, Side) -> Relaxed,
    H: Fn(PointConstraint, Vec3, Side, Side) -> Option<(Speeds, Speeds)>,
>(
    arith: ContactArith<W, D, R, H>,
    cs: Seq<ContactConstraint>,
    l1: Seq<u32>,
    l2: Seq<u32>,
    inner: int,
    ps: Seq<SweepPlan>,
    xs: Seq<IslandState>,
    qs: Seq<SweepPlan>,
    ys: Seq<IslandState>,
    k: int,
)
    requires
        steady_contact(arith),
        alike_places(cs, l1, l2),
        roomy(cs, l1, xs[0]),
        roomy(cs, l2, ys[0]),
        agree(cs, l1, xs[0], l2, ys[0]),
        ps[0] == qs[0],
        sweeps_run(arith, cs, l1, inner, ps, xs),
        sweeps_run(arith, cs, l2, inner, qs, ys),
        0 <= k < xs.len(),
        k < ys.len(),
    ensures
        ps[k] == qs[k],
        agree(cs, l1, xs[k], l2, ys[k]),
        roomy(cs, l1, xs[k]),
        roomy(cs, l2, ys[k]),
    decreases k,
{
    if k > 0 {
        lemma_sweeps_agree(arith, cs, l1, l2, inner, ps, xs, qs, ys, k - 1);
        let (x, x2, y, y2) = (xs[k - 1], xs[k - 1 + 1], ys[k - 1], ys[k - 1 + 1]);
        assert(sweep_step(arith, cs, l1, inner, ps[k - 1], x, x2));
        assert(sweep_step(arith, cs, l2, inner, qs[k - 1], y, y2));
        match ps[k - 1].next_spec() {
            Sweep::Relax { reverse, reduce } => {
                lemma_relax_sweeps_agree(
                    arith.relax,
                    cs,
                    l1,
                    l2,
                    inner,
                    reverse,
                    reduce,
                    x,
                    x2,
                    y,
                    y2,
                );
            },
            Sweep::Shock => {
                lemma_relax_sweeps_agree(
                    arith.relax,
                    cs,
                    l1,
                    l2,
                    inner,
                    true,
                    false,
                    x,
                    x2,
                    y,
                    y2,
                );
            },
            Sweep::Hold => {
                lemma_nudge_sweeps_agree(arith.hold, cs, l1, l2, false, x, x2, y, y2);
            },
            Sweep::Done => {},
        }
    }
}

/// The result of solving an island depends only on its points and on the speeds of
/// its own bodies: two solves that agree in those end with the same impulses and
/// the same speeds of those bodies, wherever the bodies have their places.
pub proof fn island_depends_on_its_own<
    W: Fn(PointConstraint, Vec3, Side, Side) -> Option<(Speeds, Speeds)>,
    D: Fn(PointConstraint, Vec3, Side, Side) -> Scalar,
    R: Fn(PointConstraint, Scalar, Vec3, Side, Side) -> Relaxed,
    H: Fn(PointConstraint, Vec3, Side, Side) -> Option<(Speeds, Speeds)>,
>(
    arith: ContactArith<W, D, R, H>,
    cs: Seq<ContactConstraint>,
    l1: Seq<u32>,
    l2: Seq<u32>,
    params: PhaseParams,
    x: IslandState,
    x2: IslandState,
    y: IslandState,
    y2: IslandState,
)
    requires
        steady_contact(arith),
        alike_places(cs, l1, l2),
        roomy(cs, l1, x),
        roomy(cs, l2, y),
        x.points == y.points,
        agree_in_speed(cs, l1, x, l2, y),
        island_solved(arith, cs, l1, params, x, x2),
        island_solved(arith, cs, l2, params, y, y2),
    ensures
        x2.points == y2.points,
        agree_in_speed(cs, l1, x2, l2, y2),
{
    let inner = at_least_one(params.normal_inner) as int;
    let (ps, xs) = choose|plans: Seq<SweepPlan>, states: Seq<IslandState>|
        {
            &&& states.len() > 0
            &&& nudge_sweep(arith.warm, cs, l1, true, x, states[0])
            &&& plans[0] == fresh_plan(params)
            &&& #[trigger] sweeps_run(arith, cs, l1, inner, plans, states)
            &&& plans.last().next_spec() == Sweep::Done
            &&& x2.points == states.last().points
            &&& x2.lv == states.last().lv
            &&& x2.av == states.last().av
        };
    let (qs, ys) = choose|plans: Seq<SweepPlan>, states: Seq<IslandState>|
        {
            &&& states.len() > 0
            &&& nudge_sweep(arith.warm, cs, l2, true, y, states[0])
            &&& plans[0] == fresh_plan(params)
            &&& #[trigger] sweeps_run(arith, cs, l2, inner, plans, states)
            &&& plans.last().next_spec() == Sweep::Done
            &&& y2.points == states.last().points
            &&& y2.lv == states.last().lv
            &&& y2.av == states.last().av
        };
    lemma_nudge_sweeps_agree(arith.warm, cs, l1, l2, true, x, xs[0], y, ys[0]);
    let n = if xs.len() < ys.len() {
        xs.len() as int
    } else {
        ys.len() as int
    };
    lemma_sweeps_agree(arith, cs, l1, l2, inner, ps, xs, qs, ys, n - 1);
    if n < xs.len() {
        assert(sweep_step(arith, cs, l1, inner, ps[n - 1], xs[n - 1], xs[n - 1 + 1]));
    }
    if n < ys.len() {
        assert(sweep_step(arith, cs, l2, inner, qs[n - 1], ys[n - 1], ys[n - 1 + 1]));
    }
}

proof fn lemma_speeds_to_sides(
    cs: Seq<ContactConstraint>,
    local_of: Seq<u32>,
    x: IslandState,
    y: IslandState,
)
    requires
        forall|q: usize|
            #![trigger foreign(cs, local_of, q)]
            !foreign(cs, local_of, q) ==> same_speeds(x, y, q as int),
    ensures
        agree_in_speed(cs, local_of, x, local_of, y),
{
    assert forall|u: u32| #[trigger] takes_part(cs, u) implies side_at(local_of, x.lv, x.av, u)
        == side_at(local_of, y.lv, y.av, u) by {
        if let Some(q) = place_of(local_of, u) {
            let c = choose|c: int| 0 <= c < cs.len() && ((#[trigger] cs[c]).a == u || cs[c].b == u);
            assert(!foreign(cs, local_of, q)) by {
                assert(place_of(local_of, cs[c].a) == Some(q) || place_of(local_of, cs[c].b)
                    == Some(q));
            }
            assert(same_speeds(x, y, q as int));
        }
    }
}

proof fn lemma_sides_to_speeds(
    cs: Seq<ContactConstraint>,
    local_of: Seq<u32>,
    x: IslandState,
    y: IslandState,
)
    requires
        agree_in_speed(cs, local_of, x, local_of, y),
    ensures
        forall|q: usize|
            #![trigger foreign(cs, local_of, q)]
            !foreign(cs, local_of, q) ==> same_speeds(x, y, q as int),
{
    assert forall|q: usize|
        #![trigger foreign(cs, local_of, q)]
        !foreign(cs, local_of, q) implies same_speeds(x, y, q as int) by {
        let c = choose|c: int|
            0 <= c < cs.len() && !(place_of(local_of, (#[trigger] cs[c]).a) != Some(q) && place_of(
                local_of,
                cs[c].b,
            ) != Some(q));
        let (a, b) = (cs[c].a, cs[c].b);
        assert(takes_part(cs, a) && takes_part(cs, b));
        assert(side_at(local_of, x.lv, x.av, a) == side_at(local_of, y.lv, y.av, a));
        assert(side_at(local_of, x.lv, x.av, b) == side_at(local_of, y.lv, y.av, b));
    }
}

/// No body is in contacts of both lists.
pub open spec fn apart(
    c: Seq<ContactConstraint>,
    d: Seq<ContactConstraint>,
    local_of: Seq<u32>,
) -> bool {
    forall|q: usize|
        #![trigger foreign(c, local_of, q)]
        #![trigger foreign(d, local_of, q)]
        foreign(c, local_of, q) || foreign(d, local_of, q)
}

/// The points of one island with the speeds of a group.
pub open spec fn with_speeds(
    points: Seq<Seq<PointConstraint>>,
    lv: Seq<Vec3>,
    av: Seq<Vec3>,
) -> IslandState {
    IslandState { points, lv, av, resid: Scalar::zero_spec() }
}

/// Two islands without a common body may be solved in either order: the impulses
/// and all speeds come out the same.
pub proof fn islands_may_change_places<
    W: Fn(PointConstraint, Vec3, Side, Side) -> Option<(Speeds, Speeds)>,
    D: Fn(PointConstraint, Vec3, Side, Side) -> Scalar,
    R: Fn(PointConstraint, Scalar, Vec3, Side, Side) -> Relaxed,
    H: Fn(PointConstraint, Vec3, Side, Side) -> Option<(Speeds, Speeds)>,
>(
    arith: ContactArith<W, D, R, H>,
    local_of: Seq<u32>,
    params: PhaseParams,
    c: Seq<ContactConstraint>,
    d: Seq<ContactConstraint>,
    start: IslandState,
    p: Seq<Seq<PointConstraint>>,
    q: Seq<Seq<PointConstraint>>,
    first_c: IslandState,
    then_d: IslandState,
    first_d: IslandState,
    then_c: IslandState,
)
    requires
        steady_contact(arith),
        apart(c, d, local_of),
        start.lv.len() <= usize::MAX,
        roomy(c, local_of, with_speeds(p, start.lv, start.av)),
        roomy(d, local_of, with_speeds(q, start.lv, start.av)),
        island_solved(arith, c, local_of, params, with_speeds(p, start.lv, start.av), first_c),
        island_solved(arith, d, local_of, params, with_speeds(q, first_c.lv, first_c.av), then_d),
        island_solved(arith, d, local_of, params, with_speeds(q, start.lv, start.av), first_d),
        island_solved(arith, c, local_of, params, with_speeds(p, first_d.lv, first_d.av), then_c),
    ensures
        first_c.points == then_c.points,
        first_d.points == then_d.points,
        then_c.lv == then_d.lv,
        then_c.av == then_d.av,
{
    let sc = with_speeds(p, start.lv, start.av);
    let sd = with_speeds(q, start.lv, start.av);
    let mc = with_speeds(p, first_d.lv, first_d.av);
    let md = with_speeds(q, first_c.lv, first_c.av);
    lemma_speeds_only(arith, c, local_of, params, sc, first_c);
    lemma_speeds_only(arith, d, local_of, params, sd, first_d);
    lemma_speeds_only(arith, c, local_of, params, mc, then_c);
    lemma_speeds_only(arith, d, local_of, params, md, then_d);
    assert forall|k: usize|
        #![trigger foreign(c, local_of, k)]
        !foreign(c, local_of, k) implies same_speeds(sc, mc, k as int) by {
        assert(foreign(d, local_of, k));
        lemma_own_place(c, local_of, k, start.lv.len());
        assert(same_speeds(sd, first_d, k as int));
    }
    lemma_speeds_to_sides(c, local_of, sc, mc);
    assert forall|k: usize|
        #![trigger foreign(d, local_of, k)]
        !foreign(d, local_of, k) implies same_speeds(sd, md, k as int) by {
        assert(foreign(c, local_of, k));
        lemma_own_place(d, local_of, k, start.lv.len());
        assert(same_speeds(sc, first_c, k as int));
    }
    lemma_speeds_to_sides(d, local_of, sd, md);
    island_depends_on_its_own(arith, c, local_of, local_of, params, sc, first_c, mc, then_c);
    island_depends_on_its_own(arith, d, local_of, local_of, params, sd, first_d, md, then_d);
    lemma_sides_to_speeds(c, local_of, first_c, then_c);
    lemma_sides_to_speeds(d, local_of, first_d, then_d);
    assert forall|k: int| 0 <= k < start.lv.len() implies #[trigger] then_c.lv[k] == then_d.lv[k]
        && then_c.av[k] == then_d.av[k] by {
        let u = k as usize;
        if !foreign(c, local_of, u) {
            assert(foreign(d, local_of, u));
            assert(same_speeds(first_c, then_c, k));
            assert(same_speeds(md, then_d, k));
        } else if !foreign(d, local_of, u) {
            assert(same_speeds(first_d, then_d, k));
            assert(same_speeds(mc, then_c, k));
        } else {
            assert(same_speeds(sc, first_c, k));
            assert(same_speeds(md, then_d, k));
            assert(same_speeds(sd, first_d, k));
            assert(same_speeds(mc, then_c, k));
        }
    }
    assert(then_c.lv =~= then_d.lv);
    assert forall|k: int| 0 <= k < start.lv.len() implies then_c.av[k] == then_d.av[k] by {
        assert(then_c.lv[k] == then_d.lv[k]);
    }
    assert(then_c.av =~= then_d.av);
}

/// The speeds of bodies that are in none of the contacts are kept.
pub open spec fn others_kept(
    cs: Seq<ContactConstraint>,
    local_of: Seq<u32>,
    x: IslandState,
    y: IslandState,
) -> bool {
    &&& y.lv.len() == x.lv.len()
    &&& y.av.len() == x.av.len()
    &&& forall|q: usize|
        #![trigger foreign(cs, local_of, q)]
        foreign(cs, local_of, q) && q < x.lv.len() ==> same_speeds(x, y, q as int)
}

proof fn lemma_speeds_only<
    W: Fn(PointConstraint, Vec3, Side, Side) -> Option<(Speeds, Speeds)>,
    D: Fn(PointConstraint, Vec3, Side, Side) -> Scalar,
    R: Fn(PointConstraint, Scalar, Vec3, Side, Side) -> Relaxed,
    H: Fn(PointConstraint, Vec3, Side, Side) -> Option<(Speeds, Speeds)>,
>(
    arith: ContactArith<W, D, R, H>,
    cs: Seq<ContactConstraint>,
    local_of: Seq<u32>,
    params: PhaseParams,
    x: IslandState,
    y: IslandState,
)
    requires
        island_solved(arith, cs, local_of, params, x, y),
        roomy(cs, local_of, x),
    ensures
        others_kept(cs, local_of, x, y),
{
    solving_changes_only_its_own(arith, cs, local_of, params, x, y);
}

} // verus!
