//! The iteration of contact impulses over an island: which point is relaxed when,
//! and which speeds it reads and writes.

use crate::constraint::{ContactConstraint, PointConstraint};
use crate::group::{local_slot, NO_LOCAL};
use crate::scalar::{Scalar, Vec3};
use crate::schedule::{
    at_least_one, has_warm_impulse, has_warm_impulse_spec, passes_over, passes_over_spec,
    sweeps_come_to_an_end, visit, visited, PhaseParams, Sweep, SweepPlan,
};
use vstd::prelude::*;

verus! {

/// The speeds of a body.
#[derive(Clone, Copy, Debug, PartialEq, Eq, Structural)]
pub struct Speeds {
    pub lin: Vec3,
    pub ang: Vec3,
}

/// One side of a contact: the body, whether it has a place in its group, and its
/// speeds. A body without a place rests.
#[derive(Clone, Copy, Debug, PartialEq, Eq, Structural)]
pub struct Side {
    pub body: u32,
    pub placed: bool,
    pub speeds: Speeds,
}

/// What relaxing a point gives: its new tangential impulses, the new speeds of the
/// two bodies, and the largest correction.
#[derive(Clone, Copy, Debug, PartialEq, Eq, Structural)]
pub struct Relaxed {
    pub pt1: Scalar,
    pub pt2: Scalar,
    pub a: Speeds,
    pub b: Speeds,
    pub resid: Scalar,
}

/// The impulses and speeds of an island, and the largest correction so far.
pub struct IslandState {
    pub points: Seq<Seq<PointConstraint>>,
    pub lv: Seq<Vec3>,
    pub av: Seq<Vec3>,
    pub resid: Scalar,
}

/// The points of the constraints.
pub open spec fn points_of(cs: Seq<ContactConstraint>) -> Seq<Seq<PointConstraint>> {
    cs.map_values(|c: ContactConstraint| c.points@)
}

/// The constraints are the same but for the impulses of their points.
pub open spec fn same_contacts(x: Seq<ContactConstraint>, y: Seq<ContactConstraint>) -> bool {
    &&& x.len() == y.len()
    &&& forall|c: int|
        #![trigger x[c]]
        #![trigger y[c]]
        0 <= c < x.len() ==> x[c].a == y[c].a && x[c].b == y[c].b && x[c].normal == y[c].normal
            && x[c].warm_slot == y[c].warm_slot && x[c].warm_space == y[c].warm_space
            && x[c].points@.len() == y[c].points@.len()
}

/// The place of a body, if it has one.
pub open spec fn place_of(local_of: Seq<u32>, body: u32) -> Option<usize> {
    if local_of[body as int] == NO_LOCAL {
        None
    } else {
        Some(local_of[body as int] as usize)
    }
}

/// A body as a side of a contact.
pub open spec fn side_at(local_of: Seq<u32>, lv: Seq<Vec3>, av: Seq<Vec3>, body: u32) -> Side {
    match place_of(local_of, body) {
        Some(k) => Side {
            body,
            placed: true,
            speeds: Speeds { lin: lv[k as int], ang: av[k as int] },
        },
        None => Side {
            body,
            placed: false,
            speeds: Speeds { lin: Vec3::zero_spec(), ang: Vec3::zero_spec() },
        },
    }
}

/// The list with a value put at a place, if there is one.
pub open spec fn put(s: Seq<Vec3>, slot: Option<usize>, v: Vec3) -> Seq<Vec3> {
    match slot {
        Some(k) => s.update(k as int, v),
        None => s,
    }
}

/// The bodies of the constraints have places inside the lists.
pub open spec fn places_fit(cs: Seq<ContactConstraint>, local_of: Seq<u32>, n: nat) -> bool {
    forall|c: int|
        0 <= c < cs.len() ==> {
            &&& (#[trigger] cs[c]).a < local_of.len()
            &&& cs[c].b < local_of.len()
            &&& local_of[cs[c].a as int] == NO_LOCAL || local_of[cs[c].a as int] < n
            &&& local_of[cs[c].b as int] == NO_LOCAL || local_of[cs[c].b as int] < n
        }
}

/// The normal impulse of a contact that wants `w`: contacts push only.
pub open spec fn pushing(w: Scalar) -> Scalar {
    w.max_spec(Scalar::zero_spec())
}

/// How a point is relaxed: `demand` tells which normal impulse it wants, and `apply`
/// takes the one it gets, finds the tangential ones and moves the bodies.
pub struct Push<D, R> {
    pub demand: D,
    pub apply: R,
}

impl<
    D: Fn(PointConstraint, Vec3, Side, Side) -> Scalar,
    R: Fn(PointConstraint, Scalar, Vec3, Side, Side) -> Relaxed,
> Push<D, R> {
    /// The point wanted `w`, and relaxing it gave `r`.
    pub open spec fn pushed(
        self,
        p: PointConstraint,
        n: Vec3,
        a: Side,
        b: Side,
        w: Scalar,
        r: Relaxed,
    ) -> bool {
        self.demand.ensures((p, n, a, b), w) && self.apply.ensures((p, pushing(w), n, a, b), r)
    }

    /// It can be asked for anything.
    pub open spec fn total(self) -> bool {
        &&& forall|p: PointConstraint, n: Vec3, a: Side, b: Side| #[trigger]
            self.demand.requires((p, n, a, b))
        &&& forall|p: PointConstraint, w: Scalar, n: Vec3, a: Side, b: Side| #[trigger]
            self.apply.requires((p, w, n, a, b))
    }
}

/// The state with what relaxing the point `e` gave.
pub open spec fn relaxed(
    cs: Seq<ContactConstraint>,
    local_of: Seq<u32>,
    st: IslandState,
    e: (int, int),
    w: Scalar,
    r: Relaxed,
) -> IslandState {
    let p = st.points[e.0][e.1];
    let (ka, kb) = (place_of(local_of, cs[e.0].a), place_of(local_of, cs[e.0].b));
    IslandState {
        points: st.points.update(
            e.0,
            st.points[e.0].update(
                e.1,
                PointConstraint { pn: pushing(w), pt1: r.pt1, pt2: r.pt2, ..p },
            ),
        ),
        lv: put(put(st.lv, ka, r.a.lin), kb, r.b.lin),
        av: put(put(st.av, ka, r.a.ang), kb, r.b.ang),
        resid: st.resid.max_spec(r.resid),
    }
}

/// The state with what nudging the point `e` gave.
pub open spec fn nudged(
    cs: Seq<ContactConstraint>,
    local_of: Seq<u32>,
    st: IslandState,
    e: (int, int),
    r: Option<(Speeds, Speeds)>,
) -> IslandState {
    let (ka, kb) = (place_of(local_of, cs[e.0].a), place_of(local_of, cs[e.0].b));
    match r {
        Some((x, y)) => IslandState {
            lv: put(put(st.lv, ka, x.lin), kb, y.lin),
            av: put(put(st.av, ka, x.ang), kb, y.ang),
            ..st
        },
        None => st,
    }
}

/// The state after the point `e` was relaxed; an idle separated point is passed
/// over if `reduce` says so.
pub open spec fn relax_event<
    D: Fn(PointConstraint, Vec3, Side, Side) -> Scalar,
    R: Fn(PointConstraint, Scalar, Vec3, Side, Side) -> Relaxed,
>(
    relax: Push<D, R>,
    cs: Seq<ContactConstraint>,
    local_of: Seq<u32>,
    reduce: bool,
    st: IslandState,
    e: (int, int),
    next: IslandState,
) -> bool {
    let p = st.points[e.0][e.1];
    let c = cs[e.0];
    let sa = side_at(local_of, st.lv, st.av, c.a);
    let sb = side_at(local_of, st.lv, st.av, c.b);
    if passes_over_spec(reduce, p) {
        next == st
    } else {
        exists|w: Scalar, r: Relaxed| #[trigger]
            relax.pushed(p, c.normal, sa, sb, w, r) && next == relaxed(cs, local_of, st, e, w, r)
    }
}

/// The state after the point `e` was nudged: its impulses stay, and the speeds of
/// the two bodies change as `nudge` says, if it says anything. With `warm` only
/// points with cached impulses are nudged.
pub open spec fn nudge_event<N: Fn(PointConstraint, Vec3, Side, Side) -> Option<(Speeds, Speeds)>>(
    nudge: N,
    cs: Seq<ContactConstraint>,
    local_of: Seq<u32>,
    warm: bool,
    st: IslandState,
    e: (int, int),
    next: IslandState,
) -> bool {
    let p = st.points[e.0][e.1];
    let c = cs[e.0];
    let sa = side_at(local_of, st.lv, st.av, c.a);
    let sb = side_at(local_of, st.lv, st.av, c.b);
    if warm && !has_warm_impulse_spec(p.terms.warm) {
        next == st
    } else {
        exists|r: Option<(Speeds, Speeds)>| #[trigger]
            nudge.ensures((p, c.normal, sa, sb), r) && next == nudged(cs, local_of, st, e, r)
    }
}

/// The points of a constraint in the order of a sweep.
pub open spec fn point_events(c: int, n: nat, reverse: bool) -> Seq<(int, int)> {
    Seq::new(n, |q: int| (c, visited(n as int, q, reverse)))
}

/// The points of a constraint, `inner` times over.
pub open spec fn constraint_events(c: int, n: nat, inner: int, reverse: bool) -> Seq<(int, int)>
    decreases inner,
{
    if inner <= 0 {
        Seq::empty()
    } else {
        constraint_events(c, n, inner - 1, reverse) + point_events(c, n, reverse)
    }
}

/// The points of the first `k` constraints of a sweep, in order.
pub open spec fn sweep_events(
    points: Seq<Seq<PointConstraint>>,
    k: int,
    inner: int,
    reverse: bool,
) -> Seq<(int, int)>
    decreases k,
{
    if k <= 0 {
        Seq::empty()
    } else {
        let c = visited(points.len() as int, k - 1, reverse);
        sweep_events(points, k - 1, inner, reverse) + constraint_events(
            c,
            points[c].len(),
            inner,
            reverse,
        )
    }
}

/// A list of places by its contents.
pub open spec fn wide(s: Seq<(usize, usize)>) -> Seq<(int, int)> {
    s.map_values(|e: (usize, usize)| (e.0 as int, e.1 as int))
}

/// Every place of the list is that of a point.
pub open spec fn events_fit(events: Seq<(int, int)>, points: Seq<Seq<PointConstraint>>) -> bool {
    forall|k: int|
        0 <= k < events.len() ==> 0 <= (#[trigger] events[k]).0 < points.len() && 0 <= events[k].1
            < points[events[k].0].len()
}

fn list_events(cs: &Vec<ContactConstraint>, inner: u32, reverse: bool) -> (events: Vec<
    (usize, usize),
>)
    ensures
        wide(events@) == sweep_events(points_of(cs@), cs@.len() as int, inner as int, reverse),
        events_fit(wide(events@), points_of(cs@)),
{
    let ghost points = points_of(cs@);
    let mut events: Vec<(usize, usize)> = Vec::new();
    let n: usize = cs.len();
    let mut k: usize = 0;
    assert(wide(events@) =~= sweep_events(points, 0, inner as int, reverse));
    while k < n
        invariant
            k <= n,
            n == cs@.len(),
            points == points_of(cs@),
            wide(events@) == sweep_events(points, k as int, inner as int, reverse),
            events_fit(wide(events@), points),
        decreases n - k,
    {
        let c: usize = visit(n, k, reverse);
        let m: usize = cs[c].points.len();
        let ghost before = wide(events@);
        let mut i: u32 = 0;
        assert(points[c as int].len() == m);
        assert(before + constraint_events(c as int, m as nat, 0, reverse) =~= before);
        while i < inner
            invariant
                i <= inner,
                c < n,
                n == cs@.len(),
                m == points[c as int].len(),
                points == points_of(cs@),
                wide(events@) == before + constraint_events(c as int, m as nat, i as int, reverse),
                events_fit(wide(events@), points),
            decreases inner - i,
        {
            let ghost start = wide(events@);
            let mut q: usize = 0;
            assert(start + point_events(c as int, m as nat, reverse).take(0) =~= start);
            while q < m
                invariant
                    q <= m,
                    c < n,
                    n == cs@.len(),
                    m == points[c as int].len(),
                    points == points_of(cs@),
                    wide(events@) == start + point_events(c as int, m as nat, reverse).take(
                        q as int,
                    ),
                    events_fit(wide(events@), points),
                decreases m - q,
            {
                let ghost old_events = wide(events@);
                events.push((c, visit(m, q, reverse)));
                assert(wide(events@) =~= old_events.push(
                    (c as int, visited(m as int, q as int, reverse)),
                ));
                assert(wide(events@) =~= start + point_events(c as int, m as nat, reverse).take(
                    q + 1,
                ));
                q += 1;
            }
            assert(point_events(c as int, m as nat, reverse).take(q as int) =~= point_events(
                c as int,
                m as nat,
                reverse,
            ));
            i += 1;
            assert(wide(events@) =~= before + constraint_events(
                c as int,
                m as nat,
                i as int,
                reverse,
            ));
        }
        k += 1;
        assert(wide(events@) =~= sweep_events(points, k as int, inner as int, reverse));
    }
    events
}

fn read_side(local_of: &[u32], lv: &Vec<Vec3>, av: &Vec<Vec3>, body: u32) -> (s: Side)
    requires
        body < local_of@.len(),
        local_of@[body as int] == NO_LOCAL || local_of@[body as int] < lv@.len(),
        lv@.len() == av@.len(),
    ensures
        s == side_at(local_of@, lv@, av@, body),
{
    match local_slot(local_of, body as usize) {
        Some(k) => Side { body, placed: true, speeds: Speeds { lin: lv[k], ang: av[k] } },
        None => Side {
            body,
            placed: false,
            speeds: Speeds { lin: Vec3::zero(), ang: Vec3::zero() },
        },
    }
}

fn write_speeds(lv: &mut Vec<Vec3>, av: &mut Vec<Vec3>, slot: Option<usize>, v: Speeds)
    requires
        old(lv)@.len() == old(av)@.len(),
        slot matches Some(k) ==> k < old(lv)@.len(),
    ensures
        final(lv)@ == put(old(lv)@, slot, v.lin),
        final(av)@ == put(old(av)@, slot, v.ang),
{
    if let Some(k) = slot {
        lv.set(k, v.lin);
        av.set(k, v.ang);
    }
}

/// The states of a relaxing sweep.
pub open spec fn relax_trace<
    D: Fn(PointConstraint, Vec3, Side, Side) -> Scalar,
    R: Fn(PointConstraint, Scalar, Vec3, Side, Side) -> Relaxed,
>(
    relax: Push<D, R>,
    cs: Seq<ContactConstraint>,
    local_of: Seq<u32>,
    reduce: bool,
    events: Seq<(int, int)>,
    states: Seq<IslandState>,
) -> bool {
    &&& states.len() == events.len() + 1
    &&& forall|k: int|
        0 <= k < events.len() ==> relax_event(
            relax,
            cs,
            local_of,
            reduce,
            #[trigger] states[k],
            events[k],
            states[k + 1],
        )
}

/// The states of a nudging sweep.
pub open spec fn nudge_trace<N: Fn(PointConstraint, Vec3, Side, Side) -> Option<(Speeds, Speeds)>>(
    nudge: N,
    cs: Seq<ContactConstraint>,
    local_of: Seq<u32>,
    warm: bool,
    events: Seq<(int, int)>,
    states: Seq<IslandState>,
) -> bool {
    &&& states.len() == events.len() + 1
    &&& forall|k: int|
        0 <= k < events.len() ==> nudge_event(
            nudge,
            cs,
            local_of,
            warm,
            #[trigger] states[k],
            events[k],
            states[k + 1],
        )
}

/// A relaxing sweep: every point in order, with the corrections counted afresh.
pub open spec fn relax_sweep<
    D: Fn(PointConstraint, Vec3, Side, Side) -> Scalar,
    R: Fn(PointConstraint, Scalar, Vec3, Side, Side) -> Relaxed,
>(
    relax: Push<D, R>,
    cs: Seq<ContactConstraint>,
    local_of: Seq<u32>,
    inner: int,
    reverse: bool,
    reduce: bool,
    st: IslandState,
    next: IslandState,
) -> bool {
    let events = sweep_events(st.points, st.points.len() as int, inner, reverse);
    exists|states: Seq<IslandState>| #[trigger]
        relax_trace(relax, cs, local_of, reduce, events, states) && states[0] == (IslandState {
            resid: Scalar::zero_spec(),
            ..st
        }) && states.last() == next
}

/// A nudging sweep: every point once, from first to last.
pub open spec fn nudge_sweep<N: Fn(PointConstraint, Vec3, Side, Side) -> Option<(Speeds, Speeds)>>(
    nudge: N,
    cs: Seq<ContactConstraint>,
    local_of: Seq<u32>,
    warm: bool,
    st: IslandState,
    next: IslandState,
) -> bool {
    let events = sweep_events(st.points, st.points.len() as int, 1, false);
    exists|states: Seq<IslandState>| #[trigger]
        nudge_trace(nudge, cs, local_of, warm, events, states) && states[0] == (IslandState {
            resid: Scalar::zero_spec(),
            ..st
        }) && states.last() == next
}

/// The state that the lists hold.
pub open spec fn held(
    cs: Seq<ContactConstraint>,
    lv: Seq<Vec3>,
    av: Seq<Vec3>,
    resid: Scalar,
) -> IslandState {
    IslandState { points: points_of(cs), lv, av, resid }
}

fn run_relax<
    D: Fn(PointConstraint, Vec3, Side, Side) -> Scalar,
    R: Fn(PointConstraint, Scalar, Vec3, Side, Side) -> Relaxed,
>(
    relax: &Push<D, R>,
    cs: &mut Vec<ContactConstraint>,
    local_of: &[u32],
    lv: &mut Vec<Vec3>,
    av: &mut Vec<Vec3>,
    inner: u32,
    reverse: bool,
    reduce: bool,
) -> (resid: Scalar)
    requires
        relax.total(),
        old(lv)@.len() == old(av)@.len(),
        places_fit(old(cs)@, local_of@, old(lv)@.len()),
    ensures
        final(lv)@.len() == old(lv)@.len(),
        final(av)@.len() == old(av)@.len(),
        same_contacts(old(cs)@, final(cs)@),
        forall|r: Scalar|
            relax_sweep(
                *relax,
                old(cs)@,
                local_of@,
                inner as int,
                reverse,
                reduce,
                #[trigger] held(old(cs)@, old(lv)@, old(av)@, r),
                held(final(cs)@, final(lv)@, final(av)@, resid),
            ),
{
    let events = list_events(cs, inner, reverse);
    let ghost cs0 = cs@;
    let ghost n0 = lv@.len();
    let ghost first = held(cs@, lv@, av@, Scalar::zero_spec());
    let ghost mut states: Seq<IslandState> = seq![first];
    let mut resid: Scalar = Scalar::zero();
    let mut k: usize = 0;
    assert(first.resid == resid);
    while k < events.len()
        invariant
            k <= events@.len(),
            cs0 == old(cs)@,
            n0 == old(lv)@.len(),
            lv@.len() == n0,
            av@.len() == n0,
            relax.total(),
            places_fit(cs0, local_of@, n0),
            same_contacts(cs0, cs@),
            events_fit(wide(events@), points_of(cs0)),
            states.len() == k + 1,
            states[0] == first,
            states.last() == held(cs@, lv@, av@, resid),
            forall|j: int|
                0 <= j < k ==> relax_event(
                    *relax,
                    cs0,
                    local_of@,
                    reduce,
                    #[trigger] states[j],
                    wide(events@)[j],
                    states[j + 1],
                ),
        decreases events@.len() - k,
    {
        let (c, i) = events[k];
        let ghost st = held(cs@, lv@, av@, resid);
        let ghost old_states = states;
        proof {
            assert(wide(events@)[k as int] == (c as int, i as int));
            assert(points_of(cs0)[c as int] == cs0[c as int].points@);
            assert(same_contacts(cs0, cs@));
            assert(cs0[c as int].points@.len() == cs@[c as int].points@.len());
            assert(points_of(cs@)[c as int] == cs@[c as int].points@);
        }
        let p: PointConstraint = cs[c].points[i];
        assert(st.points[c as int][i as int] == p);
        if !passes_over(reduce, &p) {
            let (a, b, normal) = (cs[c].a, cs[c].b, cs[c].normal);
            assert(cs0[c as int].a == a && cs0[c as int].b == b && cs0[c as int].normal == normal);
            let sa = read_side(local_of, lv, av, a);
            let sb = read_side(local_of, lv, av, b);
            let w = (relax.demand)(p, normal, sa, sb);
            let pn = w.max(Scalar::zero());
            let r = (relax.apply)(p, pn, normal, sa, sb);
            let q = PointConstraint { pn, pt1: r.pt1, pt2: r.pt2, ..p };
            let ghost cs1 = cs@;
            cs[c].points.set(i, q);
            write_speeds(lv, av, local_slot(local_of, a as usize), r.a);
            write_speeds(lv, av, local_slot(local_of, b as usize), r.b);
            resid = resid.max(r.resid);
            assert(lv@ == put(put(st.lv, place_of(local_of@, a), r.a.lin), place_of(local_of@, b), r.b.lin));
            assert(av@ == put(put(st.av, place_of(local_of@, a), r.a.ang), place_of(local_of@, b), r.b.ang));
            proof {
                assert(cs@[c as int].points@ == cs1[c as int].points@.update(i as int, q));
                assert(forall|d: int| 0 <= d < cs@.len() && d != c ==> cs@[d] == cs1[d]);
                assert(points_of(cs@) =~= points_of(cs1).update(
                    c as int,
                    points_of(cs1)[c as int].update(i as int, q),
                ));
                assert(same_contacts(cs1, cs@));
                assert(relax.pushed(p, normal, sa, sb, w, r));
            }
        }
        proof {
            let next = held(cs@, lv@, av@, resid);
            assert(relax_event(
                *relax,
                cs0,
                local_of@,
                reduce,
                st,
                wide(events@)[k as int],
                next,
            ));
            states = states.push(next);
            assert forall|j: int| 0 <= j < k + 1 implies relax_event(
                *relax,
                cs0,
                local_of@,
                reduce,
                #[trigger] states[j],
                wide(events@)[j],
                states[j + 1],
            ) by {
                assert(states[j] == old_states[j]);
                if j < k {
                    assert(states[j + 1] == old_states[j + 1]);
                }
            }
        }
        k += 1;
    }
    proof {
        let order = sweep_events(points_of(cs0), cs0.len() as int, inner as int, reverse);
        assert(relax_trace(*relax, cs0, local_of@, reduce, order, states));
        assert(states[0] == first);
    }
    resid
}

fn run_nudge<N: Fn(PointConstraint, Vec3, Side, Side) -> Option<(Speeds, Speeds)>>(
    nudge: &N,
    cs: &Vec<ContactConstraint>,
    local_of: &[u32],
    lv: &mut Vec<Vec3>,
    av: &mut Vec<Vec3>,
    warm: bool,
)
    requires
        forall|p: PointConstraint, n: Vec3, a: Side, b: Side| #[trigger]
            nudge.requires((p, n, a, b)),
        old(lv)@.len() == old(av)@.len(),
        places_fit(cs@, local_of@, old(lv)@.len()),
    ensures
        final(lv)@.len() == old(lv)@.len(),
        final(av)@.len() == old(av)@.len(),
        forall|r: Scalar|
            nudge_sweep(
                *nudge,
                cs@,
                local_of@,
                warm,
                #[trigger] held(cs@, old(lv)@, old(av)@, r),
                held(cs@, final(lv)@, final(av)@, Scalar::zero_spec()),
            ),
{
    let events = list_events(cs, 1, false);
    let ghost zero = Scalar::zero_spec();
    let ghost n0 = lv@.len();
    let ghost first = held(cs@, lv@, av@, zero);
    let ghost mut states: Seq<IslandState> = seq![first];
    let mut k: usize = 0;
    while k < events.len()
        invariant
            k <= events@.len(),
            zero == Scalar::zero_spec(),
            n0 == old(lv)@.len(),
            lv@.len() == n0,
            av@.len() == n0,
            forall|p: PointConstraint, n: Vec3, a: Side, b: Side| #[trigger]
                nudge.requires((p, n, a, b)),
            places_fit(cs@, local_of@, n0),
            events_fit(wide(events@), points_of(cs@)),
            states.len() == k + 1,
            states[0] == first,
            states.last() == held(cs@, lv@, av@, zero),
            forall|j: int|
                0 <= j < k ==> nudge_event(
                    *nudge,
                    cs@,
                    local_of@,
                    warm,
                    #[trigger] states[j],
                    wide(events@)[j],
                    states[j + 1],
                ),
        decreases events@.len() - k,
    {
        let (c, i) = events[k];
        let ghost st = held(cs@, lv@, av@, zero);
        let ghost old_states = states;
        proof {
            assert(wide(events@)[k as int] == (c as int, i as int));
            assert(points_of(cs@)[c as int] == cs@[c as int].points@);
        }
        let p: PointConstraint = cs[c].points[i];
        assert(st.points[c as int][i as int] == p);
        if !warm || has_warm_impulse(&p.terms.warm) {
            let sa = read_side(local_of, lv, av, cs[c].a);
            let sb = read_side(local_of, lv, av, cs[c].b);
            let r = nudge(p, cs[c].normal, sa, sb);
            if let Some((x, y)) = r {
                write_speeds(lv, av, local_slot(local_of, cs[c].a as usize), x);
                write_speeds(lv, av, local_slot(local_of, cs[c].b as usize), y);
            }
            assert(nudge.ensures((p, cs@[c as int].normal, sa, sb), r));
        }
        proof {
            let next = held(cs@, lv@, av@, zero);
            assert(nudge_event(*nudge, cs@, local_of@, warm, st, wide(events@)[k as int], next));
            states = states.push(next);
            assert forall|j: int| 0 <= j < k + 1 implies nudge_event(
                *nudge,
                cs@,
                local_of@,
                warm,
                #[trigger] states[j],
                wide(events@)[j],
                states[j + 1],
            ) by {
                assert(states[j] == old_states[j]);
                if j < k {
                    assert(states[j + 1] == old_states[j + 1]);
                }
            }
        }
        k += 1;
    }
    proof {
        let order = sweep_events(points_of(cs@), cs@.len() as int, 1, false);
        assert(nudge_trace(*nudge, cs@, local_of@, warm, order, states));
    }
}

/// The arithmetic of contacts: `warm` applies the cached impulses of a point,
/// `relax` finds its impulses anew, and `hold` calms a resting point.
pub struct ContactArith<W, D, R, H> {
    pub warm: W,
    pub relax: Push<D, R>,
    pub hold: H,
}

/// The sweep that the plan asks for.
pub open spec fn sweep_step<
    W: Fn(PointConstraint, Vec3, Side, Side) -> Option<(Speeds, Speeds)>,
    D: Fn(PointConstraint, Vec3, Side, Side) -> Scalar,
    R: Fn(PointConstraint, Scalar, Vec3, Side, Side) -> Relaxed,
    H: Fn(PointConstraint, Vec3, Side, Side) -> Option<(Speeds, Speeds)>,
>(
    arith: ContactArith<W, D, R, H>,
    cs: Seq<ContactConstraint>,
    local_of: Seq<u32>,
    inner: int,
    plan: SweepPlan,
    st: IslandState,
    next: IslandState,
) -> bool {
    match plan.next_spec() {
        Sweep::Relax { reverse, reduce } => relax_sweep(
            arith.relax,
            cs,
            local_of,
            inner,
            reverse,
            reduce,
            st,
            next,
        ),
        Sweep::Shock => relax_sweep(arith.relax, cs, local_of, inner, true, false, st, next),
        Sweep::Hold => nudge_sweep(arith.hold, cs, local_of, false, st, next),
        Sweep::Done => false,
    }
}

/// The sweeps of an island: each is the one its plan asks for, and the plan goes on
/// with the largest correction that it made.
pub open spec fn sweeps_run<
    W: Fn(PointConstraint, Vec3, Side, Side) -> Option<(Speeds, Speeds)>,
    D: Fn(PointConstraint, Vec3, Side, Side) -> Scalar,
    R: Fn(PointConstraint, Scalar, Vec3, Side, Side) -> Relaxed,
    H: Fn(PointConstraint, Vec3, Side, Side) -> Option<(Speeds, Speeds)>,
>(
    arith: ContactArith<W, D, R, H>,
    cs: Seq<ContactConstraint>,
    local_of: Seq<u32>,
    inner: int,
    plans: Seq<SweepPlan>,
    states: Seq<IslandState>,
) -> bool {
    &&& plans.len() == states.len()
    &&& forall|k: int|
        0 <= k < states.len() - 1 ==> sweep_step(
            arith,
            cs,
            local_of,
            inner,
            plans[k],
            #[trigger] states[k],
            states[k + 1],
        ) && plans[k + 1] == plans[k].after(states[k + 1].resid)
}

/// The first plan of an island.
pub open spec fn fresh_plan(params: PhaseParams) -> SweepPlan {
    SweepPlan {
        iters: params.iters,
        shock: params.shock,
        hold: params.settled_hold,
        relaxed: 0,
        settled: false,
        shocked: 0,
        held: 0,
    }
}

/// An island was solved: the cached impulses were applied, and then the sweeps of
/// the plan ran until none was left.
pub open spec fn island_solved<
    W: Fn(PointConstraint, Vec3, Side, Side) -> Option<(Speeds, Speeds)>,
    D: Fn(PointConstraint, Vec3, Side, Side) -> Scalar,
    R: Fn(PointConstraint, Scalar, Vec3, Side, Side) -> Relaxed,
    H: Fn(PointConstraint, Vec3, Side, Side) -> Option<(Speeds, Speeds)>,
>(
    arith: ContactArith<W, D, R, H>,
    cs: Seq<ContactConstraint>,
    local_of: Seq<u32>,
    params: PhaseParams,
    before: IslandState,
    after: IslandState,
) -> bool {
    exists|plans: Seq<SweepPlan>, states: Seq<IslandState>|
        {
            &&& states.len() > 0
            &&& nudge_sweep(arith.warm, cs, local_of, true, before, states[0])
            &&& plans[0] == fresh_plan(params)
            &&& #[trigger] sweeps_run(
                arith,
                cs,
                local_of,
                at_least_one(params.normal_inner) as int,
                plans,
                states,
            )
            &&& plans.last().next_spec() == Sweep::Done
            &&& after.points == states.last().points
            &&& after.lv == states.last().lv
            &&& after.av == states.last().av
        }
}

/// The arithmetic can be asked for anything.
pub open spec fn total_contact<
    W: Fn(PointConstraint, Vec3, Side, Side) -> Option<(Speeds, Speeds)>,
    D: Fn(PointConstraint, Vec3, Side, Side) -> Scalar,
    R: Fn(PointConstraint, Scalar, Vec3, Side, Side) -> Relaxed,
    H: Fn(PointConstraint, Vec3, Side, Side) -> Option<(Speeds, Speeds)>,
>(arith: ContactArith<W, D, R, H>) -> bool {
    &&& forall|p: PointConstraint, n: Vec3, a: Side, b: Side| #[trigger]
        arith.warm.requires((p, n, a, b))
    &&& arith.relax.total()
    &&& forall|p: PointConstraint, n: Vec3, a: Side, b: Side| #[trigger]
        arith.hold.requires((p, n, a, b))
}

/// A relaxing sweep leaves everything of the contacts but their impulses.
proof fn lemma_same_contacts(
    x: Seq<ContactConstraint>,
    y: Seq<ContactConstraint>,
    local_of: Seq<u32>,
    n: nat,
)
    requires
        same_contacts(x, y),
        places_fit(x, local_of, n),
    ensures
        places_fit(y, local_of, n),
{
    assert forall|c: int| 0 <= c < y.len() implies {
        &&& (#[trigger] y[c]).a < local_of.len()
        &&& y[c].b < local_of.len()
        &&& local_of[y[c].a as int] == NO_LOCAL || local_of[y[c].a as int] < n
        &&& local_of[y[c].b as int] == NO_LOCAL || local_of[y[c].b as int] < n
    } by {
        assert(x[c].a == y[c].a);
    }
}

/// A sweep reads of the contacts only what all sweeps leave.
pub proof fn lemma_relax_frame<
    D: Fn(PointConstraint, Vec3, Side, Side) -> Scalar,
    R: Fn(PointConstraint, Scalar, Vec3, Side, Side) -> Relaxed,
>(
    relax: Push<D, R>,
    x: Seq<ContactConstraint>,
    y: Seq<ContactConstraint>,
    local_of: Seq<u32>,
    inner: int,
    reverse: bool,
    reduce: bool,
    st: IslandState,
    next: IslandState,
)
    requires
        same_contacts(x, y),
        st.points.len() == x.len(),
        relax_sweep(relax, y, local_of, inner, reverse, reduce, st, next),
    ensures
        relax_sweep(relax, x, local_of, inner, reverse, reduce, st, next),
{
    let events = sweep_events(st.points, st.points.len() as int, inner, reverse);
    let states = choose|states: Seq<IslandState>| #[trigger]
        relax_trace(relax, y, local_of, reduce, events, states) && states[0] == (IslandState {
            resid: Scalar::zero_spec(),
            ..st
        }) && states.last() == next;
    lemma_sweep_events(st.points, st.points.len() as int, inner, reverse);
    assert forall|k: int| 0 <= k < events.len() implies relax_event(
        relax,
        x,
        local_of,
        reduce,
        #[trigger] states[k],
        events[k],
        states[k + 1],
    ) by {
        assert(relax_event(relax, y, local_of, reduce, states[k], events[k], states[k + 1]));
        assert(0 <= events[k].0 < x.len());
        assert(x[events[k].0].a == y[events[k].0].a);
    }
    assert(relax_trace(relax, x, local_of, reduce, events, states));
}

/// A sweep reads of the contacts only what all sweeps leave.
pub proof fn lemma_nudge_frame<N: Fn(PointConstraint, Vec3, Side, Side) -> Option<(Speeds, Speeds)>>(
    nudge: N,
    x: Seq<ContactConstraint>,
    y: Seq<ContactConstraint>,
    local_of: Seq<u32>,
    warm: bool,
    st: IslandState,
    next: IslandState,
)
    requires
        same_contacts(x, y),
        st.points.len() == x.len(),
        nudge_sweep(nudge, y, local_of, warm, st, next),
    ensures
        nudge_sweep(nudge, x, local_of, warm, st, next),
{
    let events = sweep_events(st.points, st.points.len() as int, 1, false);
    let states = choose|states: Seq<IslandState>| #[trigger]
        nudge_trace(nudge, y, local_of, warm, events, states) && states[0] == (IslandState {
            resid: Scalar::zero_spec(),
            ..st
        }) && states.last() == next;
    lemma_sweep_events(st.points, st.points.len() as int, 1, false);
    assert forall|k: int| 0 <= k < events.len() implies nudge_event(
        nudge,
        x,
        local_of,
        warm,
        #[trigger] states[k],
        events[k],
        states[k + 1],
    ) by {
        assert(nudge_event(nudge, y, local_of, warm, states[k], events[k], states[k + 1]));
        assert(0 <= events[k].0 < x.len());
        assert(x[events[k].0].a == y[events[k].0].a);
    }
    assert(nudge_trace(nudge, x, local_of, warm, events, states));
}

/// How often a place occurs in a list.
pub open spec fn occurs(events: Seq<(int, int)>, e: (int, int)) -> int
    decreases events.len(),
{
    if events.len() == 0 {
        0
    } else {
        occurs(events.drop_last(), e) + if events.last() == e {
            1int
        } else {
            0
        }
    }
}

proof fn lemma_occurs_join(x: Seq<(int, int)>, y: Seq<(int, int)>, e: (int, int))
    ensures
        occurs(x + y, e) == occurs(x, e) + occurs(y, e),
    decreases y.len(),
{
    if y.len() == 0 {
        assert(x + y =~= x);
    } else {
        lemma_occurs_join(x, y.drop_last(), e);
        assert((x + y).drop_last() =~= x + y.drop_last());
    }
}

proof fn lemma_occurs_points(c: int, n: nat, reverse: bool, k: int, e: (int, int))
    requires
        0 <= k <= n,
    ensures
        occurs(point_events(c, n, reverse).take(k), e) == if e.0 == c && 0 <= e.1 < n && visited(
            n as int,
            e.1,
            reverse,
        ) < k {
            1int
        } else {
            0
        },
    decreases k,
{
    let all = point_events(c, n, reverse);
    if k > 0 {
        lemma_occurs_points(c, n, reverse, k - 1, e);
        assert(all.take(k).drop_last() =~= all.take(k - 1));
        assert(all.take(k).last() == (c, visited(n as int, k - 1, reverse)));
    }
}

proof fn lemma_occurs_constraint(c: int, n: nat, inner: int, reverse: bool, e: (int, int))
    requires
        inner >= 0,
    ensures
        occurs(constraint_events(c, n, inner, reverse), e) == if e.0 == c && 0 <= e.1 < n {
            inner
        } else {
            0
        },
    decreases inner,
{
    if inner > 0 {
        lemma_occurs_constraint(c, n, inner - 1, reverse, e);
        lemma_occurs_points(c, n, reverse, n as int, e);
        assert(point_events(c, n, reverse).take(n as int) =~= point_events(c, n, reverse));
        lemma_occurs_join(
            constraint_events(c, n, inner - 1, reverse),
            point_events(c, n, reverse),
            e,
        );
    }
}

proof fn lemma_occurs_sweep(
    points: Seq<Seq<PointConstraint>>,
    k: int,
    inner: int,
    reverse: bool,
    e: (int, int),
)
    requires
        0 <= k <= points.len(),
        inner >= 0,
    ensures
        occurs(sweep_events(points, k, inner, reverse), e) == if 0 <= e.0 < points.len() && 0
            <= e.1 < points[e.0].len() && visited(points.len() as int, e.0, reverse) < k {
            inner
        } else {
            0
        },
    decreases k,
{
    if k > 0 {
        lemma_occurs_sweep(points, k - 1, inner, reverse, e);
        let c = visited(points.len() as int, k - 1, reverse);
        lemma_occurs_constraint(c, points[c].len(), inner, reverse, e);
        lemma_occurs_join(
            sweep_events(points, k - 1, inner, reverse),
            constraint_events(c, points[c].len(), inner, reverse),
            e,
        );
    }
}

/// A sweep visits every point of every constraint `inner` times, and nothing else.
pub proof fn sweep_visits_every_point(
    points: Seq<Seq<PointConstraint>>,
    inner: int,
    reverse: bool,
    e: (int, int),
)
    requires
        inner >= 0,
    ensures
        occurs(sweep_events(points, points.len() as int, inner, reverse), e) == if 0 <= e.0
            < points.len() && 0 <= e.1 < points[e.0].len() {
            inner
        } else {
            0
        },
{
    lemma_occurs_sweep(points, points.len() as int, inner, reverse, e);
}

proof fn lemma_constraint_events(c: int, n: nat, inner: int, reverse: bool)
    ensures
        forall|k: int|
            0 <= k < constraint_events(c, n, inner, reverse).len() ==> (
            #[trigger] constraint_events(c, n, inner, reverse)[k]).0 == c && 0
                <= constraint_events(c, n, inner, reverse)[k].1 < n,
    decreases inner,
{
    if inner > 0 {
        lemma_constraint_events(c, n, inner - 1, reverse);
        let before = constraint_events(c, n, inner - 1, reverse);
        let all = constraint_events(c, n, inner, reverse);
        assert forall|k: int| 0 <= k < all.len() implies (#[trigger] all[k]).0 == c && 0 <= all[k].1
            < n by {
            if k < before.len() {
                assert(all[k] == before[k]);
            } else {
                assert(all[k] == point_events(c, n, reverse)[k - before.len()]);
            }
        }
    }
}

pub proof fn lemma_sweep_events(
    points: Seq<Seq<PointConstraint>>,
    k: int,
    inner: int,
    reverse: bool,
)
    requires
        k <= points.len(),
    ensures
        events_fit(sweep_events(points, k, inner, reverse), points),
    decreases k,
{
    if k > 0 {
        lemma_sweep_events(points, k - 1, inner, reverse);
        let c = visited(points.len() as int, k - 1, reverse);
        lemma_constraint_events(c, points[c].len(), inner, reverse);
    }
}

/// Runs the sweep that the plan calls for, and returns the largest correction. The
/// constraints are those of `cs0`, in the state `st`.
#[verifier::spinoff_prover]
fn run_sweep<
    W: Fn(PointConstraint, Vec3, Side, Side) -> Option<(Speeds, Speeds)>,
    D: Fn(PointConstraint, Vec3, Side, Side) -> Scalar,
    R: Fn(PointConstraint, Scalar, Vec3, Side, Side) -> Relaxed,
    H: Fn(PointConstraint, Vec3, Side, Side) -> Option<(Speeds, Speeds)>,
>(
    arith: &ContactArith<W, D, R, H>,
    cs: &mut Vec<ContactConstraint>,
    local_of: &[u32],
    lv: &mut Vec<Vec3>,
    av: &mut Vec<Vec3>,
    inner: u32,
    plan: &SweepPlan,
    Ghost(cs0): Ghost<Seq<ContactConstraint>>,
    Ghost(st): Ghost<IslandState>,
) -> (resid: Scalar)
    requires
        total_contact(*arith),
        inner >= 1,
        plan.wf(),
        plan.next_spec() != Sweep::Done,
        old(lv)@.len() == old(av)@.len(),
        places_fit(cs0, local_of@, old(lv)@.len()),
        same_contacts(cs0, old(cs)@),
        st == held(old(cs)@, old(lv)@, old(av)@, st.resid),
    ensures
        final(lv)@.len() == old(lv)@.len(),
        final(av)@.len() == old(av)@.len(),
        same_contacts(cs0, final(cs)@),
        sweep_step(
            *arith,
            cs0,
            local_of@,
            inner as int,
            *plan,
            st,
            held(final(cs)@, final(lv)@, final(av)@, resid),
        ),
{
    let ghost csb = cs@;
    let next: Sweep = plan.next();
    proof {
        lemma_same_contacts(cs0, cs@, local_of@, lv@.len());
        assert(st.points.len() == cs0.len());
    }
    match next {
        Sweep::Relax { reverse, reduce } => {
            let resid = run_relax(&arith.relax, cs, local_of, lv, av, inner, reverse, reduce);
            proof {
                lemma_relax_frame(
                    arith.relax,
                    cs0,
                    csb,
                    local_of@,
                    inner as int,
                    reverse,
                    reduce,
                    st,
                    held(cs@, lv@, av@, resid),
                );
            }
            resid
        },
        Sweep::Shock => {
            let resid = run_relax(&arith.relax, cs, local_of, lv, av, inner, true, false);
            proof {
                lemma_relax_frame(
                    arith.relax,
                    cs0,
                    csb,
                    local_of@,
                    inner as int,
                    true,
                    false,
                    st,
                    held(cs@, lv@, av@, resid),
                );
            }
            resid
        },
        _ => {
            run_nudge(&arith.hold, cs, local_of, lv, av, false);
            let resid = Scalar::zero();
            proof {
                lemma_nudge_frame(
                    arith.hold,
                    cs0,
                    csb,
                    local_of@,
                    false,
                    st,
                    held(cs@, lv@, av@, resid),
                );
            }
            resid
        },
    }
}

/// One more sweep makes a longer run.
proof fn lemma_sweeps_extend<
    W: Fn(PointConstraint, Vec3, Side, Side) -> Option<(Speeds, Speeds)>,
    D: Fn(PointConstraint, Vec3, Side, Side) -> Scalar,
    R: Fn(PointConstraint, Scalar, Vec3, Side, Side) -> Relaxed,
    H: Fn(PointConstraint, Vec3, Side, Side) -> Option<(Speeds, Speeds)>,
>(
    arith: ContactArith<W, D, R, H>,
    cs: Seq<ContactConstraint>,
    local_of: Seq<u32>,
    inner: int,
    plans: Seq<SweepPlan>,
    states: Seq<IslandState>,
    plan: SweepPlan,
    state: IslandState,
)
    requires
        plans.len() == states.len(),
        states.len() > 0,
        sweeps_run(arith, cs, local_of, inner, plans, states),
        sweep_step(arith, cs, local_of, inner, plans.last(), states.last(), state),
        plan == plans.last().after(state.resid),
    ensures
        sweeps_run(arith, cs, local_of, inner, plans.push(plan), states.push(state)),
{
    let (ps, ss) = (plans.push(plan), states.push(state));
    assert forall|k: int| 0 <= k < ss.len() - 1 implies sweep_step(
        arith,
        cs,
        local_of,
        inner,
        ps[k],
        #[trigger] ss[k],
        ss[k + 1],
    ) && ps[k + 1] == ps[k].after(ss[k + 1].resid) by {
        assert(ss[k] == states[k]);
        assert(ps[k] == plans[k]);
        if k < states.len() - 1 {
            assert(ss[k + 1] == states[k + 1]);
            assert(ps[k + 1] == plans[k + 1]);
        }
    }
}

/// Solves an island: applies the cached impulses, then runs the sweeps.
#[verifier::spinoff_prover]
pub fn relax_island<
    W: Fn(PointConstraint, Vec3, Side, Side) -> Option<(Speeds, Speeds)>,
    D: Fn(PointConstraint, Vec3, Side, Side) -> Scalar,
    R: Fn(PointConstraint, Scalar, Vec3, Side, Side) -> Relaxed,
    H: Fn(PointConstraint, Vec3, Side, Side) -> Option<(Speeds, Speeds)>,
>(
    arith: &ContactArith<W, D, R, H>,
    cs: &mut Vec<ContactConstraint>,
    local_of: &[u32],
    lv: &mut Vec<Vec3>,
    av: &mut Vec<Vec3>,
    params: &PhaseParams,
)
    requires
        total_contact(*arith),
        old(lv)@.len() == old(av)@.len(),
        places_fit(old(cs)@, local_of@, old(lv)@.len()),
    ensures
        final(lv)@.len() == old(lv)@.len(),
        final(av)@.len() == old(av)@.len(),
        same_contacts(old(cs)@, final(cs)@),
        island_solved(
            *arith,
            old(cs)@,
            local_of@,
            *params,
            held(old(cs)@, old(lv)@, old(av)@, Scalar::zero_spec()),
            held(final(cs)@, final(lv)@, final(av)@, Scalar::zero_spec()),
        ),
{
    let ghost cs0 = cs@;
    let ghost n0 = lv@.len();
    let ghost zero = Scalar::zero_spec();
    let ghost before = held(cs@, lv@, av@, zero);
    run_nudge(&arith.warm, cs, local_of, lv, av, true);
    let inner: u32 = if params.normal_inner < 1 {
        1
    } else {
        params.normal_inner
    };
    let mut plan: SweepPlan = SweepPlan::new(params);
    let ghost mut state = held(cs@, lv@, av@, zero);
    let ghost mut plans: Seq<SweepPlan> = seq![plan];
    let ghost mut states: Seq<IslandState> = seq![state];
    let mut going: bool = true;
    while going
        invariant
            total_contact(*arith),
            cs0 == old(cs)@,
            n0 == old(lv)@.len(),
            lv@.len() == n0,
            av@.len() == n0,
            zero == Scalar::zero_spec(),
            inner == at_least_one(params.normal_inner),
            places_fit(cs0, local_of@, n0),
            same_contacts(cs0, cs@),
            plan.wf(),
            plans.len() == states.len(),
            states.len() > 0,
            plans[0] == fresh_plan(*params),
            plans.last() == plan,
            states.last() == state,
            state == held(cs@, lv@, av@, state.resid),
            nudge_sweep(arith.warm, cs0, local_of@, true, before, states[0]),
            sweeps_run(*arith, cs0, local_of@, inner as int, plans, states),
            !going ==> plan.next_spec() == Sweep::Done,
        decreases
                plan.left(),
                if going {
                    1int
                } else {
                    0
                },
    {
        if let Sweep::Done = plan.next() {
            going = false;
        } else {
            let ghost old_plan = plan;
            let ghost st = state;
            proof {
                sweeps_come_to_an_end(plan, zero);
            }
            let resid: Scalar = run_sweep(
                arith,
                cs,
                local_of,
                lv,
                av,
                inner,
                &plan,
                Ghost(cs0),
                Ghost(st),
            );
            plan.advance(resid);
            proof {
                state = held(cs@, lv@, av@, resid);
                sweeps_come_to_an_end(old_plan, resid);
                lemma_sweeps_extend(
                    *arith,
                    cs0,
                    local_of@,
                    inner as int,
                    plans,
                    states,
                    plan,
                    state,
                );
                plans = plans.push(plan);
                states = states.push(state);
            }
        }
    }
}

/// The places are those of other bodies than the ones of the constraints.
pub open spec fn foreign(cs: Seq<ContactConstraint>, local_of: Seq<u32>, q: usize) -> bool {
    forall|c: int|
        0 <= c < cs.len() ==> place_of(local_of, (#[trigger] cs[c]).a) != Some(q) && place_of(
            local_of,
            cs[c].b,
        ) != Some(q)
}

/// The two states agree in the speeds at a place.
pub open spec fn same_speeds(x: IslandState, y: IslandState, q: int) -> bool {
    x.lv[q] == y.lv[q] && x.av[q] == y.av[q]
}

/// The points are the same but for their impulses.
pub open spec fn same_points(
    x: Seq<Seq<PointConstraint>>,
    y: Seq<Seq<PointConstraint>>,
) -> bool {
    &&& x.len() == y.len()
    &&& forall|c: int| 0 <= c < x.len() ==> (#[trigger] x[c]).len() == y[c].len()
    &&& forall|c: int, i: int|
        #![trigger x[c][i]]
        #![trigger y[c][i]]
        0 <= c < x.len() && 0 <= i < x[c].len() ==> y[c][i].terms == x[c][i].terms
            && y[c][i].feature == x[c][i].feature
}

pub proof fn lemma_relax_trace<
    D: Fn(PointConstraint, Vec3, Side, Side) -> Scalar,
    R: Fn(PointConstraint, Scalar, Vec3, Side, Side) -> Relaxed,
>(
    relax: Push<D, R>,
    cs: Seq<ContactConstraint>,
    local_of: Seq<u32>,
    reduce: bool,
    events: Seq<(int, int)>,
    states: Seq<IslandState>,
    k: int,
)
    requires
        relax_trace(relax, cs, local_of, reduce, events, states),
        events_fit(events, states[0].points),
        states[0].points.len() == cs.len(),
        states[0].lv.len() == states[0].av.len(),
        places_fit(cs, local_of, states[0].lv.len()),
        0 <= k <= events.len(),
    ensures
        same_points(states[0].points, states[k].points),
        forall|q: usize|
            #![trigger foreign(cs, local_of, q)]
            foreign(cs, local_of, q) && q < states[0].lv.len() && q < states[0].av.len()
                ==> same_speeds(states[0], states[k], q as int),
        states[k].lv.len() == states[0].lv.len(),
        states[k].av.len() == states[0].av.len(),
    decreases k,
{
    if k > 0 {
        lemma_relax_trace(relax, cs, local_of, reduce, events, states, k - 1);
        let st = states[k - 1];
        let e = events[k - 1];
        assert(relax_event(relax, cs, local_of, reduce, st, e, states[k - 1 + 1]));
        assert(0 <= e.0 < cs.len());
        assert(cs[e.0].a < local_of.len());
        assert(same_points(states[0].points, st.points));
        assert(0 <= e.0 < st.points.len() && 0 <= e.1 < states[0].points[e.0].len());
        assert(st.points[e.0].len() == states[0].points[e.0].len());
        assert forall|c: int, i: int|
            #![trigger states[0].points[c][i]]
            #![trigger states[k].points[c][i]]
            0 <= c < st.points.len() && 0 <= i < states[0].points[c].len() implies
            states[k].points[c][i].terms == states[0].points[c][i].terms
            && states[k].points[c][i].feature == states[0].points[c][i].feature by {
            assert(st.points[c][i].terms == states[0].points[c][i].terms);
        }
        assert forall|q: usize|
            #![trigger foreign(cs, local_of, q)]
            foreign(cs, local_of, q) && q < states[0].lv.len() && q
                < states[0].av.len() implies same_speeds(states[0], states[k], q as int) by {
            assert(same_speeds(states[0], st, q as int));
            assert(place_of(local_of, cs[e.0].a) != Some(q));
        }
    }
}

pub proof fn lemma_nudge_trace<N: Fn(PointConstraint, Vec3, Side, Side) -> Option<(Speeds, Speeds)>>(
    nudge: N,
    cs: Seq<ContactConstraint>,
    local_of: Seq<u32>,
    warm: bool,
    events: Seq<(int, int)>,
    states: Seq<IslandState>,
    k: int,
)
    requires
        nudge_trace(nudge, cs, local_of, warm, events, states),
        events_fit(events, states[0].points),
        states[0].points.len() == cs.len(),
        states[0].lv.len() == states[0].av.len(),
        places_fit(cs, local_of, states[0].lv.len()),
        0 <= k <= events.len(),
    ensures
        states[k].points == states[0].points,
        forall|q: usize|
            #![trigger foreign(cs, local_of, q)]
            foreign(cs, local_of, q) && q < states[0].lv.len() && q < states[0].av.len()
                ==> same_speeds(states[0], states[k], q as int),
        states[k].lv.len() == states[0].lv.len(),
        states[k].av.len() == states[0].av.len(),
    decreases k,
{
    if k > 0 {
        lemma_nudge_trace(nudge, cs, local_of, warm, events, states, k - 1);
        let st = states[k - 1];
        let e = events[k - 1];
        assert(nudge_event(nudge, cs, local_of, warm, st, e, states[k - 1 + 1]));
        assert(0 <= e.0 < cs.len());
        assert(cs[e.0].a < local_of.len());
        assert(0 <= e.0 < st.points.len());
        assert forall|q: usize|
            #![trigger foreign(cs, local_of, q)]
            foreign(cs, local_of, q) && q < states[0].lv.len() && q
                < states[0].av.len() implies same_speeds(states[0], states[k], q as int) by {
            assert(same_speeds(states[0], st, q as int));
            assert(place_of(local_of, cs[e.0].a) != Some(q));
        }
    }
}

pub proof fn lemma_relax_sweep<
    D: Fn(PointConstraint, Vec3, Side, Side) -> Scalar,
    R: Fn(PointConstraint, Scalar, Vec3, Side, Side) -> Relaxed,
>(
    relax: Push<D, R>,
    cs: Seq<ContactConstraint>,
    local_of: Seq<u32>,
    inner: int,
    reverse: bool,
    reduce: bool,
    st: IslandState,
    next: IslandState,
)
    requires
        relax_sweep(relax, cs, local_of, inner, reverse, reduce, st, next),
        st.points.len() == cs.len(),
        st.lv.len() == st.av.len(),
        places_fit(cs, local_of, st.lv.len()),
    ensures
        kept_through(cs, local_of, st, next),
{
    let events = sweep_events(st.points, st.points.len() as int, inner, reverse);
    let states = choose|states: Seq<IslandState>| #[trigger]
        relax_trace(relax, cs, local_of, reduce, events, states) && states[0] == (IslandState {
            resid: Scalar::zero_spec(),
            ..st
        }) && states.last() == next;
    lemma_sweep_events(st.points, st.points.len() as int, inner, reverse);
    lemma_relax_trace(relax, cs, local_of, reduce, events, states, events.len() as int);
    assert forall|q: usize|
        #![trigger foreign(cs, local_of, q)]
        foreign(cs, local_of, q) && q < st.lv.len() && q < st.av.len() implies same_speeds(
        st,
        next,
        q as int,
    ) by {
        assert(same_speeds(states[0], states[events.len() as int], q as int));
    }
}

pub proof fn lemma_nudge_sweep<N: Fn(PointConstraint, Vec3, Side, Side) -> Option<(Speeds, Speeds)>>(
    nudge: N,
    cs: Seq<ContactConstraint>,
    local_of: Seq<u32>,
    warm: bool,
    st: IslandState,
    next: IslandState,
)
    requires
        nudge_sweep(nudge, cs, local_of, warm, st, next),
        st.points.len() == cs.len(),
        st.lv.len() == st.av.len(),
        places_fit(cs, local_of, st.lv.len()),
    ensures
        kept_through(cs, local_of, st, next),
        next.points == st.points,
{
    let events = sweep_events(st.points, st.points.len() as int, 1, false);
    let states = choose|states: Seq<IslandState>| #[trigger]
        nudge_trace(nudge, cs, local_of, warm, events, states) && states[0] == (IslandState {
            resid: Scalar::zero_spec(),
            ..st
        }) && states.last() == next;
    lemma_sweep_events(st.points, st.points.len() as int, 1, false);
    lemma_nudge_trace(nudge, cs, local_of, warm, events, states, events.len() as int);
    assert forall|q: usize|
        #![trigger foreign(cs, local_of, q)]
        foreign(cs, local_of, q) && q < st.lv.len() && q < st.av.len() implies same_speeds(
        st,
        next,
        q as int,
    ) by {
        assert(same_speeds(states[0], states[events.len() as int], q as int));
    }
}

/// What every sweep keeps: the points but for their impulses, and the speeds of
/// bodies that are in none of the contacts.
pub open spec fn kept_through(
    cs: Seq<ContactConstraint>,
    local_of: Seq<u32>,
    x: IslandState,
    y: IslandState,
) -> bool {
    &&& same_points(x.points, y.points)
    &&& y.lv.len() == x.lv.len()
    &&& y.av.len() == x.av.len()
    &&& forall|q: usize|
        #![trigger foreign(cs, local_of, q)]
        foreign(cs, local_of, q) && q < x.lv.len() && q < x.av.len() ==> same_speeds(
            x,
            y,
            q as int,
        )
}

proof fn lemma_kept_join(
    cs: Seq<ContactConstraint>,
    local_of: Seq<u32>,
    x: IslandState,
    y: IslandState,
    z: IslandState,
)
    requires
        kept_through(cs, local_of, x, y),
        kept_through(cs, local_of, y, z),
    ensures
        kept_through(cs, local_of, x, z),
{
    assert forall|c: int| 0 <= c < x.points.len() implies (#[trigger] x.points[c]).len()
        == z.points[c].len() by {
        assert(x.points[c].len() == y.points[c].len());
    }
    assert forall|c: int, i: int|
        #![trigger x.points[c][i]]
        #![trigger z.points[c][i]]
        0 <= c < x.points.len() && 0 <= i < x.points[c].len() implies z.points[c][i].terms
        == x.points[c][i].terms && z.points[c][i].feature == x.points[c][i].feature by {
        assert(x.points[c].len() == y.points[c].len());
        assert(y.points[c][i].terms == x.points[c][i].terms);
    }
    assert forall|q: usize|
        #![trigger foreign(cs, local_of, q)]
        foreign(cs, local_of, q) && q < x.lv.len() && q < x.av.len() implies same_speeds(
        x,
        z,
        q as int,
    ) by {
        assert(same_speeds(x, y, q as int));
        assert(same_speeds(y, z, q as int));
    }
}

pub proof fn lemma_sweeps_keep<
    W: Fn(PointConstraint, Vec3, Side, Side) -> Option<(Speeds, Speeds)>,
    D: Fn(PointConstraint, Vec3, Side, Side) -> Scalar,
    R: Fn(PointConstraint, Scalar, Vec3, Side, Side) -> Relaxed,
    H: Fn(PointConstraint, Vec3, Side, Side) -> Option<(Speeds, Speeds)>,
>(
    arith: ContactArith<W, D, R, H>,
    cs: Seq<ContactConstraint>,
    local_of: Seq<u32>,
    inner: int,
    plans: Seq<SweepPlan>,
    states: Seq<IslandState>,
    k: int,
)
    requires
        sweeps_run(arith, cs, local_of, inner, plans, states),
        0 <= k < states.len(),
        states[0].points.len() == cs.len(),
        states[0].lv.len() == states[0].av.len(),
        places_fit(cs, local_of, states[0].lv.len()),
    ensures
        kept_through(cs, local_of, states[0], states[k]),
    decreases k,
{
    if k > 0 {
        lemma_sweeps_keep(arith, cs, local_of, inner, plans, states, k - 1);
        let (st, next) = (states[k - 1], states[k - 1 + 1]);
        assert(sweep_step(arith, cs, local_of, inner, plans[k - 1], st, next));
        match plans[k - 1].next_spec() {
            Sweep::Relax { reverse, reduce } => {
                lemma_relax_sweep(arith.relax, cs, local_of, inner, reverse, reduce, st, next);
            },
            Sweep::Shock => {
                lemma_relax_sweep(arith.relax, cs, local_of, inner, true, false, st, next);
            },
            Sweep::Hold => {
                lemma_nudge_sweep(arith.hold, cs, local_of, false, st, next);
            },
            Sweep::Done => {},
        }
        lemma_kept_join(cs, local_of, states[0], st, next);
    }
}

/// Solving an island changes nothing of its contacts but the impulses, and no
/// speed of a body that is in none of them.
pub proof fn solving_changes_only_its_own<
    W: Fn(PointConstraint, Vec3, Side, Side) -> Option<(Speeds, Speeds)>,
    D: Fn(PointConstraint, Vec3, Side, Side) -> Scalar,
    R: Fn(PointConstraint, Scalar, Vec3, Side, Side) -> Relaxed,
    H: Fn(PointConstraint, Vec3, Side, Side) -> Option<(Speeds, Speeds)>,
>(
    arith: ContactArith<W, D, R, H>,
    cs: Seq<ContactConstraint>,
    local_of: Seq<u32>,
    params: PhaseParams,
    before: IslandState,
    after: IslandState,
)
    requires
        island_solved(arith, cs, local_of, params, before, after),
        before.points.len() == cs.len(),
        before.lv.len() == before.av.len(),
        places_fit(cs, local_of, before.lv.len()),
    ensures
        kept_through(cs, local_of, before, after),
{
    let inner = at_least_one(params.normal_inner) as int;
    let (plans, states) = choose|plans: Seq<SweepPlan>, states: Seq<IslandState>|
        {
            &&& states.len() > 0
            &&& nudge_sweep(arith.warm, cs, local_of, true, before, states[0])
            &&& plans[0] == fresh_plan(params)
            &&& #[trigger] sweeps_run(arith, cs, local_of, inner, plans, states)
            &&& plans.last().next_spec() == Sweep::Done
            &&& after.points == states.last().points
            &&& after.lv == states.last().lv
            &&& after.av == states.last().av
        };
    lemma_nudge_sweep(arith.warm, cs, local_of, true, before, states[0]);
    lemma_sweeps_keep(arith, cs, local_of, inner, plans, states, states.len() - 1);
    lemma_kept_join(cs, local_of, before, states[0], states.last());
    assert forall|q: usize|
        #![trigger foreign(cs, local_of, q)]
        foreign(cs, local_of, q) && q < before.lv.len() && q
            < before.av.len() implies same_speeds(before, after, q as int) by {
        assert(same_speeds(before, states.last(), q as int));
    }
}

/// The normal impulse of the point is not negative.
pub open spec fn pushes(p: PointConstraint) -> bool {
    !p.pn.lt_spec(Scalar::zero_spec())
}

/// No normal impulse is negative.
pub open spec fn all_push(points: Seq<Seq<PointConstraint>>) -> bool {
    forall|c: int, i: int|
        0 <= c < points.len() && 0 <= i < points[c].len() ==> pushes(#[trigger] points[c][i])
}

proof fn lemma_occurs_somewhere(events: Seq<(int, int)>, e: (int, int))
    requires
        occurs(events, e) > 0,
    ensures
        exists|j: int| 0 <= j < events.len() && #[trigger] events[j] == e,
    decreases events.len(),
{
    if events.len() > 0 {
        if events.last() == e {
            assert(events[events.len() - 1] == e);
        } else {
            lemma_occurs_somewhere(events.drop_last(), e);
            let j = choose|j: int|
                0 <= j < events.drop_last().len() && #[trigger] events.drop_last()[j] == e;
            assert(events[j] == e);
        }
    }
}

/// After `k` points of a relaxing sweep those points push, and what pushed before
/// still does.
proof fn lemma_push_trace<
    D: Fn(PointConstraint, Vec3, Side, Side) -> Scalar,
    R: Fn(PointConstraint, Scalar, Vec3, Side, Side) -> Relaxed,
>(
    relax: Push<D, R>,
    cs: Seq<ContactConstraint>,
    local_of: Seq<u32>,
    reduce: bool,
    events: Seq<(int, int)>,
    states: Seq<IslandState>,
    k: int,
)
    requires
        relax_trace(relax, cs, local_of, reduce, events, states),
        events_fit(events, states[0].points),
        states[0].points.len() == cs.len(),
        states[0].lv.len() == states[0].av.len(),
        places_fit(cs, local_of, states[0].lv.len()),
        0 <= k <= events.len(),
    ensures
        forall|j: int|
            0 <= j < k ==> pushes(states[k].points[(#[trigger] events[j]).0][events[j].1]),
        all_push(states[0].points) ==> all_push(states[k].points),
    decreases k,
{
    if k > 0 {
        lemma_push_trace(relax, cs, local_of, reduce, events, states, k - 1);
        lemma_relax_trace(relax, cs, local_of, reduce, events, states, k - 1);
        lemma_relax_trace(relax, cs, local_of, reduce, events, states, k);
        let st = states[k - 1];
        let e = events[k - 1];
        assert(relax_event(relax, cs, local_of, reduce, st, e, states[k - 1 + 1]));
        assert(same_points(states[0].points, st.points));
        assert(0 <= e.0 < st.points.len() && 0 <= e.1 < states[0].points[e.0].len());
        assert(st.points[e.0].len() == states[0].points[e.0].len());
        assert(pushes(states[k].points[e.0][e.1]));
        assert forall|j: int| 0 <= j < k implies pushes(
            states[k].points[(#[trigger] events[j]).0][events[j].1],
        ) by {
            if j < k - 1 {
                assert(pushes(st.points[events[j].0][events[j].1]));
                assert(0 <= events[j].0 < st.points.len());
            }
        }
        if all_push(states[0].points) {
            assert forall|c: int, i: int|
                0 <= c < states[k].points.len() && 0 <= i < states[k].points[c].len() implies pushes(
                #[trigger] states[k].points[c][i],
            ) by {
                if c != e.0 || i != e.1 {
                    assert(states[0].points[c].len() == st.points[c].len());
                    assert(pushes(st.points[c][i]));
                }
            }
        }
    }
}

proof fn lemma_push_sweep<
    D: Fn(PointConstraint, Vec3, Side, Side) -> Scalar,
    R: Fn(PointConstraint, Scalar, Vec3, Side, Side) -> Relaxed,
>(
    relax: Push<D, R>,
    cs: Seq<ContactConstraint>,
    local_of: Seq<u32>,
    inner: int,
    reverse: bool,
    reduce: bool,
    st: IslandState,
    next: IslandState,
)
    requires
        relax_sweep(relax, cs, local_of, inner, reverse, reduce, st, next),
        st.points.len() == cs.len(),
        st.lv.len() == st.av.len(),
        places_fit(cs, local_of, st.lv.len()),
        inner >= 1,
    ensures
        all_push(next.points),
{
    let events = sweep_events(st.points, st.points.len() as int, inner, reverse);
    let states = choose|states: Seq<IslandState>| #[trigger]
        relax_trace(relax, cs, local_of, reduce, events, states) && states[0] == (IslandState {
            resid: Scalar::zero_spec(),
            ..st
        }) && states.last() == next;
    lemma_sweep_events(st.points, st.points.len() as int, inner, reverse);
    lemma_push_trace(relax, cs, local_of, reduce, events, states, events.len() as int);
    lemma_relax_sweep(relax, cs, local_of, inner, reverse, reduce, st, next);
    assert(same_points(st.points, next.points));
    assert forall|c: int, i: int|
        0 <= c < next.points.len() && 0 <= i < next.points[c].len() implies pushes(
        #[trigger] next.points[c][i],
    ) by {
        assert(st.points[c].len() == next.points[c].len());
        sweep_visits_every_point(st.points, inner, reverse, (c, i));
        lemma_occurs_somewhere(events, (c, i));
        let j = choose|j: int| 0 <= j < events.len() && #[trigger] events[j] == (c, i);
        assert(pushes(states[events.len() as int].points[events[j].0][events[j].1]));
    }
}

proof fn lemma_sweeps_push<
    W: Fn(PointConstraint, Vec3, Side, Side) -> Option<(Speeds, Speeds)>,
    D: Fn(PointConstraint, Vec3, Side, Side) -> Scalar,
    R: Fn(PointConstraint, Scalar, Vec3, Side, Side) -> Relaxed,
    H: Fn(PointConstraint, Vec3, Side, Side) -> Option<(Speeds, Speeds)>,
>(
    arith: ContactArith<W, D, R, H>,
    cs: Seq<ContactConstraint>,
    local_of: Seq<u32>,
    inner: int,
    plans: Seq<SweepPlan>,
    states: Seq<IslandState>,
    k: int,
)
    requires
        sweeps_run(arith, cs, local_of, inner, plans, states),
        0 < k < states.len(),
        plans[0].next_spec() is Relax,
        inner >= 1,
        states[0].points.len() == cs.len(),
        states[0].lv.len() == states[0].av.len(),
        places_fit(cs, local_of, states[0].lv.len()),
    ensures
        all_push(states[k].points),
    decreases k,
{
    lemma_sweeps_keep(arith, cs, local_of, inner, plans, states, k - 1);
    let (st, next) = (states[k - 1], states[k - 1 + 1]);
    assert(same_points(states[0].points, st.points));
    assert(sweep_step(arith, cs, local_of, inner, plans[k - 1], st, next));
    if k > 1 {
        lemma_sweeps_push(arith, cs, local_of, inner, plans, states, k - 1);
    }
    match plans[k - 1].next_spec() {
        Sweep::Relax { reverse, reduce } => {
            lemma_push_sweep(arith.relax, cs, local_of, inner, reverse, reduce, st, next);
        },
        Sweep::Shock => {
            lemma_push_sweep(arith.relax, cs, local_of, inner, true, false, st, next);
        },
        Sweep::Hold => {
            lemma_nudge_sweep(arith.hold, cs, local_of, false, st, next);
        },
        Sweep::Done => {},
    }
}

/// Contacts push only: whatever impulses an island starts from, no normal impulse is
/// negative after its sweeps.
pub proof fn contacts_push_only<
    W: Fn(PointConstraint, Vec3, Side, Side) -> Option<(Speeds, Speeds)>,
    D: Fn(PointConstraint, Vec3, Side, Side) -> Scalar,
    R: Fn(PointConstraint, Scalar, Vec3, Side, Side) -> Relaxed,
    H: Fn(PointConstraint, Vec3, Side, Side) -> Option<(Speeds, Speeds)>,
>(
    arith: ContactArith<W, D, R, H>,
    cs: Seq<ContactConstraint>,
    local_of: Seq<u32>,
    params: PhaseParams,
    before: IslandState,
    after: IslandState,
)
    requires
        island_solved(arith, cs, local_of, params, before, after),
        before.points.len() == cs.len(),
        before.lv.len() == before.av.len(),
        places_fit(cs, local_of, before.lv.len()),
        params.iters >= 1,
    ensures
        all_push(after.points),
{
    let inner = at_least_one(params.normal_inner) as int;
    let (plans, states) = choose|plans: Seq<SweepPlan>, states: Seq<IslandState>|
        {
            &&& states.len() > 0
            &&& nudge_sweep(arith.warm, cs, local_of, true, before, states[0])
            &&& plans[0] == fresh_plan(params)
            &&& #[trigger] sweeps_run(arith, cs, local_of, inner, plans, states)
            &&& plans.last().next_spec() == Sweep::Done
            &&& after.points == states.last().points
            &&& after.lv == states.last().lv
            &&& after.av == states.last().av
        };
    lemma_nudge_sweep(arith.warm, cs, local_of, true, before, states[0]);
    assert(same_points(before.points, states[0].points));
    assert(plans[0].next_spec() is Relax);
    assert(states.len() > 1);
    lemma_sweeps_push(arith, cs, local_of, inner, plans, states, states.len() - 1);
}

} // verus!
