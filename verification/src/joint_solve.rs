//! The iteration of joint impulses: which row of which joint is solved when, and
//! which speeds it reads and writes.

use crate::body::BodySet;
use crate::joints::{
    acting, joint_rows, joint_rows_spec, joint_sweeps, joints_in, joints_may_stop, woken, Joint,
    JointRow, JointSet,
};
use crate::relax::Speeds;
use crate::scalar::{Scalar, Vec3};
use crate::schedule::{at_least_one, may_stop};
use crate::select::{indices_where, ints_usize, lemma_indices_where};
use vstd::prelude::*;

verus! {

/// One side of a joint: the body and its speeds.
#[derive(Clone, Copy, Debug, PartialEq, Eq, Structural)]
pub struct JointSide {
    pub body: u32,
    pub speeds: Speeds,
}

/// What solving a row gives: the new speeds of the two bodies and the size of the
/// correction.
#[derive(Clone, Copy, Debug, PartialEq, Eq, Structural)]
pub struct RowStep {
    pub a: Speeds,
    pub b: Speeds,
    pub dv: Scalar,
}

/// The speeds of all bodies, and the largest correction so far.
pub struct JointState {
    pub lin: Seq<Vec3>,
    pub ang: Seq<Vec3>,
    pub resid: Scalar,
}

/// A body as a side of a joint.
pub open spec fn joint_side(st: JointState, body: u32) -> JointSide {
    JointSide {
        body,
        speeds: Speeds { lin: st.lin[body as int], ang: st.ang[body as int] },
    }
}

/// A joint holds something if one of its bodies can move.
pub open spec fn holds_something(movable: Seq<bool>, j: Joint) -> bool {
    movable[j.a as int] || movable[j.b as int]
}

/// The state after the row was solved.
pub open spec fn row_event<R: Fn(JointRow, Joint, JointSide, JointSide) -> Option<RowStep>>(
    row: R,
    joints: Seq<Joint>,
    st: JointState,
    e: (int, JointRow),
    next: JointState,
) -> bool {
    let j = joints[e.0];
    exists|r: Option<RowStep>| #[trigger]
        row.ensures((e.1, j, joint_side(st, j.a), joint_side(st, j.b)), r) && next == match r {
            Some(s) => JointState {
                lin: st.lin.update(j.a as int, s.a.lin).update(j.b as int, s.b.lin),
                ang: st.ang.update(j.a as int, s.a.ang).update(j.b as int, s.b.ang),
                resid: st.resid.max_spec(s.dv),
            },
            None => st,
        }
}

/// The rows of one joint.
pub open spec fn rows_of(k: int, rows: Seq<JointRow>) -> Seq<(int, JointRow)> {
    rows.map_values(|r: JointRow| (k, r))
}

/// The rows of the first `n` of the chosen joints, in order.
pub open spec fn row_events(
    joints: Seq<Joint>,
    chosen: Seq<int>,
    movable: Seq<bool>,
    inv_dt: Scalar,
    n: int,
) -> Seq<(int, JointRow)>
    decreases n,
{
    if n <= 0 {
        Seq::empty()
    } else {
        let k = chosen[n - 1];
        row_events(joints, chosen, movable, inv_dt, n - 1) + rows_of(
            k,
            joint_rows_spec(joints[k], holds_something(movable, joints[k]), inv_dt),
        )
    }
}

/// A list of rows by its contents.
pub open spec fn wide_rows(s: Seq<(usize, JointRow)>) -> Seq<(int, JointRow)> {
    s.map_values(|e: (usize, JointRow)| (e.0 as int, e.1))
}

fn list_rows(
    joints: &Vec<Joint>,
    chosen: &Vec<usize>,
    movable: &[bool],
    inv_dt: Scalar,
) -> (events: Vec<(usize, JointRow)>)
    requires
        joints_in(joints@, movable@.len() as int),
        forall|i: int| 0 <= i < chosen@.len() ==> #[trigger] chosen@[i] < joints@.len(),
    ensures
        wide_rows(events@) == row_events(
            joints@,
            ints_usize(chosen@),
            movable@,
            inv_dt,
            chosen@.len() as int,
        ),
        forall|i: int| 0 <= i < events@.len() ==> (#[trigger] events@[i]).0 < joints@.len(),
{
    let mut events: Vec<(usize, JointRow)> = Vec::new();
    let mut i: usize = 0;
    assert(wide_rows(events@) =~= Seq::<(int, JointRow)>::empty());
    while i < chosen.len()
        invariant
            i <= chosen@.len(),
            joints_in(joints@, movable@.len() as int),
            forall|i: int| 0 <= i < chosen@.len() ==> #[trigger] chosen@[i] < joints@.len(),
            wide_rows(events@) == row_events(
                joints@,
                ints_usize(chosen@),
                movable@,
                inv_dt,
                i as int,
            ),
            forall|q: int| 0 <= q < events@.len() ==> (#[trigger] events@[q]).0 < joints@.len(),
        decreases chosen@.len() - i,
    {
        let k: usize = chosen[i];
        let j: Joint = joints[k];
        assert(joints@[k as int].a < movable@.len());
        let rows = joint_rows(&j, movable[j.a as usize] || movable[j.b as usize], inv_dt);
        let ghost before = wide_rows(events@);
        let mut q: usize = 0;
        assert(before + rows_of(k as int, rows@).take(0) =~= before);
        while q < rows.len()
            invariant
                q <= rows@.len(),
                k < joints@.len(),
                wide_rows(events@) == before + rows_of(k as int, rows@).take(q as int),
                forall|p: int| 0 <= p < events@.len() ==> (#[trigger] events@[p]).0 < joints@.len(),
            decreases rows@.len() - q,
        {
            let ghost old_events = wide_rows(events@);
            events.push((k, rows[q]));
            assert(wide_rows(events@) =~= old_events.push((k as int, rows@[q as int])));
            assert(wide_rows(events@) =~= before + rows_of(k as int, rows@).take(q + 1));
            q += 1;
        }
        assert(rows_of(k as int, rows@).take(q as int) =~= rows_of(k as int, rows@));
        assert(ints_usize(chosen@)[i as int] == k);
        i += 1;
        assert(wide_rows(events@) =~= row_events(
            joints@,
            ints_usize(chosen@),
            movable@,
            inv_dt,
            i as int,
        ));
    }
    events
}

/// The states of one sweep over the rows.
pub open spec fn row_trace<R: Fn(JointRow, Joint, JointSide, JointSide) -> Option<RowStep>>(
    row: R,
    joints: Seq<Joint>,
    events: Seq<(int, JointRow)>,
    states: Seq<JointState>,
) -> bool {
    &&& states.len() == events.len() + 1
    &&& forall|k: int|
        0 <= k < events.len() ==> row_event(
            row,
            joints,
            #[trigger] states[k],
            events[k],
            states[k + 1],
        )
}

/// One sweep over the rows, with the corrections counted afresh.
pub open spec fn joint_sweep<R: Fn(JointRow, Joint, JointSide, JointSide) -> Option<RowStep>>(
    row: R,
    joints: Seq<Joint>,
    events: Seq<(int, JointRow)>,
    st: JointState,
    next: JointState,
) -> bool {
    exists|states: Seq<JointState>| #[trigger]
        row_trace(row, joints, events, states) && states[0] == (JointState {
            resid: Scalar::zero_spec(),
            ..st
        }) && states.last() == next
}

fn run_rows<R: Fn(JointRow, Joint, JointSide, JointSide) -> Option<RowStep>>(
    row: &R,
    joints: &Vec<Joint>,
    events: &Vec<(usize, JointRow)>,
    lin: &mut Vec<Vec3>,
    ang: &mut Vec<Vec3>,
) -> (resid: Scalar)
    requires
        forall|r: JointRow, j: Joint, a: JointSide, b: JointSide| #[trigger]
            row.requires((r, j, a, b)),
        old(lin)@.len() == old(ang)@.len(),
        joints_in(joints@, old(lin)@.len() as int),
        forall|i: int| 0 <= i < events@.len() ==> (#[trigger] events@[i]).0 < joints@.len(),
    ensures
        final(lin)@.len() == old(lin)@.len(),
        final(ang)@.len() == old(ang)@.len(),
        forall|r: Scalar|
            joint_sweep(
                *row,
                joints@,
                wide_rows(events@),
                #[trigger] spinning(old(lin)@, old(ang)@, r),
                spinning(final(lin)@, final(ang)@, resid),
            ),
{
    let ghost n0 = lin@.len();
    let ghost first = spinning(lin@, ang@, Scalar::zero_spec());
    let ghost mut states: Seq<JointState> = seq![first];
    let mut resid: Scalar = Scalar::zero();
    let mut k: usize = 0;
    assert(first.resid == resid);
    while k < events.len()
        invariant
            k <= events@.len(),
            n0 == old(lin)@.len(),
            lin@.len() == n0,
            ang@.len() == n0,
            joints_in(joints@, n0 as int),
            forall|r: JointRow, j: Joint, a: JointSide, b: JointSide| #[trigger]
                row.requires((r, j, a, b)),
            forall|i: int| 0 <= i < events@.len() ==> (#[trigger] events@[i]).0 < joints@.len(),
            states.len() == k + 1,
            states[0] == first,
            states.last() == spinning(lin@, ang@, resid),
            forall|q: int|
                0 <= q < k ==> row_event(
                    *row,
                    joints@,
                    #[trigger] states[q],
                    wide_rows(events@)[q],
                    states[q + 1],
                ),
        decreases events@.len() - k,
    {
        let (i, r) = events[k];
        let ghost st = spinning(lin@, ang@, resid);
        let ghost old_states = states;
        assert(events@[k as int].0 < joints@.len());
        let j: Joint = joints[i];
        assert(joints@[i as int].a < n0);
        let (a, b) = (j.a as usize, j.b as usize);
        let sa = JointSide { body: j.a, speeds: Speeds { lin: lin[a], ang: ang[a] } };
        let sb = JointSide { body: j.b, speeds: Speeds { lin: lin[b], ang: ang[b] } };
        let step = row(r, j, sa, sb);
        if let Some(s) = step {
            lin.set(a, s.a.lin);
            lin.set(b, s.b.lin);
            ang.set(a, s.a.ang);
            ang.set(b, s.b.ang);
            resid = resid.max(s.dv);
        }
        proof {
            let next = spinning(lin@, ang@, resid);
            assert(row.ensures((r, j, joint_side(st, j.a), joint_side(st, j.b)), step));
            assert(wide_rows(events@)[k as int] == (i as int, r));
            assert(row_event(*row, joints@, st, wide_rows(events@)[k as int], next));
            states = states.push(next);
            assert forall|q: int| 0 <= q < k + 1 implies row_event(
                *row,
                joints@,
                #[trigger] states[q],
                wide_rows(events@)[q],
                states[q + 1],
            ) by {
                assert(states[q] == old_states[q]);
                if q < k {
                    assert(states[q + 1] == old_states[q + 1]);
                }
            }
        }
        k += 1;
    }
    assert(row_trace(*row, joints@, wide_rows(events@), states));
    resid
}

/// The state that the lists hold.
pub open spec fn spinning(lin: Seq<Vec3>, ang: Seq<Vec3>, resid: Scalar) -> JointState {
    JointState { lin, ang, resid }
}

/// Sweep `k` leads from one state to the next, and is followed by another only if
/// it may not be the last.
pub open spec fn sweep_at<R: Fn(JointRow, Joint, JointSide, JointSide) -> Option<RowStep>>(
    row: R,
    joints: Seq<Joint>,
    events: Seq<(int, JointRow)>,
    states: Seq<JointState>,
    k: int,
) -> bool {
    &&& joint_sweep(row, joints, events, states[k], states[k + 1])
    &&& k + 2 < states.len() ==> !may_stop(k, states[k + 1].resid)
}

/// The sweeps of a solve: they go on until one may be the last, or all have run.
pub open spec fn joint_sweeps_run<
    R: Fn(JointRow, Joint, JointSide, JointSide) -> Option<RowStep>,
>(
    row: R,
    joints: Seq<Joint>,
    events: Seq<(int, JointRow)>,
    sweeps: int,
    states: Seq<JointState>,
) -> bool {
    &&& 2 <= states.len() <= sweeps + 1
    &&& forall|k: int|
        0 <= k < states.len() - 1 ==> #[trigger] sweep_at(row, joints, events, states, k)
    &&& states.len() < sweeps + 1 ==> may_stop(states.len() - 2, states.last().resid)
}

fn run_sweeps<R: Fn(JointRow, Joint, JointSide, JointSide) -> Option<RowStep>>(
    row: &R,
    joints: &Vec<Joint>,
    events: &Vec<(usize, JointRow)>,
    lin: &mut Vec<Vec3>,
    ang: &mut Vec<Vec3>,
    sweeps: u32,
) -> (states: Ghost<Seq<JointState>>)
    requires
        sweeps >= 1,
        forall|r: JointRow, j: Joint, a: JointSide, b: JointSide| #[trigger]
            row.requires((r, j, a, b)),
        old(lin)@.len() == old(ang)@.len(),
        joints_in(joints@, old(lin)@.len() as int),
        forall|i: int| 0 <= i < events@.len() ==> (#[trigger] events@[i]).0 < joints@.len(),
    ensures
        final(lin)@.len() == old(lin)@.len(),
        final(ang)@.len() == old(ang)@.len(),
        joint_sweeps_run(*row, joints@, wide_rows(events@), sweeps as int, states@),
        states@[0] == spinning(old(lin)@, old(ang)@, Scalar::zero_spec()),
        states@.last().lin == final(lin)@,
        states@.last().ang == final(ang)@,
{
    let ghost n0 = lin@.len();
    let ghost order = wide_rows(events@);
    let ghost first = spinning(lin@, ang@, Scalar::zero_spec());
    let ghost mut states: Seq<JointState> = seq![first];
    let mut it: u32 = 0;
    loop
        invariant
            it < sweeps,
            n0 == old(lin)@.len(),
            n0 == old(ang)@.len(),
            lin@.len() == n0,
            ang@.len() == n0,
            first == spinning(old(lin)@, old(ang)@, Scalar::zero_spec()),
            joints_in(joints@, n0 as int),
            order == wide_rows(events@),
            forall|i: int| 0 <= i < events@.len() ==> (#[trigger] events@[i]).0 < joints@.len(),
            forall|r: JointRow, j: Joint, a: JointSide, b: JointSide| #[trigger]
                row.requires((r, j, a, b)),
            states.len() == it + 1,
            states[0] == first,
            states.last() == spinning(lin@, ang@, states.last().resid),
            forall|k: int|
                0 <= k < it ==> #[trigger] sweep_at(*row, joints@, order, states, k),
            it > 0 ==> !may_stop(it - 1, states[it as int].resid),
        decreases sweeps - it,
    {
        let ghost old_states = states;
        let ghost st = spinning(lin@, ang@, states.last().resid);
        let resid = run_rows(row, joints, events, lin, ang);
        proof {
            let next = spinning(lin@, ang@, resid);
            assert(joint_sweep(*row, joints@, order, st, next));
            states = states.push(next);
            assert forall|k: int| 0 <= k < it + 1 implies #[trigger] sweep_at(
                *row,
                joints@,
                order,
                states,
                k,
            ) by {
                assert(states[k] == old_states[k]);
                if k < it {
                    assert(sweep_at(*row, joints@, order, old_states, k));
                    assert(states[k + 1] == old_states[k + 1]);
                }
            }
        }
        let stop: bool = joints_may_stop(it, resid);
        it += 1;
        if stop || it == sweeps {
            assert(joint_sweeps_run(*row, joints@, order, sweeps as int, states));
            return Ghost(states);
        }
    }
}

/// The joints were solved: the acting ones, sweep after sweep.
pub open spec fn joints_solved<R: Fn(JointRow, Joint, JointSide, JointSide) -> Option<RowStep>>(
    row: R,
    joints: Seq<Joint>,
    chosen: Seq<int>,
    movable: Seq<bool>,
    inv_dt: Scalar,
    sweeps: int,
    lin: Seq<Vec3>,
    ang: Seq<Vec3>,
    lin_after: Seq<Vec3>,
    ang_after: Seq<Vec3>,
) -> bool {
    let events = row_events(joints, chosen, movable, inv_dt, chosen.len() as int);
    exists|states: Seq<JointState>| #[trigger]
        joint_sweeps_run(row, joints, events, sweeps, states) && states[0] == spinning(
            lin,
            ang,
            Scalar::zero_spec(),
        ) && states.last().lin == lin_after && states.last().ang == ang_after
}

impl JointSet {
    /// Wakes what the joints hold and solves the acting joints. `row` solves one
    /// row of a joint, and `movable` tells which bodies can move.
    pub fn solve<R: Fn(JointRow, Joint, JointSide, JointSide) -> Option<RowStep>>(
        &self,
        bodies: &mut BodySet,
        joint_iterations: u32,
        movable: &[bool],
        inv_dt: Scalar,
        row: &R,
    )
        requires
            old(bodies).wf(),
            movable@.len() == old(bodies).count(),
            joints_in(self.joints@, old(bodies).count() as int),
            forall|r: JointRow, j: Joint, a: JointSide, b: JointSide| #[trigger]
                row.requires((r, j, a, b)),
        ensures
            final(bodies).wf(),
            self.joints@.len() == 0 ==> *final(bodies) == *old(bodies),
            final(bodies).awake@ == woken(
                old(bodies).dynamic@,
                old(bodies).awake@,
                self.joints@,
                self.joints@.len() as int,
            ),
            forall|i: int|
                0 <= i < old(bodies).count() ==> #[trigger] final(bodies).sleep_timer@[i] == if old(
                    bodies).awake@[i] == final(bodies).awake@[i] {
                    old(bodies).sleep_timer@[i]
                } else {
                    Scalar::zero_spec()
                },
            final(bodies).dynamic == old(bodies).dynamic,
            final(bodies).position == old(bodies).position,
            final(bodies).rotation == old(bodies).rotation,
            self.joints@.len() > 0 ==> joints_solved(
                *row,
                self.joints@,
                indices_where(acting(final(bodies), self.joints@), self.joints@.len()),
                movable@,
                inv_dt,
                at_least_one(joint_iterations) as int,
                old(bodies).linvel@,
                old(bodies).angvel@,
                final(bodies).linvel@,
                final(bodies).angvel@,
            ),
    {
        if self.joints.len() == 0 {
            assert(woken(
                bodies.dynamic@,
                bodies.awake@,
                self.joints@,
                self.joints@.len() as int,
            ) == bodies.awake@);
            return;
        }
        self.wake(bodies);
        let ghost woke = *bodies;
        let chosen = self.active_joints(bodies);
        let ghost sel = indices_where(acting(&woke, self.joints@), self.joints@.len());
        proof {
            lemma_indices_where(acting(&woke, self.joints@), self.joints@.len());
            assert forall|i: int| 0 <= i < chosen@.len() implies #[trigger] chosen@[i]
                < self.joints@.len() by {
                assert(ints_usize(chosen@)[i] == chosen@[i]);
                assert(sel[i] < self.joints@.len());
            }
        }
        let events = list_rows(&self.joints, &chosen, movable, inv_dt);
        let sweeps: u32 = joint_sweeps(joint_iterations);
        let ghost order = wide_rows(events@);
        let Ghost(states) = run_sweeps(
            row,
            &self.joints,
            &events,
            &mut bodies.linvel,
            &mut bodies.angvel,
            sweeps,
        );
        proof {
            assert(acting(&woke, self.joints@) =~= acting(bodies, self.joints@));
            assert(joint_sweeps_run(*row, self.joints@, order, sweeps as int, states));
        }
    }
}

/// The body is in none of the listed rows.
pub open spec fn untouched(joints: Seq<Joint>, events: Seq<(int, JointRow)>, i: int) -> bool {
    forall|k: int|
        0 <= k < events.len() ==> joints[(#[trigger] events[k]).0].a != i && joints[events[k].0].b
            != i
}

/// The rows are those of existing joints between existing bodies.
pub open spec fn rows_fit(joints: Seq<Joint>, events: Seq<(int, JointRow)>, n: int) -> bool {
    &&& joints_in(joints, n)
    &&& forall|k: int| 0 <= k < events.len() ==> 0 <= (#[trigger] events[k]).0 < joints.len()
}

/// The speeds of a body are the same.
pub open spec fn same_spin(x: JointState, y: JointState, i: int) -> bool {
    x.lin[i] == y.lin[i] && x.ang[i] == y.ang[i]
}

proof fn lemma_row_trace_keeps<R: Fn(JointRow, Joint, JointSide, JointSide) -> Option<RowStep>>(
    row: R,
    joints: Seq<Joint>,
    events: Seq<(int, JointRow)>,
    states: Seq<JointState>,
    i: int,
    k: int,
)
    requires
        row_trace(row, joints, events, states),
        states[0].lin.len() == states[0].ang.len(),
        rows_fit(joints, events, states[0].lin.len() as int),
        untouched(joints, events, i),
        0 <= i < states[0].lin.len(),
        0 <= k <= events.len(),
    ensures
        same_spin(states[0], states[k], i),
        states[k].lin.len() == states[0].lin.len(),
        states[k].ang.len() == states[0].ang.len(),
    decreases k,
{
    if k > 0 {
        lemma_row_trace_keeps(row, joints, events, states, i, k - 1);
        let e = events[k - 1];
        assert(row_event(row, joints, states[k - 1], e, states[k - 1 + 1]));
        assert(0 <= e.0 < joints.len());
        assert(joints[e.0].a < states[0].lin.len());
    }
}

proof fn lemma_sweeps_keep<R: Fn(JointRow, Joint, JointSide, JointSide) -> Option<RowStep>>(
    row: R,
    joints: Seq<Joint>,
    events: Seq<(int, JointRow)>,
    sweeps: int,
    states: Seq<JointState>,
    i: int,
    k: int,
)
    requires
        joint_sweeps_run(row, joints, events, sweeps, states),
        states[0].lin.len() == states[0].ang.len(),
        rows_fit(joints, events, states[0].lin.len() as int),
        untouched(joints, events, i),
        0 <= i < states[0].lin.len(),
        0 <= k < states.len(),
    ensures
        same_spin(states[0], states[k], i),
        states[k].lin.len() == states[0].lin.len(),
        states[k].ang.len() == states[0].ang.len(),
    decreases k,
{
    if k > 0 {
        lemma_sweeps_keep(row, joints, events, sweeps, states, i, k - 1);
        assert(sweep_at(row, joints, events, states, k - 1));
        let st = states[k - 1];
        let next = states[k - 1 + 1];
        let inner = choose|inner: Seq<JointState>| #[trigger]
            row_trace(row, joints, events, inner) && inner[0] == (JointState {
                resid: Scalar::zero_spec(),
                ..st
            }) && inner.last() == next;
        lemma_row_trace_keeps(row, joints, events, inner, i, events.len() as int);
    }
}

proof fn lemma_events_of(
    joints: Seq<Joint>,
    chosen: Seq<int>,
    movable: Seq<bool>,
    inv_dt: Scalar,
    n: int,
)
    requires
        0 <= n <= chosen.len(),
    ensures
        forall|k: int|
            0 <= k < row_events(joints, chosen, movable, inv_dt, n).len() ==> chosen.contains(
                (#[trigger] row_events(joints, chosen, movable, inv_dt, n)[k]).0,
            ),
    decreases n,
{
    if n > 0 {
        lemma_events_of(joints, chosen, movable, inv_dt, n - 1);
        let before = row_events(joints, chosen, movable, inv_dt, n - 1);
        let all = row_events(joints, chosen, movable, inv_dt, n);
        assert forall|k: int| 0 <= k < all.len() implies chosen.contains((#[trigger] all[k]).0) by {
            if k < before.len() {
                assert(all[k] == before[k]);
            } else {
                assert(all[k].0 == chosen[n - 1]);
            }
        }
    }
}

/// Solving joints changes the speeds of no body that no acting joint holds.
pub proof fn joints_move_only_what_they_hold<R: Fn(JointRow, Joint, JointSide, JointSide) -> Option<RowStep>>(
    row: R,
    joints: Seq<Joint>,
    chosen: Seq<int>,
    movable: Seq<bool>,
    inv_dt: Scalar,
    sweeps: int,
    lin: Seq<Vec3>,
    ang: Seq<Vec3>,
    lin_after: Seq<Vec3>,
    ang_after: Seq<Vec3>,
    i: int,
)
    requires
        joints_solved(
            row,
            joints,
            chosen,
            movable,
            inv_dt,
            sweeps,
            lin,
            ang,
            lin_after,
            ang_after,
        ),
        lin.len() == ang.len(),
        joints_in(joints, lin.len() as int),
        forall|k: int| 0 <= k < chosen.len() ==> 0 <= #[trigger] chosen[k] < joints.len(),
        forall|k: int|
            0 <= k < chosen.len() ==> joints[#[trigger] chosen[k]].a != i && joints[chosen[k]].b
                != i,
        0 <= i < lin.len(),
    ensures
        lin_after[i] == lin[i],
        ang_after[i] == ang[i],
{
    let events = row_events(joints, chosen, movable, inv_dt, chosen.len() as int);
    let states = choose|states: Seq<JointState>| #[trigger]
        joint_sweeps_run(row, joints, events, sweeps, states) && states[0] == spinning(
            lin,
            ang,
            Scalar::zero_spec(),
        ) && states.last().lin == lin_after && states.last().ang == ang_after;
    lemma_events_of(joints, chosen, movable, inv_dt, chosen.len() as int);
    assert forall|k: int| 0 <= k < events.len() implies 0 <= (#[trigger] events[k]).0 < joints.len()
        && joints[events[k].0].a != i && joints[events[k].0].b != i by {
        let q = choose|q: int| 0 <= q < chosen.len() && chosen[q] == events[k].0;
        assert(0 <= chosen[q] < joints.len());
    }
    lemma_sweeps_keep(row, joints, events, sweeps, states, i, states.len() - 1);
}

} // verus!
