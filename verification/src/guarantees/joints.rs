//! What joints promise.

use crate::body::BodySet;
use crate::joint_solve::{
    joint_side, joint_sweep, joint_sweeps_run, row_event, row_events, row_trace, rows_of, spinning,
    sweep_at, JointSide, JointState, RowStep,
};
use crate::joints::{
    acting, acting_joint_wakes_both, angular_rows, joint_active, joint_active_spec, joint_rows,
    joint_rows_spec, joints_in, joints_only_wake, limit_impulse, limit_rows, limit_side, linear_rows,
    motor_rows, woken, Joint, JointKind, JointRow, JointSet, LimitSide,
};
use crate::relax::Speeds;
use crate::scalar::{Scalar, Vec3};
use crate::select::{indices_where, lemma_indices_where};
use vstd::prelude::*;

verus! {

/// A positive number: above zero and not beyond infinity.
pub open spec fn positive(x: Scalar) -> bool {
    0 < x.bits <= 0x7f80_0000
}

/// What a joint asks for: its kind locks freedoms, its motor drives and its limits
/// bound the one that a hinge or a slider leaves.
pub open spec fn asks_for(j: Joint, row: JointRow, inv_dt: Scalar) -> bool {
    let motor = positive(j.motor_max_force) && j.motor_max_force.bits < 0x7f80_0000 && positive(inv_dt);
    let limited = j.limit_lower.lt_spec(j.limit_upper);
    match row {
        JointRow::Length => j.kind == JointKind::Distance,
        JointRow::PointAcross => j.kind == JointKind::Prismatic,
        JointRow::Point => j.kind == JointKind::Spherical || j.kind == JointKind::Revolute || j.kind
            == JointKind::Fixed,
        JointRow::Rotation => j.kind == JointKind::Fixed || j.kind == JointKind::Prismatic,
        JointRow::RotationAcross => j.kind == JointKind::Revolute,
        JointRow::RotationMotor => j.kind == JointKind::Revolute && motor,
        JointRow::SlideMotor => j.kind == JointKind::Prismatic && motor,
        JointRow::RotationLimit => j.kind == JointKind::Revolute && limited,
        JointRow::SlideLimit => j.kind == JointKind::Prismatic && limited,
    }
}

/// The turn of a block within its joint: the anchors, the rotation, the motor, and last
/// the limits.
pub open spec fn turn(row: JointRow) -> int {
    match row {
        JointRow::Length | JointRow::PointAcross | JointRow::Point => 0,
        JointRow::Rotation | JointRow::RotationAcross => 1,
        JointRow::RotationMotor | JointRow::SlideMotor => 2,
        JointRow::RotationLimit | JointRow::SlideLimit => 3,
    }
}

proof fn lemma_rows(j: Joint, inv_dt: Scalar)
    ensures
        ({
            let rows = joint_rows_spec(j, true, inv_dt);
            &&& forall|row: JointRow| #[trigger] rows.contains(row) <==> asks_for(j, row, inv_dt)
            &&& forall|x: int, y: int|
                0 <= x < y < rows.len() ==> turn(#[trigger] rows[x]) < turn(#[trigger] rows[y])
        }),
{
    let rows = joint_rows_spec(j, true, inv_dt);
    let (l, a, m, e) = (
        linear_rows(j.kind),
        angular_rows(j.kind),
        motor_rows(j, inv_dt),
        limit_rows(j),
    );
    assert(rows == l + a + m + e);
    assert(l.len() == 1 && a.len() <= 1 && m.len() <= 1 && e.len() <= 1);
    assert(rows[0] == l[0]);
    assert(a.len() == 1 ==> rows[1] == a[0]);
    assert(m.len() == 1 ==> rows[1 + a.len() as int] == m[0]);
    assert(e.len() == 1 ==> rows[1 + a.len() + m.len() as int] == e[0]);
    assert forall|row: JointRow| asks_for(j, row, inv_dt) implies #[trigger] rows.contains(row) by {
        if turn(row) == 0 {
            assert(rows[0] == row);
        } else if turn(row) == 1 {
            assert(rows[1] == row);
        } else if turn(row) == 2 {
            assert(rows[1 + a.len() as int] == row);
        } else {
            assert(rows[1 + a.len() + m.len() as int] == row);
        }
    }
    assert forall|row: JointRow| #[trigger] rows.contains(row) implies asks_for(j, row, inv_dt) by {
        let x = choose|x: int| 0 <= x < rows.len() && rows[x] == row;
        assert(x == 0 || x == 1 || x == 2 || x == 3);
    }
    assert forall|x: int, y: int| 0 <= x < y < rows.len() implies turn(#[trigger] rows[x]) < turn(
        #[trigger] rows[y],
    ) by {
        assert(x == 0 || x == 1 || x == 2);
        assert(y == 1 || y == 2 || y == 3);
    }
}

/// The blocks of a joint are exactly those that it asks for, each once, in their turns;
/// between two immovable bodies there are none.
pub proof fn joints_get_what_they_ask_for(
    joint: &Joint,
    movable: bool,
    inv_dt: Scalar,
    rows: Vec<JointRow>,
)
    requires
        call_ensures(joint_rows, (joint, movable, inv_dt), rows),
    ensures
        forall|row: JointRow| #[trigger]
            rows@.contains(row) <==> movable && asks_for(*joint, row, inv_dt),
        forall|x: int, y: int|
            0 <= x < y < rows@.len() ==> turn(#[trigger] rows@[x]) < turn(#[trigger] rows@[y]),
{
    lemma_rows(*joint, inv_dt);
}

/// Joint `k` acts on the bodies: one of its ends is dynamic and awake.
pub open spec fn acts(bodies: &BodySet, j: Joint) -> bool {
    ||| bodies.dynamic@[j.a as int] && bodies.awake@[j.a as int]
    ||| bodies.dynamic@[j.b as int] && bodies.awake@[j.b as int]
}

/// A block was solved with the speeds at hand: what `row` gives for the two ends is
/// what they have next, and nobody else's speeds change.
pub open spec fn block_solved<R: Fn(JointRow, Joint, JointSide, JointSide) -> Option<RowStep>>(
    row: R,
    j: Joint,
    block: JointRow,
    before: JointState,
    after: JointState,
    r: Option<RowStep>,
) -> bool {
    &&& row.ensures(
        (
            block,
            j,
            JointSide {
                body: j.a,
                speeds: Speeds { lin: before.lin[j.a as int], ang: before.ang[j.a as int] },
            },
            JointSide {
                body: j.b,
                speeds: Speeds { lin: before.lin[j.b as int], ang: before.ang[j.b as int] },
            },
        ),
        r,
    )
    &&& r is None ==> after == before
    &&& r is Some ==> {
        let s = r.unwrap();
        &&& j.a != j.b ==> after.lin[j.a as int] == s.a.lin && after.ang[j.a as int] == s.a.ang
        &&& after.lin[j.b as int] == s.b.lin && after.ang[j.b as int] == s.b.ang
        &&& forall|i: int|
            0 <= i < before.lin.len() && i != j.a && i != j.b ==> #[trigger] after.lin[i]
                == before.lin[i]
        &&& forall|i: int|
            0 <= i < before.ang.len() && i != j.a && i != j.b ==> #[trigger] after.ang[i]
                == before.ang[i]
        &&& !s.dv.is_nan_spec() && !before.resid.is_nan_spec() ==> s.dv.le_spec(after.resid)
            && before.resid.le_spec(after.resid)
        &&& after.resid == s.dv || after.resid == before.resid
    }
}

/// The blocks that a sweep goes through: exactly those that the acting joints with a
/// movable end ask for, each once, joint after joint.
pub open spec fn blocks_listed(
    bodies: &BodySet,
    joints: Seq<Joint>,
    movable: Seq<bool>,
    inv_dt: Scalar,
    events: Seq<(int, JointRow)>,
) -> bool {
    &&& forall|k: int, row: JointRow| #[trigger]
        events.contains((k, row)) <==> {
            &&& 0 <= k < joints.len()
            &&& acts(bodies, joints[k])
            &&& movable[joints[k].a as int] || movable[joints[k].b as int]
            &&& asks_for(joints[k], row, inv_dt)
        }
    &&& forall|x: int, y: int|
        #![trigger events[x], events[y]]
        0 <= x < y < events.len() ==> events[x].0 < events[y].0 || (events[x].0 == events[y].0
            && turn(events[x].1) < turn(events[y].1))
}

/// The block was solved with some answer of `row`.
pub open spec fn block_answered<R: Fn(JointRow, Joint, JointSide, JointSide) -> Option<RowStep>>(
    row: R,
    j: Joint,
    block: JointRow,
    before: JointState,
    after: JointState,
) -> bool {
    exists|r: Option<RowStep>| #[trigger] block_solved(row, j, block, before, after, r)
}

/// A sweep goes through the listed blocks, one state after each.
#[verifier::opaque]
pub open spec fn sweep_solved<R: Fn(JointRow, Joint, JointSide, JointSide) -> Option<RowStep>>(
    row: R,
    joints: Seq<Joint>,
    events: Seq<(int, JointRow)>,
    states: Seq<JointState>,
) -> bool {
    &&& states.len() == events.len() + 1
    &&& forall|e: int|
        #![trigger events[e]]
        0 <= e < events.len() ==> block_answered(
            row,
            joints[events[e].0],
            events[e].1,
            states[e],
            states[e + 1],
        )
}

/// What solving joints does: sweep after sweep through the listed blocks, from the
/// speeds the bodies had to those they end with.
pub open spec fn sweeps_done<R: Fn(JointRow, Joint, JointSide, JointSide) -> Option<RowStep>>(
    row: R,
    joints: Seq<Joint>,
    iterations: u32,
    before: &BodySet,
    after: &BodySet,
    events: Seq<(int, JointRow)>,
    sweeps: Seq<Seq<JointState>>,
) -> bool {
    &&& 1 <= sweeps.len()
    &&& sweeps.len() <= iterations || sweeps.len() == 1
    &&& sweeps.len() < iterations ==> sweeps.len() >= 4 && sweeps.last().last().resid.lt_spec(
        Scalar { bits: 0x3b03_126f },
    )
    &&& sweeps[0][0].lin == before.linvel@
    &&& sweeps[0][0].ang == before.angvel@
    &&& sweeps.last().last().lin == after.linvel@
    &&& sweeps.last().last().ang == after.angvel@
    &&& forall|q: int|
        #![trigger sweeps[q]]
        0 <= q < sweeps.len() ==> {
            &&& sweeps[q].len() == events.len() + 1
            &&& sweeps[q][0].resid.bits == 0
            &&& q + 1 < sweeps.len() ==> sweeps[q + 1][0].lin == sweeps[q].last().lin
            &&& q + 1 < sweeps.len() ==> sweeps[q + 1][0].ang == sweeps[q].last().ang
            &&& q + 1 < sweeps.len() ==> q < 3 || !sweeps[q].last().resid.lt_spec(
                Scalar { bits: 0x3b03_126f },
            )
            &&& sweep_solved(row, joints, events, sweeps[q])
        }
}

proof fn lemma_listed(
    bodies: &BodySet,
    joints: Seq<Joint>,
    chosen: Seq<int>,
    movable: Seq<bool>,
    inv_dt: Scalar,
    n: int,
)
    requires
        0 <= n <= chosen.len(),
        forall|x: int| 0 <= x < chosen.len() ==> 0 <= #[trigger] chosen[x] < joints.len(),
        forall|x: int, y: int|
            0 <= x < y < chosen.len() ==> #[trigger] chosen[x] < #[trigger] chosen[y],
    ensures
        ({
            let events = row_events(joints, chosen, movable, inv_dt, n);
            &&& forall|k: int, row: JointRow| #[trigger]
                events.contains((k, row)) <==> {
                    &&& exists|x: int| 0 <= x < n && #[trigger] chosen[x] == k
                    &&& movable[joints[k].a as int] || movable[joints[k].b as int]
                    &&& asks_for(joints[k], row, inv_dt)
                }
            &&& forall|x: int, y: int|
                #![trigger events[x], events[y]]
                0 <= x < y < events.len() ==> events[x].0 < events[y].0 || (events[x].0
                    == events[y].0 && turn(events[x].1) < turn(events[y].1))
        }),
    decreases n,
{
    let events = row_events(joints, chosen, movable, inv_dt, n);
    if n > 0 {
        lemma_listed(bodies, joints, chosen, movable, inv_dt, n - 1);
        let before = row_events(joints, chosen, movable, inv_dt, n - 1);
        let c = chosen[n - 1];
        let held = movable[joints[c].a as int] || movable[joints[c].b as int];
        let rows = joint_rows_spec(joints[c], held, inv_dt);
        let here = rows_of(c, rows);
        assert(events == before + here);
        lemma_rows(joints[c], inv_dt);
        assert forall|k: int, row: JointRow| #[trigger] events.contains((k, row)) <==> {
            &&& exists|x: int| 0 <= x < n && #[trigger] chosen[x] == k
            &&& movable[joints[k].a as int] || movable[joints[k].b as int]
            &&& asks_for(joints[k], row, inv_dt)
        } by {
            if events.contains((k, row)) {
                let y = choose|y: int| 0 <= y < events.len() && events[y] == (k, row);
                if y < before.len() {
                    assert(before[y] == (k, row));
                    assert(before.contains((k, row)));
                    let x = choose|x: int| 0 <= x < n - 1 && #[trigger] chosen[x] == k;
                    assert(chosen[x] == k);
                } else {
                    assert(here[y - before.len()] == (k, row));
                    assert(rows[y - before.len()] == row);
                    assert(rows.contains(row));
                    assert(chosen[n - 1] == k);
                }
            }
            if (exists|x: int| 0 <= x < n && #[trigger] chosen[x] == k) && (
            movable[joints[k].a as int] || movable[joints[k].b as int]) && asks_for(
                joints[k],
                row,
                inv_dt,
            ) {
                let x = choose|x: int| 0 <= x < n && #[trigger] chosen[x] == k;
                if x < n - 1 {
                    assert(before.contains((k, row)));
                    let y = choose|y: int| 0 <= y < before.len() && before[y] == (k, row);
                    assert(events[y] == (k, row));
                } else {
                    assert(rows.contains(row));
                    let y = choose|y: int| 0 <= y < rows.len() && rows[y] == row;
                    assert(here[y] == (k, row));
                    assert(events[before.len() + y] == (k, row));
                }
            }
        }
        assert forall|x: int, y: int|
            #![trigger events[x], events[y]]
            0 <= x < y < events.len() implies events[x].0 < events[y].0 || (events[x].0
            == events[y].0 && turn(events[x].1) < turn(events[y].1)) by {
            if y < before.len() {
                assert(events[x] == before[x] && events[y] == before[y]);
            } else {
                let v = y - before.len();
                assert(events[y] == here[v]);
                assert(here[v] == (c, rows[v]));
                if x < before.len() {
                    assert(events[x] == before[x]);
                    assert(before[x] == (before[x].0, before[x].1));
                    assert(before.contains((before[x].0, before[x].1)));
                    let w = choose|w: int| 0 <= w < n - 1 && #[trigger] chosen[w] == before[x].0;
                    assert(chosen[w] < chosen[n - 1]);
                } else {
                    let u = x - before.len();
                    assert(events[x] == here[u]);
                    assert(here[u] == (c, rows[u]));
                    assert(turn(rows[u]) < turn(rows[v]));
                }
            }
        }
    }
}

proof fn lemma_sized<R: Fn(JointRow, Joint, JointSide, JointSide) -> Option<RowStep>>(
    row: R,
    joints: Seq<Joint>,
    events: Seq<(int, JointRow)>,
    states: Seq<JointState>,
    n: nat,
    k: int,
)
    requires
        row_trace(row, joints, events, states),
        states[0].lin.len() == n,
        states[0].ang.len() == n,
        joints_in(joints, n as int),
        forall|e: int| 0 <= e < events.len() ==> 0 <= (#[trigger] events[e]).0 < joints.len(),
        0 <= k <= events.len(),
    ensures
        states[k].lin.len() == n,
        states[k].ang.len() == n,
    decreases k,
{
    if k > 0 {
        lemma_sized(row, joints, events, states, n, k - 1);
        assert(row_event(row, joints, states[k - 1], events[k - 1], states[k - 1 + 1]));
        assert(joints[events[k - 1].0].a < n);
    }
}

proof fn lemma_block<R: Fn(JointRow, Joint, JointSide, JointSide) -> Option<RowStep>>(
    row: R,
    joints: Seq<Joint>,
    events: Seq<(int, JointRow)>,
    states: Seq<JointState>,
    n: nat,
    e: int,
)
    requires
        row_trace(row, joints, events, states),
        states[0].lin.len() == n,
        states[0].ang.len() == n,
        joints_in(joints, n as int),
        forall|e: int| 0 <= e < events.len() ==> 0 <= (#[trigger] events[e]).0 < joints.len(),
        0 <= e < events.len(),
    ensures
        exists|r: Option<RowStep>| #[trigger]
            block_solved(
                row,
                joints[events[e].0],
                events[e].1,
                states[e],
                states[e + 1],
                r,
            ),
{
    lemma_sized(row, joints, events, states, n, e);
    assert(row_event(row, joints, states[e], events[e], states[e + 1]));
    let j = joints[events[e].0];
    assert(0 <= events[e].0 < joints.len());
    assert(j.a < n && j.b < n);
    let st = states[e];
    let next = states[e + 1];
    let r = choose|r: Option<RowStep>| #[trigger]
        row.ensures((events[e].1, j, joint_side(st, j.a), joint_side(st, j.b)), r) && next == match r {
            Some(s) => JointState {
                lin: st.lin.update(j.a as int, s.a.lin).update(j.b as int, s.b.lin),
                ang: st.ang.update(j.a as int, s.a.ang).update(j.b as int, s.b.ang),
                resid: st.resid.max_spec(s.dv),
            },
            None => st,
        };
    assert(block_solved(row, j, events[e].1, st, next, r));
}

/// The states inside sweep `q`.
spec fn inside<R: Fn(JointRow, Joint, JointSide, JointSide) -> Option<RowStep>>(
    row: R,
    joints: Seq<Joint>,
    events: Seq<(int, JointRow)>,
    st: JointState,
    next: JointState,
) -> Seq<JointState> {
    choose|states: Seq<JointState>| #[trigger]
        row_trace(row, joints, events, states) && states[0] == (JointState {
            resid: Scalar::zero_spec(),
            ..st
        }) && states.last() == next
}

proof fn lemma_sweep_sizes<R: Fn(JointRow, Joint, JointSide, JointSide) -> Option<RowStep>>(
    row: R,
    joints: Seq<Joint>,
    events: Seq<(int, JointRow)>,
    sweeps: int,
    states: Seq<JointState>,
    n: nat,
    k: int,
)
    requires
        joint_sweeps_run(row, joints, events, sweeps, states),
        states[0].lin.len() == n,
        states[0].ang.len() == n,
        joints_in(joints, n as int),
        forall|e: int| 0 <= e < events.len() ==> 0 <= (#[trigger] events[e]).0 < joints.len(),
        0 <= k < states.len(),
    ensures
        states[k].lin.len() == n,
        states[k].ang.len() == n,
    decreases k,
{
    if k > 0 {
        lemma_sweep_sizes(row, joints, events, sweeps, states, n, k - 1);
        assert(sweep_at(row, joints, events, states, k - 1));
        let inner = inside(row, joints, events, states[k - 1], states[k - 1 + 1]);
        assert(row_trace(row, joints, events, inner));
        lemma_sized(row, joints, events, inner, n, events.len() as int);
    }
}

/// Every sweep of a solve visits exactly the blocks that the acting joints with at least
/// one movable end ask for, so that each of them locks the freedoms of its kind, in
/// every sweep; each block is given the current speeds of the joint's two bodies, and
/// what comes back becomes their speeds. The sweeps run to the iteration count, at
/// least one, and end early only once they have settled.
pub proof fn every_sweep_solves_every_acting_joint<
    R: Fn(JointRow, Joint, JointSide, JointSide) -> Option<RowStep>,
>(
    joints: &JointSet,
    bodies: &mut BodySet,
    joint_iterations: u32,
    movable: &[bool],
    inv_dt: Scalar,
    row: &R,
)
    requires
        call_ensures(
            JointSet::solve::<R>,
            (joints, bodies, joint_iterations, movable, inv_dt, row),
            (),
        ),
        old(bodies).wf(),
        joints_in(joints.joints@, old(bodies).count() as int),
        joints.joints@.len() > 0,
    ensures
        exists|events: Seq<(int, JointRow)>, sweeps: Seq<Seq<JointState>>| #[trigger]
            sweeps_done(
                *row,
                joints.joints@,
                joint_iterations,
                old(bodies),
                final(bodies),
                events,
                sweeps,
            ) && blocks_listed(final(bodies), joints.joints@, movable@, inv_dt, events),
{
    let js = joints.joints@;
    let chosen = indices_where(acting(final(bodies), js), js.len());
    let events = row_events(js, chosen, movable@, inv_dt, chosen.len() as int);
    lemma_blocks(final(bodies), js, movable@, inv_dt);
    let most = crate::schedule::at_least_one(joint_iterations) as int;
    let states = choose|states: Seq<JointState>| #[trigger]
        joint_sweeps_run(*row, js, events, most, states) && states[0] == spinning(
            old(bodies).linvel@,
            old(bodies).angvel@,
            Scalar::zero_spec(),
        ) && states.last().lin == final(bodies).linvel@ && states.last().ang == final(bodies).angvel@;
    lemma_done(*row, js, joint_iterations, old(bodies), final(bodies), events, states);
    let sweeps = choose|sweeps: Seq<Seq<JointState>>| #[trigger]
        sweeps_done(*row, js, joint_iterations, old(bodies), final(bodies), events, sweeps);
    assert(sweeps_done(*row, js, joint_iterations, old(bodies), final(bodies), events, sweeps));
}

proof fn lemma_blocks(bodies: &BodySet, js: Seq<Joint>, movable: Seq<bool>, inv_dt: Scalar)
    ensures
        ({
            let chosen = indices_where(acting(bodies, js), js.len());
            let events = row_events(js, chosen, movable, inv_dt, chosen.len() as int);
            &&& blocks_listed(bodies, js, movable, inv_dt, events)
            &&& forall|e: int| 0 <= e < events.len() ==> 0 <= (#[trigger] events[e]).0 < js.len()
        }),
{
    let chosen = indices_where(acting(bodies, js), js.len());
    lemma_indices_where(acting(bodies, js), js.len());
    let events = row_events(js, chosen, movable, inv_dt, chosen.len() as int);
    lemma_listed(bodies, js, chosen, movable, inv_dt, chosen.len() as int);
    assert forall|k: int, block: JointRow| #[trigger] events.contains((k, block)) <==> {
        &&& 0 <= k < js.len()
        &&& acts(bodies, js[k])
        &&& movable[js[k].a as int] || movable[js[k].b as int]
        &&& asks_for(js[k], block, inv_dt)
    } by {
        if 0 <= k < js.len() && acts(bodies, js[k]) {
            assert(acting(bodies, js)(k));
            assert(chosen.contains(k));
            let x = choose|x: int| 0 <= x < chosen.len() && chosen[x] == k;
            assert(chosen[x] == k);
        }
    }
    assert forall|e: int| 0 <= e < events.len() implies 0 <= (#[trigger] events[e]).0 < js.len() by {
        assert(events[e] == (events[e].0, events[e].1));
        assert(events.contains((events[e].0, events[e].1)));
    }
}

proof fn lemma_sweep<R: Fn(JointRow, Joint, JointSide, JointSide) -> Option<RowStep>>(
    row: R,
    joints: Seq<Joint>,
    events: Seq<(int, JointRow)>,
    states: Seq<JointState>,
    n: nat,
)
    requires
        row_trace(row, joints, events, states),
        states[0].lin.len() == n,
        states[0].ang.len() == n,
        joints_in(joints, n as int),
        forall|e: int| 0 <= e < events.len() ==> 0 <= (#[trigger] events[e]).0 < joints.len(),
    ensures
        sweep_solved(row, joints, events, states),
{
    reveal(sweep_solved);
    assert forall|e: int|
        #![trigger events[e]]
        0 <= e < events.len() implies block_answered(
            row,
            joints[events[e].0],
            events[e].1,
            states[e],
            states[e + 1],
        ) by {
        lemma_block(row, joints, events, states, n, e);
    }
}

proof fn lemma_done<R: Fn(JointRow, Joint, JointSide, JointSide) -> Option<RowStep>>(
    row: R,
    js: Seq<Joint>,
    iterations: u32,
    before: &BodySet,
    after: &BodySet,
    events: Seq<(int, JointRow)>,
    states: Seq<JointState>,
)
    requires
        before.wf(),
        joints_in(js, before.count() as int),
        forall|e: int| 0 <= e < events.len() ==> 0 <= (#[trigger] events[e]).0 < js.len(),
        joint_sweeps_run(
            row,
            js,
            events,
            crate::schedule::at_least_one(iterations) as int,
            states,
        ),
        states[0] == spinning(before.linvel@, before.angvel@, Scalar::zero_spec()),
        states.last().lin == after.linvel@,
        states.last().ang == after.angvel@,
    ensures
        exists|sweeps: Seq<Seq<JointState>>| #[trigger]
            sweeps_done(row, js, iterations, before, after, events, sweeps),
{
    let most = crate::schedule::at_least_one(iterations) as int;
    let n = before.count();
    let sweeps = Seq::new(
        (states.len() - 1) as nat,
        |q: int| inside(row, js, events, states[q], states[q + 1]),
    );
    assert forall|q: int| 0 <= q < sweeps.len() implies {
        &&& row_trace(row, js, events, #[trigger] sweeps[q])
        &&& sweeps[q][0] == (JointState { resid: Scalar::zero_spec(), ..states[q] })
        &&& sweeps[q].last() == states[q + 1]
        &&& states[q].lin.len() == n
        &&& states[q].ang.len() == n
    } by {
        assert(sweep_at(row, js, events, states, q));
        lemma_sweep_sizes(row, js, events, most, states, n, q);
    }
    assert forall|q: int|
        #![trigger sweeps[q]]
        0 <= q < sweeps.len() implies {
        &&& sweeps[q].len() == events.len() + 1
        &&& sweeps[q][0].resid.bits == 0
        &&& q + 1 < sweeps.len() ==> sweeps[q + 1][0].lin == sweeps[q].last().lin
        &&& q + 1 < sweeps.len() ==> sweeps[q + 1][0].ang == sweeps[q].last().ang
        &&& q + 1 < sweeps.len() ==> q < 3 || !sweeps[q].last().resid.lt_spec(
            Scalar { bits: 0x3b03_126f },
        )
        &&& sweep_solved(row, js, events, sweeps[q])
    } by {
        assert(sweep_at(row, js, events, states, q));
        assert(row_trace(row, js, events, sweeps[q]));
        if q + 1 < sweeps.len() {
            assert(sweeps[q + 1][0] == (JointState { resid: Scalar::zero_spec(), ..states[q + 1] }));
        }
        lemma_sweep(row, js, events, sweeps[q], n);
    }
    assert(sweeps[0][0] == (JointState { resid: Scalar::zero_spec(), ..states[0] }));
    assert(sweeps[sweeps.len() - 1].last() == states[sweeps.len() - 1 + 1]);
    assert(sweeps_done(row, js, iterations, before, after, events, sweeps));
}

/// A joint with an end that is dynamic and awake wakes its other end if that is
/// dynamic; nobody falls asleep, a body that no joint holds and one that is not
/// dynamic are left alone, and whoever wakes starts the rest over.
pub proof fn acting_joints_wake_their_ends(joints: &JointSet, bodies: &mut BodySet, k: int, i: int)
    requires
        call_ensures(JointSet::wake, (joints, bodies), ()),
        old(bodies).wf(),
        joints_in(joints.joints@, old(bodies).count() as int),
        0 <= k < joints.joints@.len(),
        0 <= i < old(bodies).count(),
    ensures
        acts(old(bodies), joints.joints@[k]) && (i == joints.joints@[k].a || i
            == joints.joints@[k].b) && old(bodies).dynamic@[i] ==> final(bodies).awake@[i],
        old(bodies).awake@[i] ==> final(bodies).awake@[i],
        !old(bodies).dynamic@[i] ==> final(bodies).awake@[i] == old(bodies).awake@[i],
        (forall|q: int|
            0 <= q < joints.joints@.len() ==> (#[trigger] joints.joints@[q]).a != i
                && joints.joints@[q].b != i) ==> final(bodies).awake@[i] == old(bodies).awake@[i],
        (forall|q: int|
            0 <= q < joints.joints@.len() ==> !acts(old(bodies), #[trigger] joints.joints@[q]))
            ==> final(bodies).awake@[i] == old(bodies).awake@[i],
        final(bodies).sleep_timer@[i] == if final(bodies).awake@[i] && !old(bodies).awake@[i] {
            Scalar { bits: 0 }
        } else {
            old(bodies).sleep_timer@[i]
        },
        final(bodies).linvel@ == old(bodies).linvel@,
        final(bodies).angvel@ == old(bodies).angvel@,
{
    let js = joints.joints@;
    let n = js.len() as int;
    let d = old(bodies).dynamic@;
    let w = old(bodies).awake@;
    joints_only_wake(d, w, js, n, i);
    assert(js[k].a < w.len() && js[k].b < w.len());
    joints_only_wake(d, w, js, k, js[k].a as int);
    joints_only_wake(d, w, js, k, js[k].b as int);
    if acts(old(bodies), js[k]) {
        acting_joint_wakes_both(d, w, js, k);
    }
    if forall|q: int| 0 <= q < js.len() ==> (#[trigger] js[q]).a != i && js[q].b != i {
        lemma_unheld(d, w, js, n, i);
    }
    if forall|q: int| 0 <= q < js.len() ==> !acts(old(bodies), #[trigger] js[q]) {
        lemma_idle(d, w, js, n);
    }
    assert(final(bodies).sleep_timer@[i] == final(bodies).sleep_timer@[i]);
}

proof fn lemma_unheld(dynamic: Seq<bool>, awake: Seq<bool>, joints: Seq<Joint>, k: int, i: int)
    requires
        dynamic.len() == awake.len(),
        joints_in(joints, awake.len() as int),
        0 <= k <= joints.len(),
        0 <= i < awake.len(),
        forall|q: int| 0 <= q < joints.len() ==> (#[trigger] joints[q]).a != i && joints[q].b != i,
    ensures
        woken(dynamic, awake, joints, k)[i] == awake[i],
    decreases k,
{
    if k > 0 {
        lemma_unheld(dynamic, awake, joints, k - 1, i);
        joints_only_wake(dynamic, awake, joints, k - 1, i);
        assert(joints[k - 1].a < awake.len() && joints[k - 1].b < awake.len());
    }
}

proof fn lemma_idle(dynamic: Seq<bool>, awake: Seq<bool>, joints: Seq<Joint>, k: int)
    requires
        0 <= k <= joints.len(),
        forall|q: int|
            0 <= q < joints.len() ==> {
                let j = #[trigger] joints[q];
                &&& !(dynamic[j.a as int] && awake[j.a as int])
                &&& !(dynamic[j.b as int] && awake[j.b as int])
            },
    ensures
        woken(dynamic, awake, joints, k) == awake,
    decreases k,
{
    if k > 0 {
        lemma_idle(dynamic, awake, joints, k - 1);
        assert(joints[k - 1] == joints[k - 1]);
    }
}

/// A limit pushes back into the range only: below it never downwards and with all that
/// is wanted upwards, above it the other way, and inside not at all.
pub proof fn limits_push_back(
    value: Scalar,
    lower: Scalar,
    upper: Scalar,
    wanted: Scalar,
    side: LimitSide,
    r: Scalar,
)
    requires
        call_ensures(limit_side, (value, lower, upper), side),
        call_ensures(limit_impulse, (side, wanted), r),
        !wanted.is_nan_spec(),
    ensures
        value.lt_spec(lower) ==> (if positive(wanted) {
            r == wanted
        } else {
            r.magnitude() == 0
        }),
        !value.lt_spec(lower) && upper.lt_spec(value) ==> (if positive(wanted) {
            r.bits == 0
        } else {
            r == wanted || r.magnitude() == 0
        }),
        !value.lt_spec(lower) && upper.lt_spec(value) && 0x8000_0000 < wanted.bits ==> r == wanted,
        !value.lt_spec(lower) && !upper.lt_spec(value) ==> r.bits == 0,
{
}

} // verus!
