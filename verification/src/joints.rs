//! Joints between bodies: which of them act, and which rows each one solves.

use crate::body::BodySet;
use crate::scalar::{Scalar, Vec3};
use crate::schedule::{
    at_least_one, early_exit_eps, early_min_iters, may_stop,
};
use crate::select::{indices_where, ints_usize};
use vstd::prelude::*;

verus! {

/// What a joint leaves free.
#[derive(Clone, Copy, Debug, PartialEq, Eq, Structural)]
pub enum JointKind {
    /// The anchors meet; rotation is free.
    Spherical,
    /// The anchors meet; rotation is free about the axis only.
    Revolute,
    /// The anchors meet; no rotation.
    Fixed,
    /// Only sliding along the axis is free.
    Prismatic,
    /// The anchors keep their distance.
    Distance,
}

/// A joint. Anchors and axes are in the frames of the bodies.
#[derive(Clone, Copy, Debug, PartialEq, Eq, Structural)]
pub struct Joint {
    pub kind: JointKind,
    pub a: u32,
    pub b: u32,
    pub anchor_a: Vec3,
    pub anchor_b: Vec3,
    pub axis_a: Vec3,
    pub axis_b: Vec3,
    /// Length kept by a distance joint.
    pub rest: Scalar,
    /// Speed that the motor drives towards.
    pub motor_target: Scalar,
    /// Force the motor may use; none unless positive.
    pub motor_max_force: Scalar,
    /// Range of the free motion; no limit unless `limit_lower` is smaller.
    pub limit_lower: Scalar,
    pub limit_upper: Scalar,
}

/// The value one.
pub open spec fn one_spec() -> Scalar {
    Scalar { bits: 0x3f80_0000 }
}

/// The unit vector along the first axis.
pub open spec fn x_axis_spec() -> Vec3 {
    Vec3 { x: one_spec(), y: Scalar::zero_spec(), z: Scalar::zero_spec() }
}

impl Joint {
    /// A joint about the first axis, without rest length, motor or limits.
    pub fn new(kind: JointKind, a: u32, b: u32, anchor_a: Vec3, anchor_b: Vec3) -> (r: Joint)
        ensures
            r == (Joint {
                kind,
                a,
                b,
                anchor_a,
                anchor_b,
                axis_a: x_axis_spec(),
                axis_b: x_axis_spec(),
                rest: Scalar::zero_spec(),
                motor_target: Scalar::zero_spec(),
                motor_max_force: Scalar::zero_spec(),
                limit_lower: one_spec(),
                limit_upper: one_spec().neg_spec(),
            }),
            !r.has_motor_spec(),
            !r.has_limit_spec(),
    {
        let one = Scalar { bits: 0x3f80_0000 };
        let axis = Vec3 { x: one, y: Scalar::zero(), z: Scalar::zero() };
        Joint {
            kind,
            a,
            b,
            anchor_a,
            anchor_b,
            axis_a: axis,
            axis_b: axis,
            rest: Scalar::zero(),
            motor_target: Scalar::zero(),
            motor_max_force: Scalar::zero(),
            limit_lower: one,
            limit_upper: one.neg(),
        }
    }

    /// Limits the free motion.
    pub fn with_limits(self, lower: Scalar, upper: Scalar) -> (r: Joint)
        ensures
            r == (Joint { limit_lower: lower, limit_upper: upper, ..self }),
    {
        let mut r = self;
        r.limit_lower = lower;
        r.limit_upper = upper;
        r
    }

    /// Adds a motor.
    pub fn with_motor(self, target_velocity: Scalar, max_force: Scalar) -> (r: Joint)
        ensures
            r == (Joint { motor_target: target_velocity, motor_max_force: max_force, ..self }),
    {
        let mut r = self;
        r.motor_target = target_velocity;
        r.motor_max_force = max_force;
        r
    }

    /// Sets the axis in both bodies.
    pub fn with_axis(self, axis: Vec3) -> (r: Joint)
        ensures
            r == (Joint { axis_a: axis, axis_b: axis, ..self }),
    {
        let mut r = self;
        r.axis_a = axis;
        r.axis_b = axis;
        r
    }

    /// Sets the rest length.
    pub fn with_rest(self, rest: Scalar) -> (r: Joint)
        ensures
            r == (Joint { rest, ..self }),
    {
        let mut r = self;
        r.rest = rest;
        r
    }

    /// The motor is switched on.
    pub open spec fn has_motor_spec(self) -> bool {
        Scalar::zero_spec().lt_spec(self.motor_max_force) && self.motor_max_force.is_finite_spec()
    }

    /// The free motion is limited.
    pub open spec fn has_limit_spec(self) -> bool {
        self.limit_lower.lt_spec(self.limit_upper)
    }
}

/// One block of rows of a joint.
#[derive(Clone, Copy, Debug, PartialEq, Eq, Structural)]
pub enum JointRow {
    /// Keep the distance of the anchors.
    Length,
    /// Keep the anchors together across the axis.
    PointAcross,
    /// Keep the anchors together.
    Point,
    /// No relative rotation.
    Rotation,
    /// No relative rotation across the axis.
    RotationAcross,
    /// Drive the rotation about the axis.
    RotationMotor,
    /// Drive the sliding along the axis.
    SlideMotor,
    /// Keep the rotation about the axis in range.
    RotationLimit,
    /// Keep the sliding along the axis in range.
    SlideLimit,
}

/// How many degrees of freedom a block always takes.
pub open spec fn locked_by(row: JointRow) -> int {
    match row {
        JointRow::Length => 1,
        JointRow::PointAcross => 2,
        JointRow::Point => 3,
        JointRow::Rotation => 3,
        JointRow::RotationAcross => 2,
        _ => 0,
    }
}

/// How many degrees of freedom the blocks always take.
pub open spec fn locked(rows: Seq<JointRow>) -> int
    decreases rows.len(),
{
    if rows.len() == 0 {
        0
    } else {
        locked(rows.drop_last()) + locked_by(rows.last())
    }
}

/// The linear block.
pub open spec fn linear_rows(kind: JointKind) -> Seq<JointRow> {
    match kind {
        JointKind::Distance => seq![JointRow::Length],
        JointKind::Prismatic => seq![JointRow::PointAcross],
        _ => seq![JointRow::Point],
    }
}

/// The angular block.
pub open spec fn angular_rows(kind: JointKind) -> Seq<JointRow> {
    match kind {
        JointKind::Fixed | JointKind::Prismatic => seq![JointRow::Rotation],
        JointKind::Revolute => seq![JointRow::RotationAcross],
        _ => seq![],
    }
}

/// The motor block.
pub open spec fn motor_rows(joint: Joint, inv_dt: Scalar) -> Seq<JointRow> {
    if joint.has_motor_spec() && Scalar::zero_spec().lt_spec(inv_dt) {
        match joint.kind {
            JointKind::Revolute => seq![JointRow::RotationMotor],
            JointKind::Prismatic => seq![JointRow::SlideMotor],
            _ => seq![],
        }
    } else {
        seq![]
    }
}

/// The limit block.
pub open spec fn limit_rows(joint: Joint) -> Seq<JointRow> {
    if joint.has_limit_spec() {
        match joint.kind {
            JointKind::Revolute => seq![JointRow::RotationLimit],
            JointKind::Prismatic => seq![JointRow::SlideLimit],
            _ => seq![],
        }
    } else {
        seq![]
    }
}

/// The blocks of a joint in the order they are solved: what is always locked,
/// the motor, and last the limits, which overrule the motor. A joint between two
/// immovable bodies has none.
pub open spec fn joint_rows_spec(joint: Joint, movable: bool, inv_dt: Scalar) -> Seq<JointRow> {
    if movable {
        linear_rows(joint.kind) + angular_rows(joint.kind) + motor_rows(joint, inv_dt) + limit_rows(
            joint,
        )
    } else {
        Seq::empty()
    }
}

/// The blocks of a joint in the order they are solved. `movable` tells whether
/// one of the bodies can move at all.
pub fn joint_rows(joint: &Joint, movable: bool, inv_dt: Scalar) -> (rows: Vec<JointRow>)
    ensures
        rows@ == joint_rows_spec(*joint, movable, inv_dt),
{
    let mut rows: Vec<JointRow> = Vec::new();
    if !movable {
        assert(rows@ =~= Seq::<JointRow>::empty());
        return rows;
    }
    match joint.kind {
        JointKind::Distance => {
            rows.push(JointRow::Length);
        },
        JointKind::Prismatic => {
            rows.push(JointRow::PointAcross);
        },
        _ => {
            rows.push(JointRow::Point);
        },
    }
    assert(rows@ =~= linear_rows(joint.kind));
    match joint.kind {
        JointKind::Fixed | JointKind::Prismatic => {
            rows.push(JointRow::Rotation);
        },
        JointKind::Revolute => {
            rows.push(JointRow::RotationAcross);
        },
        _ => {},
    }
    assert(rows@ =~= linear_rows(joint.kind) + angular_rows(joint.kind));
    if Scalar::zero().lt(joint.motor_max_force) && joint.motor_max_force.is_finite()
        && Scalar::zero().lt(inv_dt) {
        match joint.kind {
            JointKind::Revolute => {
                rows.push(JointRow::RotationMotor);
            },
            JointKind::Prismatic => {
                rows.push(JointRow::SlideMotor);
            },
            _ => {},
        }
    }
    assert(rows@ =~= linear_rows(joint.kind) + angular_rows(joint.kind) + motor_rows(
        *joint,
        inv_dt,
    ));
    if joint.limit_lower.lt(joint.limit_upper) {
        match joint.kind {
            JointKind::Revolute => {
                rows.push(JointRow::RotationLimit);
            },
            JointKind::Prismatic => {
                rows.push(JointRow::SlideLimit);
            },
            _ => {},
        }
    }
    assert(rows@ =~= joint_rows_spec(*joint, movable, inv_dt));
    rows
}

/// Each kind of joint locks the degrees of freedom it is named for, whatever its
/// motor and limits.
pub proof fn joint_kinds_lock_their_freedoms(joint: Joint, inv_dt: Scalar)
    ensures
        locked(joint_rows_spec(joint, true, inv_dt)) == match joint.kind {
            JointKind::Spherical => 3int,
            JointKind::Revolute => 5,
            JointKind::Fixed => 6,
            JointKind::Prismatic => 5,
            JointKind::Distance => 1,
        },
{
    let l = linear_rows(joint.kind);
    let a = angular_rows(joint.kind);
    let m = motor_rows(joint, inv_dt);
    let n = limit_rows(joint);
    reveal_with_fuel(locked, 2);
    lemma_locked_append(l, a);
    lemma_locked_append(l + a, m);
    lemma_locked_append(l + a + m, n);
}

proof fn lemma_locked_append(x: Seq<JointRow>, y: Seq<JointRow>)
    ensures
        locked(x + y) == locked(x) + locked(y),
    decreases y.len(),
{
    if y.len() == 0 {
        assert(x + y =~= x);
    } else {
        lemma_locked_append(x, y.drop_last());
        assert((x + y).drop_last() =~= x + y.drop_last());
        assert((x + y).last() == y.last());
    }
}

/// A limit is solved after a motor of the same joint.
pub proof fn limits_overrule_motors(joint: Joint, inv_dt: Scalar, i: int, j: int)
    requires
        0 <= i < joint_rows_spec(joint, true, inv_dt).len(),
        0 <= j < joint_rows_spec(joint, true, inv_dt).len(),
        joint_rows_spec(joint, true, inv_dt)[i] == JointRow::RotationMotor || joint_rows_spec(
            joint,
            true,
            inv_dt,
        )[i] == JointRow::SlideMotor,
        joint_rows_spec(joint, true, inv_dt)[j] == JointRow::RotationLimit || joint_rows_spec(
            joint,
            true,
            inv_dt,
        )[j] == JointRow::SlideLimit,
    ensures
        i < j,
{
    let l = linear_rows(joint.kind);
    let a = angular_rows(joint.kind);
    let m = motor_rows(joint, inv_dt);
    let n = limit_rows(joint);
    let all = joint_rows_spec(joint, true, inv_dt);
    assert(all == l + a + m + n);
    if i >= (l + a + m).len() {
        assert(all[i] == n[i - (l + a + m).len()]);
    }
    if j < (l + a + m).len() {
        assert(all[j] == (l + a + m)[j]);
        if j < (l + a).len() {
            assert((l + a + m)[j] == (l + a)[j]);
        } else {
            assert((l + a + m)[j] == m[j - (l + a).len()]);
        }
    }
}

/// On which side of its range a limited motion is.
#[derive(Clone, Copy, Debug, PartialEq, Eq, Structural)]
pub enum LimitSide {
    Below,
    Inside,
    Above,
}

/// On which side of the range the value is.
pub fn limit_side(value: Scalar, lower: Scalar, upper: Scalar) -> (r: LimitSide)
    ensures
        r == if value.lt_spec(lower) {
            LimitSide::Below
        } else if upper.lt_spec(value) {
            LimitSide::Above
        } else {
            LimitSide::Inside
        },
{
    if value.lt(lower) {
        LimitSide::Below
    } else if upper.lt(value) {
        LimitSide::Above
    } else {
        LimitSide::Inside
    }
}

/// A limit only pushes back into the range: from below upwards, from above
/// downwards, and inside not at all.
pub fn limit_impulse(side: LimitSide, wanted: Scalar) -> (r: Scalar)
    ensures
        r == match side {
            LimitSide::Below => wanted.max_spec(Scalar::zero_spec()),
            LimitSide::Above => wanted.min_spec(Scalar::zero_spec()),
            LimitSide::Inside => Scalar::zero_spec(),
        },
        side == LimitSide::Below ==> !r.lt_spec(Scalar::zero_spec()),
        side == LimitSide::Above ==> !Scalar::zero_spec().lt_spec(r),
{
    match side {
        LimitSide::Below => wanted.max(Scalar::zero()),
        LimitSide::Above => wanted.min(Scalar::zero()),
        LimitSide::Inside => Scalar::zero(),
    }
}

/// Whether a joint acts: one of its bodies is dynamic and awake.
pub open spec fn joint_active_spec(dynamic: Seq<bool>, awake: Seq<bool>, j: Joint) -> bool {
    (dynamic[j.a as int] && awake[j.a as int]) || (dynamic[j.b as int] && awake[j.b as int])
}

/// Whether a joint between bodies `a` and `b` acts.
pub fn joint_active(bodies: &BodySet, a: usize, b: usize) -> (r: bool)
    requires
        bodies.wf(),
        a < bodies.count(),
        b < bodies.count(),
    ensures
        r == (bodies.active(a as int) || bodies.active(b as int)),
{
    (bodies.dynamic[a] && bodies.awake[a]) || (bodies.dynamic[b] && bodies.awake[b])
}

/// Every joint names two bodies below `n`.
pub open spec fn joints_in(joints: Seq<Joint>, n: int) -> bool {
    forall|k: int| 0 <= k < joints.len() ==> (#[trigger] joints[k]).a < n && joints[k].b < n
}

/// The dynamic ones among bodies `a` and `b` are awake, the others unchanged.
pub open spec fn pair_woken(dynamic: Seq<bool>, awake: Seq<bool>, a: int, b: int) -> Seq<bool> {
    let first = if dynamic[a] {
        awake.update(a, true)
    } else {
        awake
    };
    if dynamic[b] {
        first.update(b, true)
    } else {
        first
    }
}

/// Who is awake after the first `k` joints, taken in order, have woken their
/// bodies.
pub open spec fn woken(dynamic: Seq<bool>, awake: Seq<bool>, joints: Seq<Joint>, k: int) -> Seq<
    bool,
>
    decreases k,
{
    if k <= 0 {
        awake
    } else {
        let before = woken(dynamic, awake, joints, k - 1);
        if joint_active_spec(dynamic, before, joints[k - 1]) {
            pair_woken(dynamic, before, joints[k - 1].a as int, joints[k - 1].b as int)
        } else {
            before
        }
    }
}

/// Nobody is put to sleep by a joint, and static bodies are left alone.
pub proof fn joints_only_wake(
    dynamic: Seq<bool>,
    awake: Seq<bool>,
    joints: Seq<Joint>,
    k: int,
    i: int,
)
    requires
        dynamic.len() == awake.len(),
        joints_in(joints, awake.len() as int),
        0 <= k <= joints.len(),
        0 <= i < awake.len(),
    ensures
        woken(dynamic, awake, joints, k).len() == awake.len(),
        awake[i] ==> woken(dynamic, awake, joints, k)[i],
        !dynamic[i] ==> woken(dynamic, awake, joints, k)[i] == awake[i],
    decreases k,
{
    if k > 0 {
        joints_only_wake(dynamic, awake, joints, k - 1, i);
        assert(joints[k - 1].a < awake.len());
    }
}

/// The dynamic bodies of an acting joint are awake after its turn.
pub proof fn acting_joint_wakes_both(
    dynamic: Seq<bool>,
    awake: Seq<bool>,
    joints: Seq<Joint>,
    k: int,
)
    requires
        dynamic.len() == awake.len(),
        joints_in(joints, awake.len() as int),
        0 <= k < joints.len(),
        joint_active_spec(dynamic, woken(dynamic, awake, joints, k), joints[k]),
    ensures
        dynamic[joints[k].a as int] ==> woken(
            dynamic,
            awake,
            joints,
            joints.len() as int,
        )[joints[k].a as int],
        dynamic[joints[k].b as int] ==> woken(
            dynamic,
            awake,
            joints,
            joints.len() as int,
        )[joints[k].b as int],
{
    assert(joints[k].a < awake.len() && joints[k].b < awake.len());
    joints_only_wake(dynamic, awake, joints, k, 0);
    let n = joints.len() as int;
    if dynamic[joints[k].a as int] {
        lemma_stays_woken(dynamic, awake, joints, k + 1, n, joints[k].a as int);
    }
    if dynamic[joints[k].b as int] {
        lemma_stays_woken(dynamic, awake, joints, k + 1, n, joints[k].b as int);
    }
}

proof fn lemma_stays_woken(
    dynamic: Seq<bool>,
    awake: Seq<bool>,
    joints: Seq<Joint>,
    j: int,
    k: int,
    i: int,
)
    requires
        dynamic.len() == awake.len(),
        joints_in(joints, awake.len() as int),
        0 <= j <= k <= joints.len(),
        0 <= i < awake.len(),
        woken(dynamic, awake, joints, j)[i],
    ensures
        woken(dynamic, awake, joints, k)[i],
    decreases k - j,
{
    if j < k {
        lemma_stays_woken(dynamic, awake, joints, j, k - 1, i);
        joints_only_wake(dynamic, awake, joints, k - 1, i);
        assert(joints[k - 1].a < awake.len());
    }
}

/// The joints of a scene.
pub struct JointSet {
    pub joints: Vec<Joint>,
}

/// The acting joints.
pub open spec fn acting(bodies: &BodySet, joints: Seq<Joint>) -> spec_fn(int) -> bool {
    |k: int| joint_active_spec(bodies.dynamic@, bodies.awake@, joints[k])
}

impl JointSet {
    /// No joints.
    pub fn new() -> (r: JointSet)
        ensures
            r.joints@.len() == 0,
    {
        JointSet { joints: Vec::new() }
    }

    /// Adds a joint and returns its number.
    pub fn add(&mut self, j: Joint) -> (id: u32)
        requires
            old(self).joints@.len() < u32::MAX,
        ensures
            final(self).joints@ == old(self).joints@.push(j),
            id == old(self).joints@.len(),
    {
        self.joints.push(j);
        (self.joints.len() - 1) as u32
    }

    /// Removes all joints.
    pub fn clear(&mut self)
        ensures
            final(self).joints@ == Seq::<Joint>::empty(),
    {
        self.joints.clear();
        assert(self.joints@ =~= Seq::<Joint>::empty());
    }

    /// How many joints there are.
    pub fn len(&self) -> (n: usize)
        ensures
            n == self.joints@.len(),
    {
        self.joints.len()
    }

    /// Whether there is no joint.
    pub fn is_empty(&self) -> (r: bool)
        ensures
            r == (self.joints@.len() == 0),
    {
        self.joints.len() == 0
    }

    /// Wakes the bodies of acting joints, joint after joint. A woken body starts
    /// its rest over; nothing else changes. A static end never makes a joint
    /// act, so what hangs from one can fall asleep.
    pub fn wake(&self, bodies: &mut BodySet)
        requires
            old(bodies).wf(),
            joints_in(self.joints@, old(bodies).count() as int),
        ensures
            final(bodies).wf(),
            final(bodies).awake@ == woken(
                old(bodies).dynamic@,
                old(bodies).awake@,
                self.joints@,
                self.joints@.len() as int,
            ),
            forall|i: int|
                0 <= i < old(bodies).count() ==> #[trigger] final(bodies).sleep_timer@[i] == if old(
                    bodies).awake@[i] == final(bodies).awake@[i] {
                    old(bodies).sleep_timer@[i]
                } else {
                    Scalar::zero_spec()
                },
            final(bodies).dynamic == old(bodies).dynamic,
            final(bodies).position == old(bodies).position,
            final(bodies).rotation == old(bodies).rotation,
            final(bodies).linvel == old(bodies).linvel,
            final(bodies).angvel == old(bodies).angvel,
    {
        let ghost n = bodies.count();
        let mut k: usize = 0;
        while k < self.joints.len()
            invariant
                k <= self.joints@.len(),
                bodies.wf(),
                n == bodies.count(),
                n == old(bodies).count(),
                joints_in(self.joints@, n as int),
                bodies.awake@ == woken(
                    old(bodies).dynamic@,
                    old(bodies).awake@,
                    self.joints@,
                    k as int,
                ),
                forall|i: int|
                    0 <= i < n ==> #[trigger] bodies.sleep_timer@[i] == if old(bodies).awake@[i]
                        == bodies.awake@[i] {
                        old(bodies).sleep_timer@[i]
                    } else {
                        Scalar::zero_spec()
                    },
                forall|i: int|
                    0 <= i < n && #[trigger] old(bodies).awake@[i] ==> bodies.awake@[i],
                bodies.dynamic == old(bodies).dynamic,
                bodies.position == old(bodies).position,
                bodies.rotation == old(bodies).rotation,
                bodies.linvel == old(bodies).linvel,
                bodies.angvel == old(bodies).angvel,
            decreases self.joints@.len() - k,
        {
            let j = self.joints[k];
            assert(j.a < n && j.b < n);
            let a: usize = j.a as usize;
            let b: usize = j.b as usize;
            if joint_active(bodies, a, b) {
                wake_body(bodies, a);
                wake_body(bodies, b);
            }
            k += 1;
        }
    }

    /// The acting joints, in order.
    pub fn active_joints(&self, bodies: &BodySet) -> (r: Vec<usize>)
        requires
            bodies.wf(),
            joints_in(self.joints@, bodies.count() as int),
        ensures
            ints_usize(r@) == indices_where(acting(bodies, self.joints@), self.joints@.len()),
    {
        let mut r: Vec<usize> = Vec::new();
        let mut k: usize = 0;
        assert(ints_usize(r@) =~= Seq::<int>::empty());
        while k < self.joints.len()
            invariant
                k <= self.joints@.len(),
                bodies.wf(),
                joints_in(self.joints@, bodies.count() as int),
                ints_usize(r@) == indices_where(acting(bodies, self.joints@), k as nat),
            decreases self.joints@.len() - k,
        {
            let j = self.joints[k];
            assert(j.a < bodies.count() && j.b < bodies.count());
            let ghost before = r@;
            if joint_active(bodies, j.a as usize, j.b as usize) {
                r.push(k);
                assert(ints_usize(r@) =~= ints_usize(before).push(k as int));
            }
            k += 1;
        }
        r
    }
}

/// Wakes a dynamic body: if it slept it starts its rest over.
fn wake_body(bodies: &mut BodySet, i: usize)
    requires
        old(bodies).wf(),
        i < old(bodies).count(),
    ensures
        final(bodies).wf(),
        final(bodies).awake@ == if old(bodies).dynamic@[i as int] {
            old(bodies).awake@.update(i as int, true)
        } else {
            old(bodies).awake@
        },
        final(bodies).sleep_timer@ == if old(bodies).dynamic@[i as int] && !old(
            bodies).awake@[i as int] {
            old(bodies).sleep_timer@.update(i as int, Scalar::zero_spec())
        } else {
            old(bodies).sleep_timer@
        },
        final(bodies).dynamic == old(bodies).dynamic,
        final(bodies).position == old(bodies).position,
        final(bodies).rotation == old(bodies).rotation,
        final(bodies).linvel == old(bodies).linvel,
        final(bodies).angvel == old(bodies).angvel,
{
    if bodies.dynamic[i] {
        if !bodies.awake[i] {
            bodies.awake.set(i, true);
            bodies.sleep_timer.set(i, Scalar::zero());
        }
        assert(bodies.awake@ =~= old(bodies).awake@.update(i as int, true));
    }
}

/// How many sweeps the joints get at most.
pub fn joint_sweeps(joint_iterations: u32) -> (n: u32)
    ensures
        n == at_least_one(joint_iterations),
{
    if joint_iterations < 1 {
        1
    } else {
        joint_iterations
    }
}

/// Whether the joints may stop after the sweep numbered `it` (from zero).
pub fn joints_may_stop(it: u32, resid: Scalar) -> (r: bool)
    ensures
        r == may_stop(it as int, resid),
{
    it >= early_min_iters() - 1 && resid.lt(early_exit_eps())
}

} // verus!
