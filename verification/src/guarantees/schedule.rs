//! What the schedule of sweeps promises.

use crate::constraint::PointConstraint;
use crate::joints::{joint_sweeps, joints_may_stop};
use crate::schedule::{
    has_warm_impulse, needs_ccd, passes_over, step_count, visit, IterationConfig, PhaseParams, Sweep,
    SweepPlan,
};
use crate::scalar::Scalar;
use crate::warm::WarmPoint;
use vstd::prelude::*;

verus! {

/// One of the two zeros.
pub open spec fn nothing(x: Scalar) -> bool {
    x.bits == 0 || x.bits == 0x8000_0000
}

/// The main pass runs the velocity iterations, at least one, and the shock sweeps, and
/// corrects depths; the cleanup pass runs the stabilization iterations, at least one,
/// each point once, without shocks and without correcting depths.
pub proof fn passes_run_their_iterations(config: &IterationConfig, cleanup: bool, p: PhaseParams)
    requires
        call_ensures(PhaseParams::from_config, (config, cleanup), p),
    ensures
        p.iters >= 1,
        p.normal_inner >= 1,
        !cleanup && config.velocity_iterations >= 1 ==> p.iters == config.velocity_iterations,
        cleanup && config.stabilization_iterations >= 1 ==> p.iters
            == config.stabilization_iterations,
        !cleanup && config.velocity_iterations == 0 ==> p.iters == 1,
        cleanup && config.stabilization_iterations == 0 ==> p.iters == 1,
        !cleanup ==> p.shock == config.shock_iterations,
        cleanup ==> p.shock == 0 && p.normal_inner == 1,
        !cleanup && config.normal_inner >= 1 ==> p.normal_inner == config.normal_inner,
        !cleanup && config.normal_inner == 0 ==> p.normal_inner == 1,
        p.settled_hold == config.settled_hold_iterations,
        p.corrects_depth <==> !cleanup,
{
}

/// A plan starts with nothing done, all of its sweeps ahead.
pub proof fn plans_start_fresh(params: &PhaseParams, p: SweepPlan)
    requires
        call_ensures(SweepPlan::new, (params,), p),
    ensures
        p.relaxed == 0 && p.shocked == 0 && p.held == 0 && !p.settled,
        p.iters == params.iters,
        p.shock == params.shock,
        p.hold == params.settled_hold,
{
}

/// Sweeps come in their order: relaxing until the count is reached or the sweeps have
/// settled, forwards and backwards in turn and passing over idle points from the third
/// on; then the shock sweeps; then the holding ones; each counts once. Sweeps settle
/// only from the fourth on, with a correction below two thousandths.
pub proof fn plans_go_in_order(plan: &mut SweepPlan, resid: Scalar, next: Sweep)
    requires
        call_ensures(SweepPlan::next, (&*old(plan),), next),
        call_ensures(SweepPlan::advance, (plan, resid), ()),
        old(plan).wf(),
    ensures
        ({
            let (x, y) = (*old(plan), *final(plan));
            let relaxing = x.relaxed < x.iters && !x.settled;
            let shocking = !relaxing && x.shocked < x.shock;
            let holding = !relaxing && !shocking && x.held < x.hold;
            &&& y.iters == x.iters && y.shock == x.shock && y.hold == x.hold
            &&& next == Sweep::Done <==> !relaxing && !shocking && !holding
            &&& next == Sweep::Shock <==> shocking
            &&& next == Sweep::Hold <==> holding
            &&& relaxing ==> next == (Sweep::Relax {
                reverse: x.relaxed % 2 == 1,
                reduce: x.relaxed >= 2,
            })
            &&& y.relaxed == x.relaxed + if relaxing {
                1int
            } else {
                0
            }
            &&& y.shocked == x.shocked + if shocking {
                1int
            } else {
                0
            }
            &&& y.held == x.held + if holding {
                1int
            } else {
                0
            }
            &&& relaxing ==> (y.settled <==> x.relaxed >= 3 && resid.lt_spec(
                Scalar { bits: 0x3b03_126f },
            ))
            &&& !relaxing ==> y.settled == x.settled
        }),
{
}

/// A sweep visits the entries one after the other, first to last or last to first.
pub proof fn visits_go_through(n: usize, k: usize, i: usize, j: usize)
    requires
        call_ensures(visit, (n, k, false), i),
        call_ensures(visit, (n, k, true), j),
        k < n,
    ensures
        i == k,
        i + j == n - 1,
{
}

/// Once idle points may be passed over, exactly those are that are separated and have no
/// impulse; before, none is.
pub proof fn only_idle_separated_points_are_passed_over(
    reduce: bool,
    p: &PointConstraint,
    r: bool,
)
    requires
        call_ensures(passes_over, (reduce, p), r),
    ensures
        !reduce ==> !r,
        !nothing(p.pn) || !nothing(p.pt1) || !nothing(p.pt2) ==> !r,
        !p.terms.cfm.lt_spec(Scalar { bits: 0x3f80_0000 }) ==> !r,
        reduce && nothing(p.pn) && nothing(p.pt1) && nothing(p.pt2) && p.terms.cfm.lt_spec(
            Scalar { bits: 0x3f80_0000 },
        ) ==> r,
{
}

/// A start has an impulse if there is one and any of its three parts is not zero.
pub proof fn starts_with_an_impulse_are_applied(warm: &Option<WarmPoint>, r: bool)
    requires
        call_ensures(has_warm_impulse, (warm,), r),
    ensures
        *warm is None ==> !r,
        *warm is Some ==> (r <==> !nothing(warm.unwrap().pn) || !nothing(warm.unwrap().pt1)
            || !nothing(warm.unwrap().pt2)),
{
}

/// As many steps as are wanted, but at least one and no more than allowed.
pub proof fn steps_are_bounded(wanted: u32, max_steps: u32, n: u32)
    requires
        call_ensures(step_count, (wanted, max_steps), n),
    ensures
        n >= 1,
        max_steps >= 1 ==> n <= max_steps,
        max_steps == 0 ==> n == 1,
        1 <= wanted <= max_steps ==> n == wanted,
        wanted > max_steps && max_steps >= 1 ==> n == max_steps,
{
}

/// Joints get as many sweeps as are set, at least one, and stop early under the same
/// rule as contacts.
pub proof fn joint_sweeps_are_bounded(iterations: u32, n: u32, it: u32, resid: Scalar, stop: bool)
    requires
        call_ensures(joint_sweeps, (iterations,), n),
        call_ensures(joints_may_stop, (it, resid), stop),
    ensures
        iterations >= 1 ==> n == iterations,
        iterations == 0 ==> n == 1,
        stop <==> it >= 3 && resid.lt_spec(Scalar { bits: 0x3b03_126f }),
{
}

/// A body is swept ahead exactly if it is dynamic, awake, at least as fast as a finite
/// threshold, and travels in the step at least as far as a size that is positive and
/// finite allows.
pub proof fn only_fast_small_bodies_are_swept(
    dynamic: bool,
    awake: bool,
    speed: Scalar,
    threshold: Scalar,
    travel: Scalar,
    extent: Scalar,
    reach: Scalar,
    r: bool,
)
    requires
        call_ensures(needs_ccd, (dynamic, awake, speed, threshold, travel, extent, reach), r),
    ensures
        r ==> dynamic && awake,
        r ==> threshold.magnitude() < 0x7f80_0000 && extent.magnitude() < 0x7f80_0000,
        r ==> !speed.lt_spec(threshold),
        r ==> reach.le_spec(travel),
        r ==> 0 < extent.bits < 0x7f80_0000,
        dynamic && awake && threshold.magnitude() < 0x7f80_0000 && 0 < extent.bits < 0x7f80_0000
            && threshold.le_spec(speed) && reach.le_spec(travel) ==> r,
{
}

} // verus!
