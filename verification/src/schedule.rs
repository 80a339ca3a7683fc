//! Iteration counts and the order of sweeps over the constraints.

use crate::constraint::PointConstraint;
use crate::scalar::Scalar;
use crate::warm::WarmPoint;
use vstd::prelude::*;

verus! {

/// Sweeps that always run before a settled island may stop.
pub fn early_min_iters() -> (n: u32)
    ensures
        n == early_min_iters_spec(),
{
    4
}

/// Sweeps that always run before a settled island may stop.
pub open spec fn early_min_iters_spec() -> int {
    4
}

/// The sweep from which idle separated points are passed over.
pub fn point_reduce_after() -> (n: u32)
    ensures
        n == point_reduce_after_spec(),
{
    3
}

/// The sweep from which idle separated points are passed over.
pub open spec fn point_reduce_after_spec() -> int {
    3
}

/// A sweep whose largest speed correction is below this has settled (two
/// thousandths).
pub open spec fn early_exit_eps_spec() -> Scalar {
    Scalar { bits: 0x3b03_126f }
}

/// A sweep whose largest speed correction is below this has settled.
pub fn early_exit_eps() -> (r: Scalar)
    ensures
        r == early_exit_eps_spec(),
{
    Scalar { bits: 0x3b03_126f }
}

/// The iteration counts of a configuration.
#[derive(Clone, Copy, Debug, PartialEq, Eq, Structural)]
pub struct IterationConfig {
    pub velocity_iterations: u32,
    pub stabilization_iterations: u32,
    pub shock_iterations: u32,
    pub normal_inner: u32,
    pub settled_hold_iterations: u32,
    pub joint_iterations: u32,
}

/// The iteration counts of one pass.
#[derive(Clone, Copy, Debug, PartialEq, Eq, Structural)]
pub struct PhaseParams {
    pub iters: u32,
    pub shock: u32,
    pub normal_inner: u32,
    pub settled_hold: u32,
    /// Whether penetration is corrected in this pass.
    pub corrects_depth: bool,
}

/// The larger of `n` and one.
pub open spec fn at_least_one(n: u32) -> u32 {
    if n < 1 {
        1
    } else {
        n
    }
}

fn max_one(n: u32) -> (r: u32)
    ensures
        r == at_least_one(n),
{
    if n < 1 {
        1
    } else {
        n
    }
}

impl PhaseParams {
    /// The counts of the main pass, or of the cleanup pass that only removes the
    /// correction speed: it has its own count, no shock sweeps, a single inner
    /// sweep and no depth correction.
    pub open spec fn of(config: IterationConfig, cleanup: bool) -> PhaseParams {
        PhaseParams {
            iters: at_least_one(
                if cleanup {
                    config.stabilization_iterations
                } else {
                    config.velocity_iterations
                },
            ),
            shock: if cleanup {
                0
            } else {
                config.shock_iterations
            },
            normal_inner: if cleanup {
                1
            } else {
                at_least_one(config.normal_inner)
            },
            settled_hold: config.settled_hold_iterations,
            corrects_depth: !cleanup,
        }
    }

    /// The counts of the main pass or of the cleanup pass.
    pub fn from_config(config: &IterationConfig, cleanup: bool) -> (p: PhaseParams)
        ensures
            p == PhaseParams::of(*config, cleanup),
    {
        PhaseParams {
            iters: if cleanup {
                max_one(config.stabilization_iterations)
            } else {
                max_one(config.velocity_iterations)
            },
            shock: if cleanup {
                0
            } else {
                config.shock_iterations
            },
            normal_inner: if cleanup {
                1
            } else {
                max_one(config.normal_inner)
            },
            settled_hold: config.settled_hold_iterations,
            corrects_depth: !cleanup,
        }
    }
}

/// The next pass over the constraints of an island.
#[derive(Clone, Copy, Debug, PartialEq, Eq, Structural)]
pub enum Sweep {
    /// A relaxing sweep; `reduce` passes over idle separated points.
    Relax { reverse: bool, reduce: bool },
    /// A sweep from the last constraint to the first.
    Shock,
    /// A sweep that calms resting contacts.
    Hold,
    /// Nothing is left to do.
    Done,
}

/// How far an island has got.
#[derive(Clone, Copy, Debug, PartialEq, Eq, Structural)]
pub struct SweepPlan {
    pub iters: u32,
    pub shock: u32,
    pub hold: u32,
    /// Relaxing sweeps done.
    pub relaxed: u32,
    /// Whether the last relaxing sweep allowed to stop.
    pub settled: bool,
    pub shocked: u32,
    pub held: u32,
}

/// The sweep numbered `it` (from zero) may be the last: enough sweeps have run
/// and its largest correction is small.
pub open spec fn may_stop(it: int, resid: Scalar) -> bool {
    it + 1 >= early_min_iters_spec() && resid.lt_spec(early_exit_eps_spec())
}

impl SweepPlan {
    /// No count has been exceeded.
    pub open spec fn wf(self) -> bool {
        self.relaxed <= self.iters && self.shocked <= self.shock && self.held <= self.hold
    }

    /// What comes next.
    pub open spec fn next_spec(self) -> Sweep {
        if self.relaxed < self.iters && !self.settled {
            Sweep::Relax {
                reverse: self.relaxed % 2 == 1,
                reduce: self.relaxed + 1 >= point_reduce_after_spec(),
            }
        } else if self.shocked < self.shock {
            Sweep::Shock
        } else if self.held < self.hold {
            Sweep::Hold
        } else {
            Sweep::Done
        }
    }

    /// The plan after the next sweep, whose largest correction was `resid`.
    pub open spec fn after(self, resid: Scalar) -> SweepPlan {
        match self.next_spec() {
            Sweep::Relax { reverse, reduce } => SweepPlan {
                relaxed: (self.relaxed + 1) as u32,
                settled: may_stop(self.relaxed as int, resid),
                ..self
            },
            Sweep::Shock => SweepPlan { shocked: (self.shocked + 1) as u32, ..self },
            Sweep::Hold => SweepPlan { held: (self.held + 1) as u32, ..self },
            Sweep::Done => self,
        }
    }

    /// At most this many sweeps are left.
    pub open spec fn left(self) -> int {
        (self.iters - self.relaxed) + (self.shock - self.shocked) + (self.hold - self.held)
    }

    /// A plan with nothing done yet.
    pub fn new(params: &PhaseParams) -> (r: SweepPlan)
        ensures
            r.wf(),
            r == (SweepPlan {
                iters: params.iters,
                shock: params.shock,
                hold: params.settled_hold,
                relaxed: 0,
                settled: false,
                shocked: 0,
                held: 0,
            }),
    {
        SweepPlan {
            iters: params.iters,
            shock: params.shock,
            hold: params.settled_hold,
            relaxed: 0,
            settled: false,
            shocked: 0,
            held: 0,
        }
    }

    /// What comes next.
    pub fn next(&self) -> (r: Sweep)
        requires
            self.wf(),
        ensures
            r == self.next_spec(),
    {
        if self.relaxed < self.iters && !self.settled {
            Sweep::Relax {
                reverse: self.relaxed % 2 == 1,
                reduce: self.relaxed + 1 >= point_reduce_after(),
            }
        } else if self.shocked < self.shock {
            Sweep::Shock
        } else if self.held < self.hold {
            Sweep::Hold
        } else {
            Sweep::Done
        }
    }

    /// Notes that the next sweep has run with `resid` as its largest correction.
    pub fn advance(&mut self, resid: Scalar)
        requires
            old(self).wf(),
        ensures
            *final(self) == old(self).after(resid),
            final(self).wf(),
    {
        match self.next() {
            Sweep::Relax { .. } => {
                self.relaxed = self.relaxed + 1;
                self.settled = self.relaxed >= early_min_iters() && resid.lt(early_exit_eps());
            },
            Sweep::Shock => {
                self.shocked = self.shocked + 1;
            },
            Sweep::Hold => {
                self.held = self.held + 1;
            },
            Sweep::Done => {},
        }
    }
}

/// Every sweep but the last brings the end nearer, and a relaxing sweep is only
/// given up after the fixed minimum or when the count is used up.
pub proof fn sweeps_come_to_an_end(plan: SweepPlan, resid: Scalar)
    requires
        plan.wf(),
    ensures
        plan.after(resid).wf(),
        plan.next_spec() != Sweep::Done ==> plan.after(resid).left() < plan.left(),
        plan.left() == 0 ==> plan.next_spec() == Sweep::Done,
        !plan.settled && plan.relaxed < plan.iters && plan.relaxed < early_min_iters_spec() - 1
            ==> !plan.after(resid).settled,
{
}

/// Two relaxing sweeps in a row run in opposite directions.
pub proof fn relaxing_sweeps_alternate(plan: SweepPlan, resid: Scalar)
    requires
        plan.wf(),
        plan.next_spec() is Relax,
        plan.after(resid).next_spec() is Relax,
    ensures
        plan.next_spec()->reverse != plan.after(resid).next_spec()->reverse,
        plan.next_spec()->reduce ==> plan.after(resid).next_spec()->reduce,
{
}

/// The element that comes `k`-th in a sweep over `n` elements.
pub open spec fn visited(n: int, k: int, reverse: bool) -> int {
    if reverse {
        n - 1 - k
    } else {
        k
    }
}

/// The element that comes `k`-th in a sweep over `n` elements.
pub fn visit(n: usize, k: usize, reverse: bool) -> (i: usize)
    requires
        k < n,
    ensures
        i == visited(n as int, k as int, reverse),
        i < n,
{
    if reverse {
        n - 1 - k
    } else {
        k
    }
}

/// A sweep visits every element once.
pub proof fn sweep_visits_each_once(n: int, reverse: bool, i: int)
    requires
        0 <= i < n,
    ensures
        exists|k: int| 0 <= k < n && #[trigger] visited(n, k, reverse) == i,
        forall|j: int, k: int|
            #[trigger] visited(n, j, reverse) == #[trigger] visited(n, k, reverse) ==> j == k,
{
    assert(visited(n, visited(n, i, reverse), reverse) == i);
}

/// A late sweep passes over a point that has gathered no impulse and is still
/// apart: it is softer than a rigid one.
pub open spec fn passes_over_spec(reduce: bool, p: PointConstraint) -> bool {
    reduce && p.pn.is_zero_spec() && p.pt1.is_zero_spec() && p.pt2.is_zero_spec()
        && p.terms.cfm.lt_spec(Scalar { bits: 0x3f80_0000 })
}

/// Whether a late sweep passes over the point.
pub fn passes_over(reduce: bool, p: &PointConstraint) -> (r: bool)
    ensures
        r == passes_over_spec(reduce, *p),
{
    reduce && p.pn.is_zero() && p.pt1.is_zero() && p.pt2.is_zero() && p.terms.cfm.lt(
        Scalar { bits: 0x3f80_0000 },
    )
}

/// The point has cached impulses, not all of them zero.
pub open spec fn has_warm_impulse_spec(warm: Option<WarmPoint>) -> bool {
    match warm {
        Some(w) => !(w.pn.is_zero_spec() && w.pt1.is_zero_spec() && w.pt2.is_zero_spec()),
        None => false,
    }
}

/// Whether the cached impulses of a point are applied before the first sweep.
pub fn has_warm_impulse(warm: &Option<WarmPoint>) -> (r: bool)
    ensures
        r == has_warm_impulse_spec(*warm),
{
    match warm {
        Some(w) => !(w.pn.is_zero() && w.pt1.is_zero() && w.pt2.is_zero()),
        None => false,
    }
}

/// The number of steps along a fast motion: as asked, but at least one and no
/// more than allowed.
pub fn step_count(wanted: u32, max_steps: u32) -> (n: u32)
    ensures
        n >= 1,
        n == if wanted < 1 {
            1
        } else if wanted > at_least_one(max_steps) {
            at_least_one(max_steps)
        } else {
            wanted
        },
{
    let top: u32 = max_one(max_steps);
    if wanted < 1 {
        1
    } else if wanted > top {
        top
    } else {
        wanted
    }
}

/// Whether a body is swept along its motion: it is dynamic and awake, the speed
/// threshold is in use and reached, and it travels far for its smallest half
/// extent. `reach` is that extent scaled by the configured ratio.
pub fn needs_ccd(
    dynamic: bool,
    awake: bool,
    speed: Scalar,
    threshold: Scalar,
    travel: Scalar,
    extent: Scalar,
    reach: Scalar,
) -> (r: bool)
    ensures
        r == (dynamic && awake && threshold.is_finite_spec() && !speed.lt_spec(threshold)
            && extent.is_finite_spec() && !extent.le_spec(Scalar::zero_spec()) && reach.le_spec(
            travel,
        )),
{
    if !dynamic || !awake {
        return false;
    }
    if !threshold.is_finite() {
        return false;
    }
    if speed.lt(threshold) {
        return false;
    }
    if !extent.is_finite() || extent.le(Scalar::zero()) {
        return false;
    }
    reach.le(travel)
}

} // verus!
