//! Contacts and joints in single precision.

#![allow(dead_code)]

use std::ops::{Add, AddAssign, Mul, Neg, Sub, SubAssign};
use vxl_phys::body::BodySet;
use vxl_phys::constraint::{AnchorGeom, PointConstraint, Recycled, WarmCandidate};
use vxl_phys::contact::{ContactPoint, ContactPoints, Manifold};
use vxl_phys::joint_solve::{JointSide, RowStep};
use vxl_phys::joints::{Joint, JointKind, JointRow, JointSet, LimitSide, joint_rows, joint_sweeps, limit_impulse, limit_side};
use vxl_phys::narrow::Placed;
use vxl_phys::prepare::{Agreement, ContactPrep, PointNumbers};
use vxl_phys::relax::{ContactArith, Push, Relaxed, Side, Speeds};
use vxl_phys::scalar::{Quat as QuatBits, Scalar, Vec3 as Bits3, Vec3 as Vec3Bits};
use vxl_phys::schedule::{IterationConfig, PhaseParams};
use vxl_phys::shape::Shape;
use vxl_phys::sleep::{Heat, Motion, SleepConfig, count_wait_ms};
use vxl_phys::solver::{ImpulseSolver, SolveConfig};
use vxl_phys::stats::{Counters, sleep_diag_deep_take, warm_fallback_kind_take, warm_match_stats_take};
use vxl_phys::warm::{NONE, WarmPoint};

/// The bit pattern of a number.
pub fn bits(v: f32) -> Scalar {
    Scalar { bits: v.to_bits() }
}

/// The number of a bit pattern.
pub fn num(s: Scalar) -> f32 {
    f32::from_bits(s.bits)
}

/// The bit patterns of a list of numbers.
pub fn all_bits(v: &[f32]) -> Vec<Scalar> {
    v.iter().map(|x| bits(*x)).collect()
}

#[derive(Clone, Copy, Debug, PartialEq, Default)]
pub struct Vec3 {
    pub x: f32,
    pub y: f32,
    pub z: f32,
}

impl Vec3 {
    pub const ZERO: Vec3 = Vec3 { x: 0.0, y: 0.0, z: 0.0 };
    pub const X: Vec3 = Vec3 { x: 1.0, y: 0.0, z: 0.0 };
    pub const Y: Vec3 = Vec3 { x: 0.0, y: 1.0, z: 0.0 };
    pub const Z: Vec3 = Vec3 { x: 0.0, y: 0.0, z: 1.0 };

    pub fn new(x: f32, y: f32, z: f32) -> Vec3 {
        Vec3 { x, y, z }
    }

    pub fn splat(v: f32) -> Vec3 {
        Vec3::new(v, v, v)
    }

    pub fn dot(self, o: Vec3) -> f32 {
        self.x * o.x + self.y * o.y + self.z * o.z
    }

    pub fn cross(self, o: Vec3) -> Vec3 {
        Vec3::new(
            self.y * o.z - self.z * o.y,
            self.z * o.x - self.x * o.z,
            self.x * o.y - self.y * o.x,
        )
    }

    pub fn length_squared(self) -> f32 {
        self.dot(self)
    }

    pub fn length(self) -> f32 {
        self.length_squared().sqrt()
    }

    pub fn normalize(self) -> Vec3 {
        let l = self.length();
        if l > 0.0 {
            self * (1.0 / l)
        } else {
            Vec3::ZERO
        }
    }

    pub fn min(self, o: Vec3) -> Vec3 {
        Vec3::new(self.x.min(o.x), self.y.min(o.y), self.z.min(o.z))
    }

    pub fn max(self, o: Vec3) -> Vec3 {
        Vec3::new(self.x.max(o.x), self.y.max(o.y), self.z.max(o.z))
    }

    pub fn get(self, axis: usize) -> f32 {
        match axis {
            0 => self.x,
            1 => self.y,
            _ => self.z,
        }
    }

    /// The vector with each component given the sign of the corresponding number.
    pub fn signed(self, s: (i8, i8, i8)) -> Vec3 {
        Vec3::new(self.x * s.0 as f32, self.y * s.1 as f32, self.z * s.2 as f32)
    }
}

impl Add for Vec3 {
    type Output = Vec3;
    fn add(self, o: Vec3) -> Vec3 {
        Vec3::new(self.x + o.x, self.y + o.y, self.z + o.z)
    }
}

impl AddAssign for Vec3 {
    fn add_assign(&mut self, o: Vec3) {
        *self = *self + o;
    }
}

impl Sub for Vec3 {
    type Output = Vec3;
    fn sub(self, o: Vec3) -> Vec3 {
        Vec3::new(self.x - o.x, self.y - o.y, self.z - o.z)
    }
}

impl SubAssign for Vec3 {
    fn sub_assign(&mut self, o: Vec3) {
        *self = *self - o;
    }
}

impl Mul<f32> for Vec3 {
    type Output = Vec3;
    fn mul(self, s: f32) -> Vec3 {
        Vec3::new(self.x * s, self.y * s, self.z * s)
    }
}

impl Neg for Vec3 {
    type Output = Vec3;
    fn neg(self) -> Vec3 {
        Vec3::new(-self.x, -self.y, -self.z)
    }
}

impl From<Vec3Bits> for Vec3 {
    fn from(v: Vec3Bits) -> Vec3 {
        Vec3::new(num(v.x), num(v.y), num(v.z))
    }
}

impl From<Vec3> for Vec3Bits {
    fn from(v: Vec3) -> Vec3Bits {
        Vec3Bits { x: bits(v.x), y: bits(v.y), z: bits(v.z) }
    }
}

/// The bit patterns of a list of vectors.
pub fn all_vec_bits(v: &[Vec3]) -> Vec<Vec3Bits> {
    v.iter().map(|p| Vec3Bits::from(*p)).collect()
}

/// A unit quaternion.
#[derive(Clone, Copy, Debug, PartialEq)]
pub struct Quat {
    pub x: f32,
    pub y: f32,
    pub z: f32,
    pub w: f32,
}

impl Quat {
    pub const IDENTITY: Quat = Quat { x: 0.0, y: 0.0, z: 0.0, w: 1.0 };

    pub fn from_axis_angle(axis: Vec3, angle: f32) -> Quat {
        let (s, c) = (angle * 0.5).sin_cos();
        Quat { x: axis.x * s, y: axis.y * s, z: axis.z * s, w: c }
    }

    pub fn conjugate(self) -> Quat {
        Quat { x: -self.x, y: -self.y, z: -self.z, w: self.w }
    }

    pub fn mul_quat(self, o: Quat) -> Quat {
        Quat {
            x: self.w * o.x + self.x * o.w + self.y * o.z - self.z * o.y,
            y: self.w * o.y - self.x * o.z + self.y * o.w + self.z * o.x,
            z: self.w * o.z + self.x * o.y - self.y * o.x + self.z * o.w,
            w: self.w * o.w - self.x * o.x - self.y * o.y - self.z * o.z,
        }
    }

    pub fn normalize(self) -> Quat {
        let l = (self.x * self.x + self.y * self.y + self.z * self.z + self.w * self.w).sqrt();
        if l > 0.0 {
            let i = 1.0 / l;
            Quat { x: self.x * i, y: self.y * i, z: self.z * i, w: self.w * i }
        } else {
            Quat::IDENTITY
        }
    }

    pub fn rotate_vec3(self, v: Vec3) -> Vec3 {
        let q = Vec3::new(self.x, self.y, self.z);
        let t = q.cross(v) * 2.0;
        v + t * self.w + q.cross(t)
    }
}

impl From<QuatBits> for Quat {
    fn from(q: QuatBits) -> Quat {
        Quat { x: num(q.x), y: num(q.y), z: num(q.z), w: num(q.w) }
    }
}

impl From<Quat> for QuatBits {
    fn from(q: Quat) -> QuatBits {
        QuatBits { x: bits(q.x), y: bits(q.y), z: bits(q.z), w: bits(q.w) }
    }
}

/// A matrix of three columns.
#[derive(Clone, Copy, Debug, PartialEq)]
pub struct Mat3 {
    pub c: [Vec3; 3],
}

impl Mat3 {
    pub const IDENTITY: Mat3 = Mat3 { c: [Vec3::X, Vec3::Y, Vec3::Z] };
    pub const ZERO: Mat3 = Mat3 { c: [Vec3::ZERO, Vec3::ZERO, Vec3::ZERO] };

    pub fn from_quat(q: Quat) -> Mat3 {
        Mat3 { c: [q.rotate_vec3(Vec3::X), q.rotate_vec3(Vec3::Y), q.rotate_vec3(Vec3::Z)] }
    }

    pub fn from_diagonal(d: Vec3) -> Mat3 {
        Mat3 { c: [Vec3::X * d.x, Vec3::Y * d.y, Vec3::Z * d.z] }
    }

    pub fn mul_vec3(self, v: Vec3) -> Vec3 {
        self.c[0] * v.x + self.c[1] * v.y + self.c[2] * v.z
    }

    pub fn transpose(self) -> Mat3 {
        let [a, b, c] = self.c;
        Mat3 {
            c: [Vec3::new(a.x, b.x, c.x), Vec3::new(a.y, b.y, c.y), Vec3::new(a.z, b.z, c.z)],
        }
    }

    pub fn mul_mat3(self, o: Mat3) -> Mat3 {
        Mat3 { c: [self.mul_vec3(o.c[0]), self.mul_vec3(o.c[1]), self.mul_vec3(o.c[2])] }
    }

    pub fn add_mat3(self, o: Mat3) -> Mat3 {
        Mat3 { c: [self.c[0] + o.c[0], self.c[1] + o.c[1], self.c[2] + o.c[2]] }
    }

    /// The inverse; zero if the matrix has none.
    pub fn inverse(self) -> Mat3 {
        let [a, b, c] = self.c;
        let det = a.dot(b.cross(c));
        if det.abs() <= f32::MIN_POSITIVE {
            return Mat3::ZERO;
        }
        let i = 1.0 / det;
        Mat3 { c: [b.cross(c) * i, c.cross(a) * i, a.cross(b) * i] }.transpose()
    }
}

/// A box along the axes.
#[derive(Clone, Copy, Debug)]
pub struct Aabb {
    pub min: Vec3,
    pub max: Vec3,
}

/// The bodies of a scene: what the library keeps of them, their shapes, and their
/// inverse masses and inertias.
pub struct Bodies {
    pub set: BodySet,
    pub shape: Vec<Shape>,
    pub inv_mass: Vec<f32>,
    pub local_inv_inertia: Vec<Vec3>,
}

impl Default for Bodies {
    fn default() -> Bodies {
        Bodies {
            set: BodySet::new(),
            shape: Vec::new(),
            inv_mass: Vec::new(),
            local_inv_inertia: Vec::new(),
        }
    }
}

impl Bodies {
    pub fn len(&self) -> usize {
        self.set.len()
    }

    pub fn is_empty(&self) -> bool {
        self.len() == 0
    }

    /// Adds a body that moves.
    pub fn push_dynamic(
        &mut self,
        shape: Shape,
        pos: Vec3,
        rot: Quat,
        inv_mass: f32,
        local_inv_inertia: Vec3,
    ) -> u32 {
        self.push(true, shape, pos, rot, inv_mass, local_inv_inertia)
    }

    /// Adds a body that stays where it is.
    pub fn push_static(&mut self, shape: Shape, pos: Vec3, rot: Quat) -> u32 {
        self.push(false, shape, pos, rot, 0.0, Vec3::ZERO)
    }

    fn push(
        &mut self,
        dynamic: bool,
        shape: Shape,
        pos: Vec3,
        rot: Quat,
        inv_mass: f32,
        local_inv_inertia: Vec3,
    ) -> u32 {
        assert!(self.len() < u32::MAX as usize, "there are too many bodies");
        self.shape.push(shape);
        self.inv_mass.push(inv_mass);
        self.local_inv_inertia.push(local_inv_inertia);
        self.set.push(dynamic, pos.into(), rot.into())
    }

    pub fn pos(&self, i: usize) -> Vec3 {
        self.set.position[i].into()
    }

    pub fn rot(&self, i: usize) -> Quat {
        self.set.rotation[i].into()
    }

    pub fn linvel(&self, i: usize) -> Vec3 {
        self.set.linvel[i].into()
    }

    pub fn angvel(&self, i: usize) -> Vec3 {
        self.set.angvel[i].into()
    }

    /// The inverse inertia of a body in the world.
    pub fn world_inv_inertia(&self, i: usize) -> Mat3 {
        let r = Mat3::from_quat(self.rot(i));
        r.mul_mat3(Mat3::from_diagonal(self.local_inv_inertia[i])).mul_mat3(r.transpose())
    }

    /// The velocity of the point at `r` from the centre of a body.
    pub fn velocity_at(&self, i: usize, r: Vec3) -> Vec3 {
        self.linvel(i) + self.angvel(i).cross(r)
    }

    /// The shapes at their places.
    pub fn placed(&self) -> Vec<Placed> {
        (0..self.len())
            .map(|i| Placed {
                shape: self.shape[i],
                pos: self.set.position[i],
                rot: self.set.rotation[i],
            })
            .collect()
    }
}

/// How two touching bodies rub and bounce: friction and restitution at a sliding
/// speed.
pub trait Surfaces {
    fn pair(&self, a: u32, b: u32, slip: f32) -> (f32, f32);
}

/// The settings of the contact solver.
#[derive(Clone, Copy)]
pub struct Config {
    pub iterations: IterationConfig,
    pub contact_freq_hz: f32,
    pub contact_damping_ratio: f32,
    pub static_contact_freq_hz: f32,
    pub linear_slop: f32,
    pub max_corrective_velocity: f32,
    pub restitution_threshold: f32,
    pub baumgarte: f32,
    pub sleep_linear: f32,
    pub sleep_angular: f32,
    pub sleep_time: f32,
    pub wake_gate_k: u32,
    pub per_body_sleep: bool,
    /// How far the anchors of a cached point may drift apart.
    pub recycle_dist: f32,
    /// The share of the friction limit from which a point counts as sliding.
    pub drift_stick_ratio: f32,
    pub drift_deadzone: f32,
    pub drift_bias_scale: f32,
    /// Multiples of the sleep speed that wake a neighbour, and that wake it at once.
    pub wake_mult: f32,
    pub wake_fast_mult: f32,
}

/// The terms that all points of a pass share.
struct SolverParams {
    slop: f32,
    inv_dt: f32,
    erp_inv_dt_dyn: f32,
    erp_inv_dt_static: f32,
    cfm_dyn: f32,
    cfm_static: f32,
    max_corr: f32,
}

impl SolverParams {
    fn from_config(cfg: &Config, dt: f32, params: &PhaseParams) -> SolverParams {
        let (erp_inv_dt_dyn, cfm_dyn) = erp_cfm(cfg.contact_freq_hz, cfg.contact_damping_ratio, dt);
        let (erp_inv_dt_static, cfm_static) =
            erp_cfm(cfg.static_contact_freq_hz, cfg.contact_damping_ratio, dt);
        SolverParams {
            slop: cfg.linear_slop,
            inv_dt: 1.0 / dt,
            erp_inv_dt_dyn,
            erp_inv_dt_static,
            cfm_dyn,
            cfm_static,
            max_corr: if params.corrects_depth { cfg.max_corrective_velocity } else { 0.0 },
        }
    }
}

/// The correction rate and the softness of a spring.
fn erp_cfm(freq_hz: f32, zeta: f32, dt: f32) -> (f32, f32) {
    let omega = core::f32::consts::TAU * freq_hz;
    let erp_inv_dt = omega / (dt * omega + 2.0 * zeta);
    let erp = dt * erp_inv_dt;
    if erp == 0.0 {
        return (erp_inv_dt, 1.0);
    }
    let inv = 1.0 / erp - 1.0;
    let coeff = inv * inv / ((1.0 + inv) * 4.0 * zeta * zeta);
    (erp_inv_dt, 1.0 / (1.0 + coeff))
}

/// The contact solver of a scene, with its counters.
pub struct Solver {
    pub core: ImpulseSolver,
    pub threads: usize,
    pub match_dist: f32,
    pub counters: Counters,
}

impl Solver {
    pub fn new(skin: f32) -> Solver {
        Solver {
            core: ImpulseSolver::new(),
            threads: 1,
            match_dist: (skin * 4.0).max(0.02),
            counters: Counters::new(),
        }
    }

    /// Solves the contacts and judges the bodies.
    pub fn solve(
        &mut self,
        bodies: &mut Bodies,
        manifolds: &[Manifold],
        cfg: &Config,
        surfaces: &dyn Surfaces,
        dt: f32,
    ) {
        self.solve_phase(bodies, manifolds, cfg, surfaces, dt, false);
    }

    /// Takes the correction speed out again.
    pub fn solve_unbiased(
        &mut self,
        bodies: &mut Bodies,
        manifolds: &[Manifold],
        cfg: &Config,
        surfaces: &dyn Surfaces,
        dt: f32,
    ) {
        self.solve_phase(bodies, manifolds, cfg, surfaces, dt, true);
    }

    #[allow(clippy::too_many_arguments)]
    fn solve_phase(
        &mut self,
        bodies: &mut Bodies,
        manifolds: &[Manifold],
        cfg: &Config,
        surfaces: &dyn Surfaces,
        dt: f32,
        cleanup: bool,
    ) {
        let n = bodies.len();
        let splits = self.threads <= 1 || self.threads.checked_mul(n).is_some() || n.checked_mul(n).is_some();
        assert!(splits && n <= u32::MAX as usize, "there are too many bodies");
        assert!(manifolds.iter().all(|m| (m.a as usize) < n && (m.b as usize) < n));
        assert!(self.core.warm.slots.len() + manifolds.len() <= u32::MAX as usize);
        assert!(self.core.warm.slots.iter().all(|s| s.key.a == NONE
            || ((s.key.a as usize) < n && (s.key.b as usize) < n)));
        let params = PhaseParams::from_config(&cfg.iterations, cleanup);
        let sp = SolverParams::from_config(cfg, dt, &params);
        let match_dist = self.match_dist;
        let pairs: Vec<Touching> =
            manifolds.iter().map(|m| Touching::of(bodies, m, surfaces)).collect();
        let prep = ContactPrep {
            agree: |mi: usize, n: Bits3| pairs[mi].agree(n.into()),
            probe: |mi: usize, cp: ContactPoint, w: WarmPoint| pairs[mi].probe(&cp, &w, match_dist),
            recycle: |mi: usize, w: WarmPoint| pairs[mi].recycle(&w, cfg),
            bake: |mi: usize, cp: ContactPoint| pairs[mi].bake(&cp),
            numbers: |mi: usize, _: ContactPoint, g: AnchorGeom, w: Option<WarmPoint>| {
                pairs[mi].numbers(&g, w, cfg, &sp)
            },
        };
        let masses = Masses::of(bodies, cfg.per_body_sleep);
        let hold_max = 4.0 * cfg.sleep_linear;
        let arith = ContactArith {
            warm: |p: PointConstraint, n: Bits3, a: Side, b: Side| masses.warm(&p, n.into(), a, b),
            relax: Push {
                demand: |p: PointConstraint, n: Bits3, a: Side, b: Side| {
                    bits(Masses::demand(&p, n.into(), a, b))
                },
                apply: |p: PointConstraint, pn: Scalar, n: Bits3, a: Side, b: Side| {
                    masses.apply(&p, num(pn), n.into(), a, b)
                },
            },
            hold: |p: PointConstraint, n: Bits3, a: Side, b: Side| {
                masses.hold(&p, n.into(), a, b, hold_max)
            },
        };
        let measure = |set: &BodySet| measure_motion(set, manifolds, cfg, dt);
        let config = SolveConfig {
            iterations: cfg.iterations,
            threads: self.threads,
            freeze_dormant: cfg.per_body_sleep,
            sleep: SleepConfig {
                sleep_time: bits(cfg.sleep_time),
                wake_gate_k: cfg.wake_gate_k,
                per_body: cfg.per_body_sleep,
                deep: false,
            },
            dt: bits(dt),
        };
        let rests = self.core.solve_phase(
            &mut bodies.set,
            manifolds,
            &config,
            cleanup,
            &prep,
            &arith,
            &measure,
            &mut self.counters,
        );
        for r in rests {
            count_wait_ms(&mut self.counters, (num(r) * 1000.0) as u64);
        }
    }
}

/// Two directions across the normal.
fn tangents(n: Vec3) -> (Vec3, Vec3) {
    let t1 = n.cross(if n.y.abs() < 0.9 { Vec3::Y } else { Vec3::X }).normalize();
    (t1, n.cross(t1))
}

/// The effective mass of a pair along a direction; zero if it cannot move.
fn effective_mass(ma: f32, mb: f32, ia: Mat3, ib: Mat3, ra: Vec3, rb: Vec3, d: Vec3) -> f32 {
    let mut k = ma + mb;
    if ma > 0.0 {
        k += ia.mul_vec3(ra.cross(d)).cross(ra).dot(d);
    }
    if mb > 0.0 {
        k += ib.mul_vec3(rb.cross(d)).cross(rb).dot(d);
    }
    if k > 1e-12 { 1.0 / k } else { 0.0 }
}

/// The coupling of two directions.
#[allow(clippy::too_many_arguments)]
fn cross_mass(
    ma: f32,
    mb: f32,
    ia: Mat3,
    ib: Mat3,
    ra: Vec3,
    rb: Vec3,
    d1: Vec3,
    d2: Vec3,
) -> f32 {
    let mut k = (ma + mb) * d1.dot(d2);
    if ma > 0.0 {
        k += ra.cross(d1).dot(ia.mul_vec3(ra.cross(d2)));
    }
    if mb > 0.0 {
        k += rb.cross(d1).dot(ib.mul_vec3(rb.cross(d2)));
    }
    k
}

/// Two bodies that touch, as they are before the solve, and how they rub and bounce.
#[derive(Clone, Copy)]
struct Touching {
    n: Vec3,
    t1: Vec3,
    t2: Vec3,
    pos: [Vec3; 2],
    rot: [Mat3; 2],
    inertia: [Mat3; 2],
    mass: [f32; 2],
    lin: [Vec3; 2],
    ang: [Vec3; 2],
    friction: f32,
    restitution: f32,
}

impl Touching {
    fn of(bodies: &Bodies, m: &Manifold, surfaces: &dyn Surfaces) -> Touching {
        let (a, b) = (m.a as usize, m.b as usize);
        let n = Vec3::from(m.normal);
        let (t1, t2) = tangents(n);
        let (mut friction, mut restitution) = (0.0, 0.0);
        if m.points.len() > 0 {
            let point = Vec3::from(m.points.get(0).point);
            let vrel = bodies.velocity_at(b, point - bodies.pos(b))
                - bodies.velocity_at(a, point - bodies.pos(a));
            let slip = (vrel - n * vrel.dot(n)).length();
            (friction, restitution) = surfaces.pair(m.a, m.b, slip);
        }
        Touching {
            n,
            t1,
            t2,
            pos: [bodies.pos(a), bodies.pos(b)],
            rot: [Mat3::from_quat(bodies.rot(a)), Mat3::from_quat(bodies.rot(b))],
            inertia: [bodies.world_inv_inertia(a), bodies.world_inv_inertia(b)],
            mass: [bodies.inv_mass[a], bodies.inv_mass[b]],
            lin: [bodies.set.linvel[a].into(), bodies.set.linvel[b].into()],
            ang: [bodies.set.angvel[a].into(), bodies.set.angvel[b].into()],
            friction,
            restitution,
        }
    }

    /// The places of the two anchors of a cached point.
    fn anchors(&self, w: &WarmPoint) -> (Vec3, Vec3) {
        (
            self.pos[0] + self.rot[0].mul_vec3(w.la.into()),
            self.pos[1] + self.rot[1].mul_vec3(w.lb.into()),
        )
    }

    fn agree(&self, cached: Vec3) -> Agreement {
        let cos = cached.dot(self.n);
        Agreement { aligned: cos > 0.95, kept: cos >= 0.99999 }
    }

    fn probe(&self, cp: &ContactPoint, w: &WarmPoint, match_dist: f32) -> WarmCandidate {
        let (qa, qb) = self.anchors(w);
        let d2 = ((qa + qb) * 0.5 - Vec3::from(cp.point)).length_squared();
        let (depth, fallback) = (num(cp.depth), match_dist * 0.25);
        WarmCandidate {
            feature: w.feature,
            near: d2 < match_dist * match_dist,
            acceptable: depth > 0.0
                && d2 < fallback * fallback
                && (depth - num(w.depth0)).abs() <= 0.00025,
            dist2: bits(d2),
        }
    }

    fn recycle(&self, w: &WarmPoint, cfg: &Config) -> Recycled {
        let (qa, qb) = self.anchors(w);
        let sep = qa - qb;
        Recycled {
            within: sep.length_squared() <= cfg.recycle_dist * cfg.recycle_dist,
            midpoint: ((qa + qb) * 0.5).into(),
            depth: bits(num(w.depth0) + sep.dot(self.n)),
            separation: sep.into(),
        }
    }

    fn bake(&self, cp: &ContactPoint) -> (Bits3, Bits3) {
        let point = Vec3::from(cp.point);
        (
            self.rot[0].transpose().mul_vec3(point - self.pos[0]).into(),
            self.rot[1].transpose().mul_vec3(point - self.pos[1]).into(),
        )
    }

    fn numbers(
        &self,
        g: &AnchorGeom,
        warm: Option<WarmPoint>,
        cfg: &Config,
        sp: &SolverParams,
    ) -> PointNumbers {
        let at = Vec3::from(g.pt_world);
        let (xa, xb) = (at - self.pos[0], at - self.pos[1]);
        let ((ma, mb), (ia, ib)) =
            ((self.mass[0], self.mass[1]), (self.inertia[0], self.inertia[1]));
        let mass = |d: Vec3| effective_mass(ma, mb, ia, ib, xa, xb, d);
        let va = self.lin[0] + self.ang[0].cross(xa);
        let vb = self.lin[1] + self.ang[1].cross(xb);
        let vn = (vb - va).dot(self.n);
        let fixed = ma == 0.0 || mb == 0.0;
        let depth = num(g.depth);
        let bounce = if vn < -cfg.restitution_threshold { -self.restitution * vn } else { 0.0 };
        let closing = (-depth).max(0.0) * sp.inv_dt;
        let rate = if fixed { sp.erp_inv_dt_static } else { sp.erp_inv_dt_dyn };
        let bias = (rate * (depth - sp.slop).max(0.0)).min(sp.max_corr);
        let drift = Vec3::from(g.drift);
        let pull = drift * (cfg.drift_bias_scale * sp.inv_dt);
        let slid = match warm {
            Some(w) => {
                let t = (num(w.pt1) * num(w.pt1) + num(w.pt2) * num(w.pt2)).sqrt();
                t >= cfg.drift_stick_ratio * self.friction * num(w.pn).max(0.0)
            }
            None => false,
        };
        PointNumbers {
            ra: xa.into(),
            rb: xb.into(),
            t1: self.t1.into(),
            t2: self.t2.into(),
            nmass: bits(mass(self.n)),
            tmass1: bits(mass(self.t1)),
            tmass2: bits(mass(self.t2)),
            tcross: bits(cross_mass(ma, mb, ia, ib, xa, xb, self.t1, self.t2)),
            rhs: bits(bias - closing + bounce),
            friction: bits(self.friction),
            fixed,
            soft_fixed: bits(sp.cfm_static),
            soft_moving: bits(sp.cfm_dyn),
            slid,
            strayed: drift.length_squared() > cfg.drift_deadzone * cfg.drift_deadzone,
            pull1: bits(pull.dot(self.t1)),
            pull2: bits(pull.dot(self.t2)),
            closing_milli: (closing * 1000.0) as u64,
            bias_milli: (bias * 1000.0) as u64,
        }
    }
}

/// The masses with which bodies take part in a solve.
struct Masses {
    inv_mass: Vec<f32>,
    inv_inertia: Vec<Mat3>,
}

impl Masses {
    /// Sleeping bodies that are held fast have no inverse mass.
    fn of(bodies: &Bodies, freeze_dormant: bool) -> Masses {
        let n = bodies.len();
        let fast = |i: usize| freeze_dormant && !bodies.set.awake[i];
        Masses {
            inv_mass: (0..n).map(|i| if fast(i) { 0.0 } else { bodies.inv_mass[i] }).collect(),
            inv_inertia: (0..n)
                .map(|i| if fast(i) { Mat3::ZERO } else { bodies.world_inv_inertia(i) })
                .collect(),
        }
    }

    fn velocity(s: &Speeds, r: Vec3) -> Vec3 {
        Vec3::from(s.lin) + Vec3::from(s.ang).cross(r)
    }

    /// The speeds of a side after an impulse; a side without a place stays.
    fn push(&self, s: Side, r: Vec3, imp: Vec3) -> Side {
        if !s.placed {
            return s;
        }
        let i = s.body as usize;
        Side {
            speeds: Speeds {
                lin: (Vec3::from(s.speeds.lin) + imp * self.inv_mass[i]).into(),
                ang: (Vec3::from(s.speeds.ang) + self.inv_inertia[i].mul_vec3(r.cross(imp)))
                    .into(),
            },
            ..s
        }
    }

    fn warm(&self, p: &PointConstraint, n: Vec3, a: Side, b: Side) -> Option<(Speeds, Speeds)> {
        let w = p.terms.warm?;
        let imp = n * num(w.pn)
            + Vec3::from(p.terms.t1) * num(w.pt1)
            + Vec3::from(p.terms.t2) * num(w.pt2);
        let a = self.push(a, p.terms.ra.into(), -imp);
        let b = self.push(b, p.terms.rb.into(), imp);
        Some((a.speeds, b.speeds))
    }

    /// The normal impulse that a point wants.
    fn demand(p: &PointConstraint, n: Vec3, a: Side, b: Side) -> f32 {
        let t = &p.terms;
        let (va, vb) = (
            Self::velocity(&a.speeds, t.ra.into()),
            Self::velocity(&b.speeds, t.rb.into()),
        );
        num(t.cfm) * (num(p.pn) + num(t.nmass) * (num(t.rhs) - (vb - va).dot(n)))
    }

    /// Gives a point its normal impulse, and rubs.
    fn apply(&self, p: &PointConstraint, pn: f32, n: Vec3, a: Side, b: Side) -> Relaxed {
        let t = &p.terms;
        let (ra, rb) = (Vec3::from(t.ra), Vec3::from(t.rb));
        let (t1, t2) = (Vec3::from(t.t1), Vec3::from(t.t2));
        let (nmass, tmass1, tmass2) = (num(t.nmass), num(t.tmass1), num(t.tmass2));
        let (mut a, mut b) = (a, b);
        let mut resid = 0.0f32;
        let dl = pn - num(p.pn);
        if dl != 0.0 {
            resid = resid.max((dl * nmass).abs());
            a = self.push(a, ra, -(n * dl));
            b = self.push(b, rb, n * dl);
        }
        let (old1, old2) = (num(p.pt1), num(p.pt2));
        let (mut a1, mut a2) = (old1, old2);
        let dv = Self::velocity(&b.speeds, rb) - Self::velocity(&a.speeds, ra);
        let (vt1, vt2) = (dv.dot(t1) - num(t.trhs1), dv.dot(t2) - num(t.trhs2));
        let k11 = if tmass1 > 0.0 { 1.0 / tmass1 } else { 0.0 };
        let k22 = if tmass2 > 0.0 { 1.0 / tmass2 } else { 0.0 };
        let k12 = num(t.tcross);
        let det = k11 * k22 - k12 * k12;
        if det > 1e-12 {
            let inv = 1.0 / det;
            a1 = old1 + (-vt1 * k22 + vt2 * k12) * inv;
            a2 = old2 + (-vt2 * k11 + vt1 * k12) * inv;
            let limit = num(t.friction) * pn;
            let f2 = a1 * a1 + a2 * a2;
            if f2 > limit * limit && f2 > 1e-20 {
                let s = limit / f2.sqrt();
                a1 *= s;
                a2 *= s;
            }
            let (d1, d2) = (a1 - old1, a2 - old2);
            if d1 != 0.0 || d2 != 0.0 {
                resid = resid.max((d1 * tmass1).abs()).max((d2 * tmass2).abs());
                let imp = t1 * d1 + t2 * d2;
                a = self.push(a, ra, -imp);
                b = self.push(b, rb, imp);
            }
        }
        Relaxed {
            pt1: bits(a1),
            pt2: bits(a2),
            a: a.speeds,
            b: b.speeds,
            resid: bits(resid),
        }
    }

    fn hold(
        &self,
        p: &PointConstraint,
        n: Vec3,
        a: Side,
        b: Side,
        max_vn: f32,
    ) -> Option<(Speeds, Speeds)> {
        let (ra, rb) = (Vec3::from(p.terms.ra), Vec3::from(p.terms.rb));
        let of = |s: &Side| {
            if s.placed {
                (self.inv_mass[s.body as usize], self.inv_inertia[s.body as usize])
            } else {
                (0.0, Mat3::ZERO)
            }
        };
        let ((ma, ia), (mb, ib)) = (of(&a), of(&b));
        let mass = effective_mass(ma, mb, ia, ib, ra, rb, n);
        let vn = (Self::velocity(&b.speeds, rb) - Self::velocity(&a.speeds, ra)).dot(n);
        if mass == 0.0 || vn.abs() >= max_vn || num(p.terms.anchor.depth0) > 0.05 {
            return None;
        }
        let dl = -vn * mass * 0.25;
        if dl == 0.0 {
            return None;
        }
        Some((self.push(a, ra, -(n * dl)).speeds, self.push(b, rb, n * dl).speeds))
    }
}

/// How the bodies move, and how those of each manifold move against each other.
fn measure_motion(
    set: &BodySet,
    manifolds: &[Manifold],
    cfg: &Config,
    dt: f32,
) -> (Vec<Heat>, Vec<Motion>) {
    let lin = |i: usize| Vec3::from(set.linvel[i]);
    let ang = |i: usize| Vec3::from(set.angvel[i]).length();
    let heat = manifolds
        .iter()
        .map(|m| {
            let (a, b) = (m.a as usize, m.b as usize);
            let rel = (lin(a) - lin(b)).length();
            let pushed = rel > cfg.wake_mult * cfg.sleep_linear;
            let spin = cfg.wake_mult * cfg.sleep_angular;
            Heat {
                hot_from_a: pushed || ang(a) > spin,
                hot_from_b: pushed || ang(b) > spin,
                fast: rel > cfg.wake_fast_mult * cfg.sleep_linear,
            }
        })
        .collect();
    let motion = (0..set.len())
        .map(|i| {
            let (l, w) = (lin(i).length(), ang(i));
            Motion {
                slow: l < cfg.sleep_linear && w < cfg.sleep_angular,
                fast: l >= cfg.sleep_linear || w >= cfg.sleep_angular,
                advanced: bits(num(set.sleep_timer[i]) + dt),
            }
        })
        .collect();
    (heat, motion)
}

/// Wakes what the joints hold and solves the acting ones.
pub fn joints_solve(set: &JointSet, bodies: &mut Bodies, cfg: &Config, dt: f32) {
    let n = bodies.len();
    assert!(set.joints.iter().all(|j| (j.a as usize) < n && (j.b as usize) < n));
    let inv_dt = 1.0 / dt.max(1e-6);
    let movable: Vec<bool> = bodies.inv_mass.iter().map(|m| *m != 0.0).collect();
    let frame = Frame {
        pos: (0..n).map(|i| bodies.pos(i)).collect(),
        rot: (0..n).map(|i| bodies.rot(i)).collect(),
        inv_mass: bodies.inv_mass.clone(),
        inv_inertia: (0..n).map(|i| bodies.world_inv_inertia(i)).collect(),
        bias_inv_dt: cfg.baumgarte.max(0.0) * inv_dt,
        inv_dt,
    };
    let row = |r: JointRow, j: Joint, a: JointSide, b: JointSide| frame.solve_row(r, &j, a, b);
    set.solve(&mut bodies.set, cfg.iterations.joint_iterations, &movable, bits(inv_dt), &row);
}

/// What the rows read of the bodies.
struct Frame {
    pos: Vec<Vec3>,
    rot: Vec<Quat>,
    inv_mass: Vec<f32>,
    inv_inertia: Vec<Mat3>,
    bias_inv_dt: f32,
    inv_dt: f32,
}

/// The bodies of a joint while one of its rows is solved.
struct Pair<'a> {
    frame: &'a Frame,
    ai: usize,
    bi: usize,
    ra: Vec3,
    rb: Vec3,
    va: Vec3,
    wa: Vec3,
    vb: Vec3,
    wb: Vec3,
}

impl<'a> Pair<'a> {
    fn rel_vel(&self) -> Vec3 {
        (self.vb + self.wb.cross(self.rb)) - (self.va + self.wa.cross(self.ra))
    }

    fn rel_spin(&self) -> Vec3 {
        self.wb - self.wa
    }

    /// The inverse effective mass of the anchors along a direction.
    fn row_mass(&self, n: Vec3) -> f32 {
        let f = self.frame;
        let wa = f.inv_inertia[self.ai].mul_vec3(self.ra.cross(n)).cross(self.ra);
        let wb = f.inv_inertia[self.bi].mul_vec3(self.rb.cross(n)).cross(self.rb);
        f.inv_mass[self.ai] + f.inv_mass[self.bi] + n.dot(wa) + n.dot(wb)
    }

    /// The inverse effective inertia about an axis.
    fn spin_mass(&self, n: Vec3) -> f32 {
        let f = self.frame;
        n.dot(f.inv_inertia[self.ai].mul_vec3(n)) + n.dot(f.inv_inertia[self.bi].mul_vec3(n))
    }

    /// The inverse effective mass of the anchors as a matrix.
    fn point_k(&self) -> Mat3 {
        let f = self.frame;
        let m = f.inv_mass[self.ai] + f.inv_mass[self.bi];
        let col = |axis: Vec3| {
            axis * m
                + f.inv_inertia[self.ai].mul_vec3(self.ra.cross(axis)).cross(self.ra)
                + f.inv_inertia[self.bi].mul_vec3(self.rb.cross(axis)).cross(self.rb)
        };
        Mat3 { c: [col(Vec3::X), col(Vec3::Y), col(Vec3::Z)] }
    }

    fn spin_k(&self) -> Mat3 {
        self.frame.inv_inertia[self.ai].add_mat3(self.frame.inv_inertia[self.bi])
    }

    fn apply(&mut self, imp: Vec3) {
        let f = self.frame;
        self.va -= imp * f.inv_mass[self.ai];
        self.vb += imp * f.inv_mass[self.bi];
        self.wa -= f.inv_inertia[self.ai].mul_vec3(self.ra.cross(imp));
        self.wb += f.inv_inertia[self.bi].mul_vec3(self.rb.cross(imp));
    }

    fn apply_spin(&mut self, imp: Vec3) {
        let f = self.frame;
        self.wa -= f.inv_inertia[self.ai].mul_vec3(imp);
        self.wb += f.inv_inertia[self.bi].mul_vec3(imp);
    }

    fn done(&self, dv: f32) -> Option<RowStep> {
        Some(RowStep {
            a: Speeds { lin: self.va.into(), ang: self.wa.into() },
            b: Speeds { lin: self.vb.into(), ang: self.wb.into() },
            dv: bits(dv),
        })
    }
}

/// The solution of three equations; nothing if they have none.
fn joints_solve3(k: Mat3, rhs: Vec3) -> Option<Vec3> {
    let [a, b, c] = k.c;
    let det = a.dot(b.cross(c));
    if det.abs() < 1e-12 { None } else { Some(k.inverse().mul_vec3(rhs)) }
}

/// The solution of two equations in the plane of `t1` and `t2`.
fn joints_solve2(k: Mat3, t1: Vec3, t2: Vec3, r1: f32, r2: f32) -> Option<(f32, f32)> {
    let proj = |a: Vec3, b: Vec3| k.mul_vec3(a).dot(b);
    let (k11, k12, k22) = (proj(t1, t1), proj(t1, t2), proj(t2, t2));
    let det = k11 * k22 - k12 * k12;
    if det.abs() < 1e-12 {
        return None;
    }
    Some(((r1 * k22 - r2 * k12) / det, (r2 * k11 - r1 * k12) / det))
}

/// Two directions across an axis.
fn joints_perp_basis(axis: Vec3) -> (Vec3, Vec3) {
    let a = if axis.x.abs() < 0.9 { Vec3::X } else { Vec3::Y };
    let t1 = a.cross(axis).normalize();
    (t1, axis.cross(t1).normalize())
}

impl Frame {
    fn solve_row(&self, row: JointRow, j: &Joint, a: JointSide, b: JointSide) -> Option<RowStep> {
        let (ai, bi) = (j.a as usize, j.b as usize);
        let (qa, qb) = (self.rot[ai], self.rot[bi]);
        let ra = Mat3::from_quat(qa).mul_vec3(j.anchor_a.into());
        let rb = Mat3::from_quat(qb).mul_vec3(j.anchor_b.into());
        let err = (self.pos[bi] + rb) - (self.pos[ai] + ra);
        let axis = Mat3::from_quat(qa).mul_vec3(j.axis_a.into()).normalize();
        let mut p = Pair {
            frame: self,
            ai,
            bi,
            ra,
            rb,
            va: a.speeds.lin.into(),
            wa: a.speeds.ang.into(),
            vb: b.speeds.lin.into(),
            wb: b.speeds.ang.into(),
        };
        match row {
            JointRow::Length => {
                let len = err.length();
                if len <= 1e-6 {
                    return None;
                }
                let n = err * (1.0 / len);
                let bias = (len - num(j.rest)) * self.bias_inv_dt;
                let k = p.row_mass(n);
                let lambda = if k > 1e-9 { -(p.rel_vel().dot(n) + bias) / k } else { 0.0 };
                p.apply(n * lambda);
                p.done(lambda.abs())
            }
            JointRow::PointAcross => {
                let (t1, t2) = joints_perp_basis(axis);
                let v = p.rel_vel();
                let r = |t: Vec3| -(v.dot(t) + err.dot(t) * self.bias_inv_dt);
                let (l1, l2) = joints_solve2(p.point_k(), t1, t2, r(t1), r(t2))?;
                p.apply(t1 * l1 + t2 * l2);
                p.done(l1.abs().max(l2.abs()))
            }
            JointRow::Point => {
                let rhs = -(p.rel_vel() + err * self.bias_inv_dt);
                let lambda = joints_solve3(p.point_k(), rhs)?;
                p.apply(lambda);
                p.done(lambda.length())
            }
            JointRow::Rotation => {
                let lambda = joints_solve3(p.spin_k(), -p.rel_spin())?;
                p.apply_spin(lambda);
                p.done(lambda.length())
            }
            JointRow::RotationAcross => {
                let (t1, t2) = joints_perp_basis(axis);
                let w = p.rel_spin();
                let (l1, l2) = joints_solve2(p.spin_k(), t1, t2, -w.dot(t1), -w.dot(t2))?;
                p.apply_spin(t1 * l1 + t2 * l2);
                p.done(l1.abs().max(l2.abs()))
            }
            JointRow::RotationMotor | JointRow::SlideMotor => {
                let spin = matches!(row, JointRow::RotationMotor);
                let k = if spin { p.spin_mass(axis) } else { p.row_mass(axis) };
                if k <= 1e-9 {
                    return None;
                }
                let v = if spin { p.rel_spin() } else { p.rel_vel() };
                let limit = num(j.motor_max_force) / self.inv_dt;
                let lambda = ((num(j.motor_target) - v.dot(axis)) / k).clamp(-limit, limit);
                if spin {
                    p.apply_spin(axis * lambda);
                } else {
                    p.apply(axis * lambda);
                }
                p.done(lambda.abs())
            }
            JointRow::RotationLimit | JointRow::SlideLimit => {
                let spin = matches!(row, JointRow::RotationLimit);
                let value = if spin {
                    let q = qa.conjugate().mul_quat(qb);
                    2.0 * Vec3::new(q.x, q.y, q.z).dot(j.axis_a.into()).atan2(q.w)
                } else {
                    err.dot(axis)
                };
                let side = limit_side(bits(value), j.limit_lower, j.limit_upper);
                let over = match side {
                    LimitSide::Below => num(j.limit_lower) - value,
                    LimitSide::Above => num(j.limit_upper) - value,
                    LimitSide::Inside => return None,
                };
                let k = if spin { p.spin_mass(axis) } else { p.row_mass(axis) };
                if k <= 1e-9 {
                    return None;
                }
                let v = if spin { p.rel_spin() } else { p.rel_vel() };
                let wanted = (self.bias_inv_dt * over - v.dot(axis)) / k;
                let lambda = num(limit_impulse(side, bits(wanted)));
                if lambda == 0.0 {
                    return None;
                }
                if spin {
                    p.apply_spin(axis * lambda);
                } else {
                    p.apply(axis * lambda);
                }
                p.done(lambda.abs())
            }
        }
    }
}

// ---- scenes

/// Friction and restitution that are the same for every pair.
struct Plain;

impl Surfaces for Plain {
    fn pair(&self, _a: u32, _b: u32, _slip: f32) -> (f32, f32) {
        (0.5, 0.0)
    }
}

fn settings() -> Config {
    Config {
        iterations: IterationConfig {
            velocity_iterations: 8,
            stabilization_iterations: 1,
            shock_iterations: 0,
            normal_inner: 1,
            settled_hold_iterations: 0,
            joint_iterations: 8,
        },
        contact_freq_hz: 30.0,
        contact_damping_ratio: 5.0,
        static_contact_freq_hz: 60.0,
        linear_slop: 0.005,
        max_corrective_velocity: 4.0,
        restitution_threshold: 1.0,
        baumgarte: 0.2,
        sleep_linear: 0.05,
        sleep_angular: 0.05,
        sleep_time: 0.5,
        wake_gate_k: 1,
        per_body_sleep: false,
        recycle_dist: 0.05,
        drift_stick_ratio: 0.9,
        drift_deadzone: 0.001,
        drift_bias_scale: 0.1,
        wake_mult: 2.0,
        wake_fast_mult: 8.0,
    }
}

/// A substep: two for a frame of a sixtieth of a second.
const SUBSTEP: f32 = 1.0 / 120.0;

impl Bodies {
    /// A box of the density.
    fn solid_box(&mut self, half: Vec3, pos: Vec3, density: f32) -> u32 {
        let m = 8.0 * half.x * half.y * half.z * density;
        let h = Vec3::new(half.x * half.x, half.y * half.y, half.z * half.z);
        let i = Vec3::new(h.y + h.z, h.z + h.x, h.x + h.y) * (m / 3.0);
        let inv = Vec3::new(1.0 / i.x, 1.0 / i.y, 1.0 / i.z);
        self.push_dynamic(Shape::Box { half: half.into() }, pos, Quat::IDENTITY, 1.0 / m, inv)
    }

    fn set_linvel(&mut self, i: usize, v: Vec3) {
        self.set.linvel[i] = v.into();
    }

    fn set_angvel(&mut self, i: usize, w: Vec3) {
        self.set.angvel[i] = w.into();
    }

    fn fall(&mut self, i: usize, dt: f32) {
        self.set_linvel(i, self.linvel(i) - Vec3::new(0.0, 9.81 * dt, 0.0));
    }

    /// Moves every body that is awake by its velocities.
    fn integrate(&mut self, dt: f32) {
        for i in 0..self.len() {
            if !self.set.dynamic[i] || !self.set.awake[i] {
                continue;
            }
            let p = self.pos(i) + self.linvel(i) * dt;
            let (w, q) = (self.angvel(i) * (0.5 * dt), self.rot(i));
            let d = Quat { x: w.x, y: w.y, z: w.z, w: 0.0 }.mul_quat(q);
            let q = Quat { x: q.x + d.x, y: q.y + d.y, z: q.z + d.z, w: q.w + d.w };
            self.set.position[i] = p.into();
            self.set.rotation[i] = q.normalize().into();
        }
    }
}

/// A box that hangs from a still one, with its anchor at the middle of that.
fn world() -> Bodies {
    let mut b = Bodies::default();
    b.push_static(
        Shape::Box { half: Vec3::splat(0.2).into() },
        Vec3::new(0.0, 10.0, 0.0),
        Quat::IDENTITY,
    );
    b.solid_box(Vec3::splat(0.4), Vec3::new(0.0, 9.6, 0.0), 500.0);
    b
}

const HOOK: Vec3 = Vec3 { x: 0.0, y: 0.4, z: 0.0 };

fn hooked(kind: JointKind) -> Joint {
    Joint::new(kind, 0, 1, Vec3::ZERO.into(), HOOK.into())
}

fn joined(j: Joint) -> JointSet {
    let mut set = JointSet::new();
    assert_eq!(set.add(j), 0);
    set
}

/// From the first anchor to the second.
fn gap(b: &Bodies) -> Vec3 {
    let wa = b.pos(0) + Mat3::from_quat(b.rot(0)).mul_vec3(Vec3::ZERO);
    let wb = b.pos(1) + Mat3::from_quat(b.rot(1)).mul_vec3(HOOK);
    wb - wa
}

fn x_axis(b: &Bodies) -> Vec3 {
    Mat3::from_quat(b.rot(1)).mul_vec3(Vec3::X)
}

/// A substep with or without gravity.
fn step(set: &JointSet, b: &mut Bodies, gravity: bool) {
    if gravity {
        b.fall(1, SUBSTEP);
    }
    joints_solve(set, b, &settings(), SUBSTEP);
    b.integrate(SUBSTEP);
}

#[test]
fn spherical_holds_anchor_within_tolerance() {
    let mut b = world();
    b.set_linvel(1, Vec3::new(2.0, 0.0, 0.0));
    let set = joined(hooked(JointKind::Spherical));
    let mut worst = 0.0f32;
    let mut max_swing = 0.0f32;
    for _ in 0..240 {
        step(&set, &mut b, true);
        worst = worst.max(gap(&b).length());
        max_swing = max_swing.max(b.pos(1).x.abs());
    }
    assert!(worst < 0.002, "the anchors part by {worst}");
    assert!(max_swing > 0.25, "the box swings by {max_swing}");
}

#[test]
fn fixed_locks_both_position_and_orientation() {
    let mut b = world();
    b.set_linvel(1, Vec3::new(1.5, 0.0, 0.0));
    b.set_angvel(1, Vec3::new(0.0, 0.0, 3.0));
    let set = joined(hooked(JointKind::Fixed));
    let mut worst = 0.0f32;
    let mut worst_axis = 1.0f32;
    for _ in 0..240 {
        step(&set, &mut b, true);
        worst = worst.max(gap(&b).length());
        worst_axis = worst_axis.min(x_axis(&b).dot(Vec3::X));
    }
    assert!(worst < 0.05, "the anchors part by {worst}");
    assert!(worst_axis > 0.98, "the box turns to {worst_axis}");
}

#[test]
fn revolute_spins_about_axis_and_locks_the_rest() {
    let mut b = world();
    b.set_angvel(1, Vec3::new(0.0, 3.0, 0.0));
    let set = joined(hooked(JointKind::Revolute).with_axis(Vec3::Y.into()));
    let mut worst = 0.0f32;
    for _ in 0..240 {
        step(&set, &mut b, true);
        worst = worst.max(gap(&b).length());
    }
    let w = b.angvel(1);
    assert!(worst < 0.02, "the anchors part by {worst}");
    assert!(w.y.abs() > 1.0, "the spin is {}", w.y);
    assert!(w.x.abs() < 0.05 && w.z.abs() < 0.05, "the spin is {w:?}");
}

#[test]
fn prismatic_slides_only_along_axis() {
    let mut b = world();
    b.set_linvel(1, Vec3::new(1.5, 0.0, 0.0));
    b.set_angvel(1, Vec3::new(0.0, 0.0, 2.0));
    let set = joined(hooked(JointKind::Prismatic).with_axis(Vec3::Y.into()));
    let mut worst_lat = 0.0f32;
    let mut worst_axis = 1.0f32;
    for _ in 0..240 {
        step(&set, &mut b, true);
        let p = b.pos(1);
        worst_lat = worst_lat.max(p.x.abs().max(p.z.abs()));
        worst_axis = worst_axis.min(x_axis(&b).dot(Vec3::X));
    }
    let y = b.pos(1).y;
    assert!(worst_lat < 0.02, "the box drifts by {worst_lat}");
    assert!(worst_axis > 0.98, "the box turns to {worst_axis}");
    assert!(y < 9.5, "the box is at {y}");
}

#[test]
fn revolute_motor_drives_target_and_respects_force_clamp() {
    let run = |max_force: f32, steps: usize| -> (f32, f32) {
        let mut b = world();
        let set = joined(
            hooked(JointKind::Revolute)
                .with_axis(Vec3::Y.into())
                .with_motor(bits(3.0), bits(max_force)),
        );
        for _ in 0..steps {
            step(&set, &mut b, false);
        }
        (b.angvel(1).y, gap(&b).length())
    };
    let (w_strong, sep_strong) = run(1e6, 60);
    assert!((w_strong - 3.0).abs() < 0.1, "the spin is {w_strong}");
    assert!(sep_strong < 0.02, "the anchors part by {sep_strong}");
    let (w_weak, _) = run(0.05, 60);
    assert!(w_weak < 1.0, "the spin is {w_weak}");
    let (w_off, _) = run(0.0, 60);
    assert!(w_off.abs() < 1e-3, "the spin is {w_off}");
}

#[test]
fn prismatic_motor_drives_along_axis() {
    let mut b = world();
    let set = joined(
        hooked(JointKind::Prismatic).with_axis(Vec3::Y.into()).with_motor(bits(-1.0), bits(1e6)),
    );
    for _ in 0..120 {
        step(&set, &mut b, true);
    }
    let vy = b.linvel(1).y;
    assert!((vy + 1.0).abs() < 0.15, "the speed is {vy}");
}

#[test]
fn revolute_limit_stops_rotation_at_both_ends() {
    for (target, lo, hi) in [(6.0f32, -0.5f32, 0.5f32), (-6.0, -0.4, 0.9)] {
        let mut b = world();
        let set = joined(
            hooked(JointKind::Revolute)
                .with_axis(Vec3::Y.into())
                .with_limits(bits(lo), bits(hi))
                .with_motor(bits(target), bits(1e6)),
        );
        let mut worst = 0.0f32;
        for _ in 0..300 {
            step(&set, &mut b, true);
            let q = b.rot(0).conjugate().mul_quat(b.rot(1));
            let theta = 2.0 * Vec3::new(q.x, q.y, q.z).dot(Vec3::Y).atan2(q.w);
            worst = worst.max((lo - theta).max(theta - hi));
        }
        assert!(worst < 0.05, "the box turns {worst} beyond [{lo}, {hi}]");
    }
}

#[test]
fn revolute_limit_allows_free_motion_inside() {
    let mut b = world();
    b.set_angvel(1, Vec3::new(0.0, 0.3, 0.0));
    let set = joined(
        hooked(JointKind::Revolute).with_axis(Vec3::Y.into()).with_limits(bits(-1.0), bits(1.0)),
    );
    for _ in 0..300 {
        step(&set, &mut b, false);
    }
    assert!(b.angvel(1).y > 0.25, "the spin is {}", b.angvel(1).y);
}

#[test]
fn prismatic_limit_stops_travel_at_both_ends() {
    for (target, lo, hi) in [(-8.0f32, -0.5f32, 0.2f32), (8.0, -0.5, 0.6)] {
        let mut b = world();
        let set = joined(
            hooked(JointKind::Prismatic)
                .with_axis(Vec3::Y.into())
                .with_limits(bits(lo), bits(hi))
                .with_motor(bits(target), bits(1e6)),
        );
        let mut worst = 0.0f32;
        let mut last_over = 0.0f32;
        for _ in 0..300 {
            step(&set, &mut b, true);
            let s = gap(&b).y;
            let over = (lo - s).max(s - hi);
            worst = worst.max(over);
            last_over = over;
        }
        let bound = 8.0 * SUBSTEP * 1.05;
        assert!(worst < bound, "the box slides {worst} beyond [{lo}, {hi}]");
        assert!(last_over <= 1e-4, "the box stays {last_over} beyond [{lo}, {hi}]");
    }
}

#[test]
fn prismatic_limit_allows_free_travel_inside() {
    let mut b = world();
    b.set_linvel(1, Vec3::new(0.0, 0.5, 0.0));
    let set = joined(
        hooked(JointKind::Prismatic).with_axis(Vec3::Y.into()).with_limits(bits(-2.0), bits(2.0)),
    );
    for _ in 0..60 {
        step(&set, &mut b, false);
    }
    let vy = b.linvel(1).y;
    assert!((vy - 0.5).abs() < 0.05, "the speed is {vy}");
}

#[test]
fn distance_holds_rest_length() {
    let mut b = world();
    let d0 = (b.pos(1) - b.pos(0)).length();
    let set = joined(
        Joint::new(JointKind::Distance, 0, 1, Vec3::ZERO.into(), Vec3::ZERO.into())
            .with_rest(bits(d0)),
    );
    let mut worst = 0.0f32;
    for _ in 0..240 {
        step(&set, &mut b, true);
        worst = worst.max(((b.pos(1) - b.pos(0)).length() - d0).abs());
    }
    assert!(worst < 0.35, "the length is off by {worst}");
}

/// Two still bodies and a sleeping pair are left alone.
#[test]
fn joints_leave_other_bodies_alone() {
    let mut b = world();
    b.solid_box(Vec3::splat(1.0), Vec3::new(9.0, 0.0, 0.0), 1.0);
    b.set_linvel(2, Vec3::X);
    b.set_linvel(1, Vec3::new(2.0, 0.0, 0.0));
    let set = joined(hooked(JointKind::Spherical));
    step(&set, &mut b, true);
    assert_eq!(b.linvel(2), Vec3::X);
    assert_eq!(b.linvel(0), Vec3::ZERO);
    assert_ne!(b.linvel(1), Vec3::new(2.0, -9.81 * SUBSTEP, 0.0));
}

/// A joint with one moving end wakes the other one.
#[test]
fn joints_wake_their_bodies() {
    let mut b = world();
    b.solid_box(Vec3::splat(1.0), Vec3::new(9.0, 0.0, 0.0), 1.0);
    b.set.awake[1] = false;
    let mut set = joined(hooked(JointKind::Spherical));
    assert!(set.active_joints(&b.set).is_empty());
    set.wake(&mut b.set);
    assert!(!b.set.awake[1]);
    set.add(Joint::new(JointKind::Fixed, 2, 1, Vec3::ZERO.into(), Vec3::ZERO.into()));
    set.wake(&mut b.set);
    assert!(b.set.awake[1]);
    assert_eq!(set.active_joints(&b.set), vec![0, 1]);
    assert_eq!((set.len(), set.is_empty()), (2, false));
    set.clear();
    assert!(set.is_empty());
}

/// The rows of every kind of joint.
#[test]
fn joints_have_their_rows() {
    let count = |j: Joint| joint_rows(&j, true, bits(120.0)).len();
    assert!(joint_rows(&hooked(JointKind::Fixed), false, bits(120.0)).is_empty());
    let spherical = count(hooked(JointKind::Spherical));
    let fixed = count(hooked(JointKind::Fixed));
    let revolute = count(hooked(JointKind::Revolute));
    assert!(spherical >= 1 && fixed > spherical && revolute > spherical);
    let limited = hooked(JointKind::Revolute).with_limits(bits(-1.0), bits(1.0));
    assert_eq!(count(limited), revolute + 1);
    assert_eq!(count(limited.with_motor(bits(1.0), bits(1.0))), revolute + 2);
    assert_eq!(count(hooked(JointKind::Distance)), 1);
    assert_eq!((joint_sweeps(0), joint_sweeps(7)), (1, 7));
    assert_eq!(limit_side(bits(2.0), bits(-1.0), bits(1.0)), LimitSide::Above);
    assert_eq!(limit_side(bits(-2.0), bits(-1.0), bits(1.0)), LimitSide::Below);
    assert_eq!(limit_side(bits(0.0), bits(-1.0), bits(1.0)), LimitSide::Inside);
}

fn touching(depth: f32, y: f32) -> Manifold {
    let p = ContactPoint {
        point: Vec3::new(0.0, y - 0.5, 0.0).into(),
        depth: bits(depth),
        feature: 0,
    };
    Manifold {
        a: 0,
        b: 1,
        normal: Vec3::new(0.0, -1.0, 0.0).into(),
        points: ContactPoints::from_slice(&[p]),
    }
}

#[test]
fn resting_box_velocities_damp_to_zero() {
    let mut b = Bodies::default();
    b.solid_box(Vec3::splat(0.5), Vec3::new(0.0, 2.5, 0.0), 1.0);
    b.push_static(
        Shape::Box { half: Vec3::new(10.0, 0.5, 10.0).into() },
        Vec3::ZERO,
        Quat::IDENTITY,
    );
    let cfg = settings();
    let skin = 0.01f32;
    let mut solver = Solver::new(skin);
    let dt = 1.0f32 / 60.0;
    let mut y = 2.5f32;
    for _ in 0..300 {
        if b.set.awake[0] {
            b.fall(0, dt);
        }
        let depth = 1.0 - y;
        if depth > -skin {
            solver.solve(&mut b, &[touching(depth, y)], &cfg, &Plain, dt);
        } else {
            solver.solve(&mut b, &[], &cfg, &Plain, dt);
        }
        y += b.linvel(0).y * dt;
        b.set.position[0] = Vec3::new(0.0, y, 0.0).into();
    }
    assert!((y - 1.0).abs() < 0.05, "the box rests at {y}");
    assert!(b.linvel(0).y.abs() < 0.05, "the speed is {:?}", b.linvel(0));
    assert!(!b.set.awake[0]);
}

/// A scene of two towers, solved for a while.
fn towers(cfg: &Config, threads: usize) -> Bodies {
    let mut b = Bodies::default();
    let half = Vec3::splat(0.5);
    for x in [0.0f32, 9.0] {
        b.solid_box(half, Vec3::new(x, 0.99, 0.0), 1.0);
        b.solid_box(half, Vec3::new(x + 0.1, 1.98, 0.0), 2.0);
    }
    let floor = b.push_static(
        Shape::Box { half: Vec3::new(20.0, 0.5, 20.0).into() },
        Vec3::ZERO,
        Quat::IDENTITY,
    );
    let mut solver = Solver::new(0.01);
    solver.threads = threads;
    for _ in 0..20 {
        let mut all = Vec::new();
        for (lower, upper) in [(floor, 0u32), (0, 1), (floor, 2), (2, 3)] {
            let (pl, pu) = (b.pos(lower as usize), b.pos(upper as usize));
            let pts: Vec<ContactPoint> = [(-0.4f32, -0.4f32), (0.4, -0.4), (0.4, 0.4), (-0.4, 0.4)]
                .iter()
                .enumerate()
                .map(|(k, (x, z))| ContactPoint {
                    point: Vec3::new(pu.x + x, pu.y - 0.5, pu.z + z).into(),
                    depth: bits(pl.y + 1.0 - pu.y),
                    feature: k as u32,
                })
                .collect();
            all.push(Manifold {
                a: lower,
                b: upper,
                normal: Vec3::Y.into(),
                points: ContactPoints::from_slice(&pts),
            });
        }
        for i in 0..4 {
            b.fall(i, SUBSTEP);
        }
        solver.solve(&mut b, &all, cfg, &Plain, SUBSTEP);
        b.integrate(SUBSTEP);
        solver.solve_unbiased(&mut b, &all, cfg, &Plain, SUBSTEP);
    }
    b
}

/// The number of groups that the islands are split into changes nothing.
#[test]
fn groups_change_no_result() {
    let one = towers(&settings(), 1);
    for threads in [2usize, 3, 8] {
        let many = towers(&settings(), threads);
        assert!(one.set.linvel == many.set.linvel);
        assert!(one.set.angvel == many.set.angvel);
        assert!(one.set.position == many.set.position);
    }
    assert!(one.linvel(0).length() < 0.2, "{:?}", one.linvel(0));
    assert!((one.pos(1).y - 1.98).abs() < 0.02);
}

/// What a group of bodies does changes nothing for another.
#[test]
fn islands_do_not_meet() {
    let b = towers(&settings(), 1);
    let d = b.pos(2) - b.pos(0);
    assert!((d.x - 9.0).abs() < 1e-4 && d.y.abs() < 1e-6);
}

/// Without contacts a body rests only when it is slow for long enough.
#[test]
fn bodies_fall_asleep_in_time() {
    let mut b = Bodies::default();
    b.solid_box(Vec3::splat(0.5), Vec3::ZERO, 1.0);
    b.solid_box(Vec3::splat(0.5), Vec3::new(5.0, 0.0, 0.0), 1.0);
    b.set_linvel(1, Vec3::X);
    let mut solver = Solver::new(0.01);
    let cfg = settings();
    for k in 0..40 {
        solver.solve(&mut b, &[], &cfg, &Plain, SUBSTEP);
        assert!(b.set.awake[0], "asleep after {k}");
    }
    for _ in 0..40 {
        solver.solve(&mut b, &[], &cfg, &Plain, SUBSTEP);
    }
    assert!(!b.set.awake[0]);
    assert!(b.set.awake[1]);
}

/// A stretched pair is pulled together, a squeezed one pushed apart.
#[test]
fn distance_returns_to_its_rest_length() {
    for factor in [0.5f32, 2.0] {
        let mut b = world();
        let d0 = (b.pos(1) - b.pos(0)).length();
        let set = joined(
            Joint::new(JointKind::Distance, 0, 1, Vec3::ZERO.into(), Vec3::ZERO.into())
                .with_rest(bits(d0 * factor)),
        );
        for _ in 0..240 {
            step(&set, &mut b, false);
        }
        let off = ((b.pos(1) - b.pos(0)).length() - d0 * factor).abs();
        assert!(off < 0.05, "the length is off by {off}");
    }
}

/// Cached impulses never pull, and a second solve finds those of the first.
#[test]
fn contacts_push_and_are_remembered() {
    let mut b = Bodies::default();
    b.solid_box(Vec3::splat(0.5), Vec3::new(0.0, 0.99, 0.0), 1.0);
    b.push_static(Shape::Box { half: Vec3::splat(0.5).into() }, Vec3::ZERO, Quat::IDENTITY);
    b.set_linvel(0, Vec3::new(0.0, -1.0, 0.0));
    let ms = [touching(0.01, 0.99)];
    let mut solver = Solver::new(0.01);
    let cfg = settings();
    let pushed = |s: &Solver| -> Vec<f32> {
        s.core
            .warm
            .slots
            .iter()
            .flat_map(|w| w.value.pts().into_iter().map(|p| num(p.pn)))
            .collect()
    };
    solver.solve(&mut b, &ms, &cfg, &Plain, SUBSTEP);
    let first = pushed(&solver);
    assert!(!first.is_empty() && first.iter().all(|p| *p >= 0.0));
    assert!(first.iter().any(|p| *p > 0.0));
    assert_eq!(warm_match_stats_take(&mut solver.counters), (0, 0, 0));
    solver.solve(&mut b, &ms, &cfg, &Plain, SUBSTEP);
    let (exact, near, missed) = warm_match_stats_take(&mut solver.counters);
    assert_eq!((exact + near, missed), (first.len() as u64, 0));
    b.set_linvel(0, Vec3::new(0.0, 5.0, 0.0));
    solver.solve(&mut b, &ms, &cfg, &Plain, SUBSTEP);
    assert!(pushed(&solver).iter().all(|p| *p == 0.0));
    assert_eq!(sleep_diag_deep_take(&mut solver.counters), (0, 0));
}

/// A sleeping pile keeps still, whatever the cache holds for it, and nothing is put
/// elsewhere.
#[test]
fn sleepers_are_left_alone() {
    for per_body in [false, true] {
        let mut cfg = settings();
        cfg.per_body_sleep = per_body;
        let mut b = Bodies::default();
        b.solid_box(Vec3::splat(0.5), Vec3::new(0.0, 0.99, 0.0), 1.0);
        b.push_static(Shape::Box { half: Vec3::splat(0.5).into() }, Vec3::ZERO, Quat::IDENTITY);
        b.solid_box(Vec3::splat(0.5), Vec3::new(5.0, 0.0, 0.0), 1.0);
        b.set_linvel(0, Vec3::new(0.0, -1.0, 0.0));
        let ms = [touching(0.01, 0.99)];
        let mut solver = Solver::new(0.01);
        solver.solve(&mut b, &ms, &cfg, &Plain, SUBSTEP);
        b.set.awake[0] = false;
        b.set.sleep_timer[0] = bits(3.0);
        b.set.linvel[0] = Vec3::new(0.0, -0.25, 0.0).into();
        b.set.linvel[1] = Vec3::new(0.5, 0.0, 0.0).into();
        let (lin, ang) = (b.set.linvel.clone(), b.set.angvel.clone());
        let (pos, rot) = (b.set.position.clone(), b.set.rotation.clone());
        solver.solve(&mut b, &ms, &cfg, &Plain, SUBSTEP);
        assert!(b.set.linvel[..2] == lin[..2] && b.set.angvel[..2] == ang[..2]);
        assert!(b.set.position == pos && b.set.rotation == rot);
        assert_eq!((b.set.awake[0], num(b.set.sleep_timer[0])), (false, 3.0));
    }
}

/// A serial solve is put on record as well.
#[test]
fn every_solve_is_put_on_record() {
    let mut b = Bodies::default();
    b.solid_box(Vec3::splat(0.5), Vec3::new(0.0, 0.99, 0.0), 1.0);
    b.push_static(Shape::Box { half: Vec3::splat(0.5).into() }, Vec3::ZERO, Quat::IDENTITY);
    b.solid_box(Vec3::splat(0.5), Vec3::new(5.0, 0.0, 0.0), 1.0);
    let ms = [touching(0.01, 0.99)];
    let mut solver = Solver::new(0.01);
    let cfg = settings();
    solver.solve(&mut b, &ms, &cfg, &Plain, SUBSTEP);
    let d = &solver.core.island_diag;
    assert_eq!((d.islands, d.manifolds, d.g_count, d.points, d.warm_count), (2, 1, 1, 1, 1));
    assert_eq!(d.group_manifs, vec![1]);
    assert!(d.warm_bytes_per_slot > 0);
    solver.solve_unbiased(&mut b, &[], &cfg, &Plain, SUBSTEP);
    let d = &solver.core.island_diag;
    assert_eq!((d.islands, d.manifolds, d.points, d.warm_count), (2, 0, 0, 0));
    assert_eq!(d.group_manifs, vec![0]);
    b.set.awake = vec![false; 3];
    solver.solve(&mut b, &ms, &cfg, &Plain, SUBSTEP);
    let d = &solver.core.island_diag;
    assert_eq!((d.islands, d.manifolds, d.points), (0, 1, 0));
}

/// The causes of matches by distance add up to those matches.
#[test]
fn fallback_causes_add_up() {
    let mut b = Bodies::default();
    b.solid_box(Vec3::splat(0.5), Vec3::new(0.0, 0.99, 0.0), 1.0);
    b.push_static(Shape::Box { half: Vec3::splat(0.5).into() }, Vec3::ZERO, Quat::IDENTITY);
    let mut solver = Solver::new(0.01);
    let cfg = settings();
    let mut all = 0;
    for feature in [0u32, 5, 5, 9, 0x8000_0009, 0] {
        let p = ContactPoint {
            point: Vec3::new(0.0, 0.49, 0.0).into(),
            depth: bits(0.01),
            feature,
        };
        let m = Manifold { points: ContactPoints::from_slice(&[p]), ..touching(0.01, 0.99) };
        solver.solve(&mut b, &[m], &cfg, &Plain, SUBSTEP);
        let f = solver.counters.warm_fallback;
        let c = &solver.counters;
        assert_eq!(c.fallback_side + c.fallback_clip + c.fallback_hash + c.fallback_same, f);
        all = all.max(f);
    }
    assert!(all > 0);
    let (_, f, _) = warm_match_stats_take(&mut solver.counters);
    let (side, clip, hash, same) = warm_fallback_kind_take(&mut solver.counters);
    assert_eq!(side + clip + hash + same, f);
}
