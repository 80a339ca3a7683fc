//! Splats in single precision.

#![allow(dead_code)]

use std::ops::{Add, AddAssign, Mul, Neg, Sub, SubAssign};
use vxl_phys::mesh::in_band;
use vxl_phys::scalar::{Quat as QuatBits, Scalar, Vec3 as Vec3Bits};
use vxl_phys::splat::{GaussianSplatField, Splat, export_splats};

/// The bit pattern of a number.
pub fn bits(v: f32) -> Scalar {
    Scalar { bits: v.to_bits() }
}

/// The number of a bit pattern.
pub fn num(s: Scalar) -> f32 {
    f32::from_bits(s.bits)
}

/// The bit patterns of a list of numbers.
pub fn all_bits(v: &[f32]) -> Vec<Scalar> {
    v.iter().map(|x| bits(*x)).collect()
}

#[derive(Clone, Copy, Debug, PartialEq, Default)]
pub struct Vec3 {
    pub x: f32,
    pub y: f32,
    pub z: f32,
}

impl Vec3 {
    pub const ZERO: Vec3 = Vec3 { x: 0.0, y: 0.0, z: 0.0 };
    pub const X: Vec3 = Vec3 { x: 1.0, y: 0.0, z: 0.0 };
    pub const Y: Vec3 = Vec3 { x: 0.0, y: 1.0, z: 0.0 };
    pub const Z: Vec3 = Vec3 { x: 0.0, y: 0.0, z: 1.0 };

    pub fn new(x: f32, y: f32, z: f32) -> Vec3 {
        Vec3 { x, y, z }
    }

    pub fn splat(v: f32) -> Vec3 {
        Vec3::new(v, v, v)
    }

    pub fn dot(self, o: Vec3) -> f32 {
        self.x * o.x + self.y * o.y + self.z * o.z
    }

    pub fn cross(self, o: Vec3) -> Vec3 {
        Vec3::new(
            self.y * o.z - self.z * o.y,
            self.z * o.x - self.x * o.z,
            self.x * o.y - self.y * o.x,
        )
    }

    pub fn length_squared(self) -> f32 {
        self.dot(self)
    }

    pub fn length(self) -> f32 {
        self.length_squared().sqrt()
    }

    pub fn normalize(self) -> Vec3 {
        let l = self.length();
        if l > 0.0 {
            self * (1.0 / l)
        } else {
            Vec3::ZERO
        }
    }

    pub fn min(self, o: Vec3) -> Vec3 {
        Vec3::new(self.x.min(o.x), self.y.min(o.y), self.z.min(o.z))
    }

    pub fn max(self, o: Vec3) -> Vec3 {
        Vec3::new(self.x.max(o.x), self.y.max(o.y), self.z.max(o.z))
    }

    pub fn get(self, axis: usize) -> f32 {
        match axis {
            0 => self.x,
            1 => self.y,
            _ => self.z,
        }
    }

    /// The vector with each component given the sign of the corresponding number.
    pub fn signed(self, s: (i8, i8, i8)) -> Vec3 {
        Vec3::new(self.x * s.0 as f32, self.y * s.1 as f32, self.z * s.2 as f32)
    }
}

impl Add for Vec3 {
    type Output = Vec3;
    fn add(self, o: Vec3) -> Vec3 {
        Vec3::new(self.x + o.x, self.y + o.y, self.z + o.z)
    }
}

impl AddAssign for Vec3 {
    fn add_assign(&mut self, o: Vec3) {
        *self = *self + o;
    }
}

impl Sub for Vec3 {
    type Output = Vec3;
    fn sub(self, o: Vec3) -> Vec3 {
        Vec3::new(self.x - o.x, self.y - o.y, self.z - o.z)
    }
}

impl SubAssign for Vec3 {
    fn sub_assign(&mut self, o: Vec3) {
        *self = *self - o;
    }
}

impl Mul<f32> for Vec3 {
    type Output = Vec3;
    fn mul(self, s: f32) -> Vec3 {
        Vec3::new(self.x * s, self.y * s, self.z * s)
    }
}

impl Neg for Vec3 {
    type Output = Vec3;
    fn neg(self) -> Vec3 {
        Vec3::new(-self.x, -self.y, -self.z)
    }
}

impl From<Vec3Bits> for Vec3 {
    fn from(v: Vec3Bits) -> Vec3 {
        Vec3::new(num(v.x), num(v.y), num(v.z))
    }
}

impl From<Vec3> for Vec3Bits {
    fn from(v: Vec3) -> Vec3Bits {
        Vec3Bits { x: bits(v.x), y: bits(v.y), z: bits(v.z) }
    }
}

/// The bit patterns of a list of vectors.
pub fn all_vec_bits(v: &[Vec3]) -> Vec<Vec3Bits> {
    v.iter().map(|p| Vec3Bits::from(*p)).collect()
}

/// A unit quaternion.
#[derive(Clone, Copy, Debug, PartialEq)]
pub struct Quat {
    pub x: f32,
    pub y: f32,
    pub z: f32,
    pub w: f32,
}

impl Quat {
    pub const IDENTITY: Quat = Quat { x: 0.0, y: 0.0, z: 0.0, w: 1.0 };

    pub fn from_axis_angle(axis: Vec3, angle: f32) -> Quat {
        let (s, c) = (angle * 0.5).sin_cos();
        Quat { x: axis.x * s, y: axis.y * s, z: axis.z * s, w: c }
    }

    pub fn conjugate(self) -> Quat {
        Quat { x: -self.x, y: -self.y, z: -self.z, w: self.w }
    }

    pub fn mul_quat(self, o: Quat) -> Quat {
        Quat {
            x: self.w * o.x + self.x * o.w + self.y * o.z - self.z * o.y,
            y: self.w * o.y - self.x * o.z + self.y * o.w + self.z * o.x,
            z: self.w * o.z + self.x * o.y - self.y * o.x + self.z * o.w,
            w: self.w * o.w - self.x * o.x - self.y * o.y - self.z * o.z,
        }
    }

    pub fn normalize(self) -> Quat {
        let l = (self.x * self.x + self.y * self.y + self.z * self.z + self.w * self.w).sqrt();
        if l > 0.0 {
            let i = 1.0 / l;
            Quat { x: self.x * i, y: self.y * i, z: self.z * i, w: self.w * i }
        } else {
            Quat::IDENTITY
        }
    }

    pub fn rotate_vec3(self, v: Vec3) -> Vec3 {
        let q = Vec3::new(self.x, self.y, self.z);
        let t = q.cross(v) * 2.0;
        v + t * self.w + q.cross(t)
    }
}

impl From<QuatBits> for Quat {
    fn from(q: QuatBits) -> Quat {
        Quat { x: num(q.x), y: num(q.y), z: num(q.z), w: num(q.w) }
    }
}

impl From<Quat> for QuatBits {
    fn from(q: Quat) -> QuatBits {
        QuatBits { x: bits(q.x), y: bits(q.y), z: bits(q.z), w: bits(q.w) }
    }
}

/// A matrix of three columns.
#[derive(Clone, Copy, Debug, PartialEq)]
pub struct Mat3 {
    pub c: [Vec3; 3],
}

impl Mat3 {
    pub const IDENTITY: Mat3 = Mat3 { c: [Vec3::X, Vec3::Y, Vec3::Z] };
    pub const ZERO: Mat3 = Mat3 { c: [Vec3::ZERO, Vec3::ZERO, Vec3::ZERO] };

    pub fn from_quat(q: Quat) -> Mat3 {
        Mat3 { c: [q.rotate_vec3(Vec3::X), q.rotate_vec3(Vec3::Y), q.rotate_vec3(Vec3::Z)] }
    }

    pub fn from_diagonal(d: Vec3) -> Mat3 {
        Mat3 { c: [Vec3::X * d.x, Vec3::Y * d.y, Vec3::Z * d.z] }
    }

    pub fn mul_vec3(self, v: Vec3) -> Vec3 {
        self.c[0] * v.x + self.c[1] * v.y + self.c[2] * v.z
    }

    pub fn transpose(self) -> Mat3 {
        let [a, b, c] = self.c;
        Mat3 {
            c: [Vec3::new(a.x, b.x, c.x), Vec3::new(a.y, b.y, c.y), Vec3::new(a.z, b.z, c.z)],
        }
    }

    pub fn mul_mat3(self, o: Mat3) -> Mat3 {
        Mat3 { c: [self.mul_vec3(o.c[0]), self.mul_vec3(o.c[1]), self.mul_vec3(o.c[2])] }
    }

    pub fn add_mat3(self, o: Mat3) -> Mat3 {
        Mat3 { c: [self.c[0] + o.c[0], self.c[1] + o.c[1], self.c[2] + o.c[2]] }
    }

    /// The inverse; zero if the matrix has none.
    pub fn inverse(self) -> Mat3 {
        let [a, b, c] = self.c;
        let det = a.dot(b.cross(c));
        if det.abs() <= f32::MIN_POSITIVE {
            return Mat3::ZERO;
        }
        let i = 1.0 / det;
        Mat3 { c: [b.cross(c) * i, c.cross(a) * i, a.cross(b) * i] }.transpose()
    }
}

/// A box along the axes.
#[derive(Clone, Copy, Debug)]
pub struct Aabb {
    pub min: Vec3,
    pub max: Vec3,
}

/// A point of a surface near a query point. The distance is positive outside.
#[derive(Clone, Copy, Debug)]
pub struct SurfaceHit {
    pub point: Vec3,
    pub normal: Vec3,
    pub signed_dist: f32,
}

/// A contact with a surface; the normal points out of it, and a positive depth is
/// a penetration.
#[derive(Clone, Copy, Debug)]
pub struct InteropContact {
    pub point: Vec3,
    pub normal: Vec3,
    pub depth: f32,
    pub feature: u32,
}

/// A surface that knows its nearest point.
pub trait CollisionProvider {
    fn bounds(&self) -> Aabb;

    fn closest_point(&self, p: Vec3) -> Option<SurfaceHit>;

    /// The corners of a box that touch the surface.
    fn contacts_box(
        &self,
        half: Vec3,
        pos: Vec3,
        rot: Quat,
        skin: f32,
        out: &mut Vec<InteropContact>,
    ) -> bool {
        let mut any = false;
        for corner in 0..8usize {
            let p = pos + rot.rotate_vec3(half.signed(vxl_phys::planes::corner_signs(corner)));
            if let Some(hit) = self.closest_point(p) {
                let depth = -hit.signed_dist;
                if depth > -skin {
                    out.push(InteropContact {
                        point: hit.point,
                        normal: hit.normal,
                        depth,
                        feature: corner as u32,
                    });
                    any = true;
                }
            }
        }
        any
    }
}

/// Surfaces by number. A query returns whether it is supported; an unsupported one
/// adds nothing.
pub trait ProviderColliders {
    fn bounds(&self, id: u32) -> Option<Aabb>;

    fn contacts_box(
        &self,
        id: u32,
        half: Vec3,
        pos: Vec3,
        rot: Quat,
        skin: f32,
        out: &mut Vec<InteropContact>,
    ) -> bool;

    fn contacts_point(&self, id: u32, p: Vec3, skin: f32, out: &mut Vec<InteropContact>) -> bool;

    /// As `contacts_point`, but sound for points deep inside.
    fn contacts_point_boundary(
        &self,
        id: u32,
        p: Vec3,
        skin: f32,
        out: &mut Vec<InteropContact>,
    ) -> bool {
        self.contacts_point(id, p, skin, out)
    }

    fn contacts_sphere(
        &self,
        id: u32,
        center: Vec3,
        radius: f32,
        skin: f32,
        out: &mut Vec<InteropContact>,
    ) -> bool;
}

/// No surfaces at all.
pub struct NoProviders;

impl ProviderColliders for NoProviders {
    fn bounds(&self, _id: u32) -> Option<Aabb> {
        None
    }

    fn contacts_box(
        &self,
        _id: u32,
        _half: Vec3,
        _pos: Vec3,
        _rot: Quat,
        _skin: f32,
        _out: &mut Vec<InteropContact>,
    ) -> bool {
        false
    }

    fn contacts_point(&self, _: u32, _: Vec3, _: f32, _: &mut Vec<InteropContact>) -> bool {
        false
    }

    fn contacts_sphere(
        &self,
        _id: u32,
        _center: Vec3,
        _radius: f32,
        _skin: f32,
        _out: &mut Vec<InteropContact>,
    ) -> bool {
        false
    }
}

fn splat_axes(s: &Splat) -> [Vec3; 3] {
    [s.rot[0].into(), s.rot[1].into(), s.rot[2].into()]
}

/// The density at a point and its gradient.
pub fn splat_density_grad(field: &GaussianSplatField, p: Vec3) -> (f32, Vec3) {
    let mut sum = 0.0;
    let mut grad = Vec3::ZERO;
    for s in field.splats() {
        let ax = splat_axes(s);
        let (scale, d) = (Vec3::from(s.scale), p - Vec3::from(s.center));
        let mut alpha = 0.0;
        let mut inner = Vec3::ZERO;
        for (j, a) in ax.iter().enumerate() {
            let sj = scale.get(j).max(1e-4);
            let t = d.dot(*a) / sj;
            alpha += t * t;
            inner += *a * (d.dot(*a) / (sj * sj));
        }
        if alpha > num(field.cut) {
            continue;
        }
        let e = (-0.5 * alpha).exp() * num(s.opacity);
        sum += e;
        grad += inner * (-e);
    }
    (sum, grad)
}

/// The distance that a density stands for; negative inside.
fn splat_distance(iso: f32, s: f32, slope: f32) -> f32 {
    if slope >= 1e-6 {
        (iso - s) / slope
    } else if s > iso {
        -(s - iso).sqrt().min(1.0)
    } else {
        (iso - s).sqrt().min(1.0)
    }
}

/// The signed distance of a point from the field.
pub fn splat_sdf(field: &GaussianSplatField, p: Vec3) -> f32 {
    let (s, g) = splat_density_grad(field, p);
    splat_distance(num(field.iso), s, g.length())
}

fn splat_outward(g: Vec3) -> Vec3 {
    let l = g.length();
    if l > 1e-6 {
        -g * (1.0 / l)
    } else {
        Vec3::Y
    }
}

/// The box around the field.
pub fn splat_world_bounds(field: &GaussianSplatField) -> Aabb {
    if field.is_empty() {
        return Aabb { min: Vec3::ZERO, max: Vec3::ZERO };
    }
    let (mut lo, mut hi) = (Vec3::splat(f32::INFINITY), Vec3::splat(f32::NEG_INFINITY));
    for s in field.splats() {
        let (c, scale) = (Vec3::from(s.center), Vec3::from(s.scale));
        let r = Vec3::splat(scale.x.max(scale.y).max(scale.z) * 3.0);
        lo = lo.min(c - r);
        hi = hi.max(c + r);
    }
    Aabb { min: lo - Vec3::splat(0.1), max: hi + Vec3::splat(0.1) }
}

impl ProviderColliders for GaussianSplatField {
    fn bounds(&self, _id: u32) -> Option<Aabb> {
        Some(splat_world_bounds(self))
    }

    fn contacts_point(&self, _id: u32, p: Vec3, skin: f32, out: &mut Vec<InteropContact>) -> bool {
        let (s, g) = splat_density_grad(self, p);
        let depth = skin - splat_distance(num(self.iso), s, g.length());
        if in_band(bits(depth), bits(skin)) {
            out.push(InteropContact { point: p, normal: splat_outward(g), depth, feature: 0 });
        }
        true
    }

    fn contacts_box(
        &self,
        id: u32,
        half: Vec3,
        pos: Vec3,
        rot: Quat,
        skin: f32,
        out: &mut Vec<InteropContact>,
    ) -> bool {
        let m = Mat3::from_quat(rot);
        for i in 0..3usize {
            let (j, k) = ((i + 1) % 3, (i + 2) % 3);
            for side in [-1.0f32, 1.0] {
                let center = pos + m.c[i] * (side * half.get(i));
                self.contacts_point(id, center, skin, out);
                for (su, sv) in [(-1.0f32, -1.0f32), (-1.0, 1.0), (1.0, -1.0), (1.0, 1.0)] {
                    let corner =
                        center + m.c[j] * (su * half.get(j)) + m.c[k] * (sv * half.get(k));
                    self.contacts_point(id, corner, skin, out);
                }
            }
        }
        true
    }

    fn contacts_sphere(
        &self,
        _id: u32,
        center: Vec3,
        radius: f32,
        skin: f32,
        out: &mut Vec<InteropContact>,
    ) -> bool {
        let f = splat_sdf(self, center);
        let depth = radius - f;
        if in_band(bits(depth), bits(skin)) {
            let n = splat_outward(splat_density_grad(self, center).1);
            out.push(InteropContact {
                point: center - n * radius.min(f.max(0.0)),
                normal: n,
                depth,
                feature: 1,
            });
        }
        true
    }
}

// ---- fields of one splat

fn one_splat() -> GaussianSplatField {
    let mut f = GaussianSplatField::new(bits(0.5));
    f.push(Splat::isotropic(Vec3::ZERO.into(), bits(0.5), bits(1.0)));
    f
}

#[test]
fn density_peak_and_decay_match_analytic() {
    let f = one_splat();
    let (s0, _) = splat_density_grad(&f, Vec3::ZERO);
    assert!((s0 - 1.0).abs() < 1e-6, "{s0}");
    let (s1, _) = splat_density_grad(&f, Vec3::new(0.5, 0.0, 0.0));
    assert!((s1 - (-0.5f32).exp()).abs() < 1e-6, "{s1}");
    let (s2, _) = splat_density_grad(&f, Vec3::new(2.0, 0.0, 0.0));
    assert_eq!(s2, 0.0);
}

#[test]
fn sdf_sign_and_surface() {
    let f = one_splat();
    assert!(splat_sdf(&f, Vec3::ZERO) < 0.0);
    assert!(splat_sdf(&f, Vec3::new(1.4, 0.0, 0.0)) > 0.0);
    let r_iso = 0.5 * (2.0f32 * (1.0f32 / 0.5).ln()).sqrt();
    let s = splat_sdf(&f, Vec3::new(r_iso, 0.0, 0.0));
    assert!(s.abs() < 0.05, "{s}");
}

#[test]
fn contact_normal_points_outward() {
    let f = one_splat();
    let mut out = Vec::new();
    let p = Vec3::new(0.4, 0.0, 0.0);
    assert!(f.contacts_point(0, p, 0.05, &mut out));
    assert_eq!(out.len(), 1);
    assert!(out[0].normal.x > 0.9, "{:?}", out[0].normal);
    assert!(out[0].depth > 0.0, "{}", out[0].depth);
    out.clear();
    f.contacts_point(0, Vec3::new(3.0, 0.0, 0.0), 0.05, &mut out);
    assert!(out.is_empty());
}

#[test]
fn anisotropic_splat_elongates_along_axis() {
    let mut f = GaussianSplatField::new(bits(0.5));
    f.push(Splat {
        center: Vec3::ZERO.into(),
        scale: Vec3::new(0.15, 0.15, 1.0).into(),
        rot: [Vec3::X.into(), Vec3::Y.into(), Vec3::Z.into()],
        opacity: bits(1.0),
        color: [bits(1.0), bits(1.0), bits(1.0)],
    });
    let fz = splat_sdf(&f, Vec3::new(0.0, 0.0, 0.8));
    let fx = splat_sdf(&f, Vec3::new(0.8, 0.0, 0.0));
    assert!(fz < fx, "{fz} and {fx}");
}

#[test]
fn export_roundtrip_is_bitwise() {
    let f = one_splat();
    let mut out = Vec::new();
    export_splats(&f, &mut out);
    assert_eq!(out.len(), 1);
    assert_eq!(Vec3::from(out[0].center), Vec3::ZERO);
    assert_eq!(out[0].color, [bits(0.8), bits(0.85), bits(0.95)]);
}

/// An export replaces what was there.
#[test]
fn exports_start_afresh() {
    let mut f = one_splat();
    f.push(Splat::isotropic(Vec3::X.into(), bits(0.25), bits(0.5)));
    let mut out = vec![Splat::isotropic(Vec3::Y.into(), bits(9.0), bits(9.0))];
    export_splats(&f, &mut out);
    assert_eq!(out.len(), 2);
    assert_eq!(Vec3::from(out[1].center), Vec3::X);
    assert_eq!((out[1].scale.x, out[1].opacity), (bits(0.25), bits(0.5)));
    assert_eq!((f.len(), f.is_empty(), GaussianSplatField::new(bits(1.0)).is_empty()), (2, false, true));
    assert_eq!(num(f.cut), 9.0);
    let b = splat_world_bounds(&f);
    assert_eq!((b.min.x, b.max.x), (-1.6, 1.85));
    assert_eq!(splat_world_bounds(&GaussianSplatField::new(bits(0.5))).max, Vec3::ZERO);
}

/// Boxes and spheres against a splat.
#[test]
fn solids_touch_splats() {
    let f = one_splat();
    let mut out = Vec::new();
    let at = Vec3::new(0.0, 1.0, 0.0);
    assert!(f.contacts_box(0, Vec3::splat(0.5), at, Quat::IDENTITY, 0.1, &mut out));
    assert!(!out.is_empty());
    for c in &out {
        assert!(c.normal.y > 0.0, "{:?}", c.normal);
    }
    out.clear();
    assert!(f.contacts_sphere(0, at, 0.6, 0.1, &mut out));
    assert_eq!((out.len(), out[0].feature), (1, 1));
    assert!(out[0].normal.y > 0.99);
    out.clear();
    assert!(f.contacts_sphere(0, Vec3::new(9.0, 0.0, 0.0), 0.1, 0.1, &mut out));
    assert!(out.is_empty());
}
