//! Pairs of shapes in single precision.

#![allow(dead_code)]

use std::cell::RefCell;
use std::ops::{Add, AddAssign, Mul, Neg, Sub, SubAssign};
use vxl_phys::body::BodySet;
use vxl_phys::contact::{ContactPoint, ContactPoints, Manifold, Touch};
use vxl_phys::cut::clip_halfspace as cut_cloud;
use vxl_phys::dispatch::{ClipProbe, ProviderQuery, Route, SolidKind, SphereGap, TerrainQuery, first_feature, oriented_normal, provider_query, solid_of, terrain_query};
use vxl_phys::epa::{AxisOverlap, AxisWay, EpaArith, WayOut, way_out};
use vxl_phys::gjk::{Between, EdgeTest, Gjk, GjkEnd, PlanePoint, SimplexArith, SimplexVertex, gjk_inner as query};
use vxl_phys::mesh::{TriProducts, TriRegion, tri_region};
use vxl_phys::narrow::{DefaultNarrowPhase, PairTests, Placed, axis_reach};
use vxl_phys::poly_pair::{ClipArith, clip, sat};
use vxl_phys::polytope::{ConvexPolytope, PolyCache, WorldPoly, box_corner_point, box_face_corner, box_sign, face_normal_of, plane_scan, poly_key, ring_size, rot_fp};
use vxl_phys::reduce::{SurfaceContact, band_contacts, four_corner_points, hull_contacts, pick_dominant_normal, select_contacts};
use vxl_phys::sat::{AxisGap, AxisSrc, AxisTest, ClipSide, SatHit, reference_side, sat_scan};
use vxl_phys::scalar::{Quat as QuatBits, Scalar, Vec3 as Vec3Bits};
use vxl_phys::select::{find_first_least, keep_distinct};
use vxl_phys::shape::Shape;
use vxl_phys::store::{BoxSupport, CapsuleSupport, CompoundChild, ConvexHull, HullSupport, PrismSupport, Support as LocalSupport};
use vxl_phys::terrain::HeightField;

/// The bit pattern of a number.
pub fn bits(v: f32) -> Scalar {
    Scalar { bits: v.to_bits() }
}

/// The number of a bit pattern.
pub fn num(s: Scalar) -> f32 {
    f32::from_bits(s.bits)
}

/// The bit patterns of a list of numbers.
pub fn all_bits(v: &[f32]) -> Vec<Scalar> {
    v.iter().map(|x| bits(*x)).collect()
}

#[derive(Clone, Copy, Debug, PartialEq, Default)]
pub struct Vec3 {
    pub x: f32,
    pub y: f32,
    pub z: f32,
}

impl Vec3 {
    pub const ZERO: Vec3 = Vec3 { x: 0.0, y: 0.0, z: 0.0 };
    pub const X: Vec3 = Vec3 { x: 1.0, y: 0.0, z: 0.0 };
    pub const Y: Vec3 = Vec3 { x: 0.0, y: 1.0, z: 0.0 };
    pub const Z: Vec3 = Vec3 { x: 0.0, y: 0.0, z: 1.0 };

    pub fn new(x: f32, y: f32, z: f32) -> Vec3 {
        Vec3 { x, y, z }
    }

    pub fn splat(v: f32) -> Vec3 {
        Vec3::new(v, v, v)
    }

    pub fn dot(self, o: Vec3) -> f32 {
        self.x * o.x + self.y * o.y + self.z * o.z
    }

    pub fn cross(self, o: Vec3) -> Vec3 {
        Vec3::new(
            self.y * o.z - self.z * o.y,
            self.z * o.x - self.x * o.z,
            self.x * o.y - self.y * o.x,
        )
    }

    pub fn length_squared(self) -> f32 {
        self.dot(self)
    }

    pub fn length(self) -> f32 {
        self.length_squared().sqrt()
    }

    pub fn normalize(self) -> Vec3 {
        let l = self.length();
        if l > 0.0 {
            self * (1.0 / l)
        } else {
            Vec3::ZERO
        }
    }

    pub fn min(self, o: Vec3) -> Vec3 {
        Vec3::new(self.x.min(o.x), self.y.min(o.y), self.z.min(o.z))
    }

    pub fn max(self, o: Vec3) -> Vec3 {
        Vec3::new(self.x.max(o.x), self.y.max(o.y), self.z.max(o.z))
    }

    pub fn get(self, axis: usize) -> f32 {
        match axis {
            0 => self.x,
            1 => self.y,
            _ => self.z,
        }
    }

    /// The vector with each component given the sign of the corresponding number.
    pub fn signed(self, s: (i8, i8, i8)) -> Vec3 {
        Vec3::new(self.x * s.0 as f32, self.y * s.1 as f32, self.z * s.2 as f32)
    }
}

impl Add for Vec3 {
    type Output = Vec3;
    fn add(self, o: Vec3) -> Vec3 {
        Vec3::new(self.x + o.x, self.y + o.y, self.z + o.z)
    }
}

impl AddAssign for Vec3 {
    fn add_assign(&mut self, o: Vec3) {
        *self = *self + o;
    }
}

impl Sub for Vec3 {
    type Output = Vec3;
    fn sub(self, o: Vec3) -> Vec3 {
        Vec3::new(self.x - o.x, self.y - o.y, self.z - o.z)
    }
}

impl SubAssign for Vec3 {
    fn sub_assign(&mut self, o: Vec3) {
        *self = *self - o;
    }
}

impl Mul<f32> for Vec3 {
    type Output = Vec3;
    fn mul(self, s: f32) -> Vec3 {
        Vec3::new(self.x * s, self.y * s, self.z * s)
    }
}

impl Neg for Vec3 {
    type Output = Vec3;
    fn neg(self) -> Vec3 {
        Vec3::new(-self.x, -self.y, -self.z)
    }
}

impl From<Vec3Bits> for Vec3 {
    fn from(v: Vec3Bits) -> Vec3 {
        Vec3::new(num(v.x), num(v.y), num(v.z))
    }
}

impl From<Vec3> for Vec3Bits {
    fn from(v: Vec3) -> Vec3Bits {
        Vec3Bits { x: bits(v.x), y: bits(v.y), z: bits(v.z) }
    }
}

/// The bit patterns of a list of vectors.
pub fn all_vec_bits(v: &[Vec3]) -> Vec<Vec3Bits> {
    v.iter().map(|p| Vec3Bits::from(*p)).collect()
}

/// A unit quaternion.
#[derive(Clone, Copy, Debug, PartialEq)]
pub struct Quat {
    pub x: f32,
    pub y: f32,
    pub z: f32,
    pub w: f32,
}

impl Quat {
    pub const IDENTITY: Quat = Quat { x: 0.0, y: 0.0, z: 0.0, w: 1.0 };

    pub fn from_axis_angle(axis: Vec3, angle: f32) -> Quat {
        let (s, c) = (angle * 0.5).sin_cos();
        Quat { x: axis.x * s, y: axis.y * s, z: axis.z * s, w: c }
    }

    pub fn conjugate(self) -> Quat {
        Quat { x: -self.x, y: -self.y, z: -self.z, w: self.w }
    }

    pub fn mul_quat(self, o: Quat) -> Quat {
        Quat {
            x: self.w * o.x + self.x * o.w + self.y * o.z - self.z * o.y,
            y: self.w * o.y - self.x * o.z + self.y * o.w + self.z * o.x,
            z: self.w * o.z + self.x * o.y - self.y * o.x + self.z * o.w,
            w: self.w * o.w - self.x * o.x - self.y * o.y - self.z * o.z,
        }
    }

    pub fn normalize(self) -> Quat {
        let l = (self.x * self.x + self.y * self.y + self.z * self.z + self.w * self.w).sqrt();
        if l > 0.0 {
            let i = 1.0 / l;
            Quat { x: self.x * i, y: self.y * i, z: self.z * i, w: self.w * i }
        } else {
            Quat::IDENTITY
        }
    }

    pub fn rotate_vec3(self, v: Vec3) -> Vec3 {
        let q = Vec3::new(self.x, self.y, self.z);
        let t = q.cross(v) * 2.0;
        v + t * self.w + q.cross(t)
    }
}

impl From<QuatBits> for Quat {
    fn from(q: QuatBits) -> Quat {
        Quat { x: num(q.x), y: num(q.y), z: num(q.z), w: num(q.w) }
    }
}

impl From<Quat> for QuatBits {
    fn from(q: Quat) -> QuatBits {
        QuatBits { x: bits(q.x), y: bits(q.y), z: bits(q.z), w: bits(q.w) }
    }
}

/// A matrix of three columns.
#[derive(Clone, Copy, Debug, PartialEq)]
pub struct Mat3 {
    pub c: [Vec3; 3],
}

impl Mat3 {
    pub const IDENTITY: Mat3 = Mat3 { c: [Vec3::X, Vec3::Y, Vec3::Z] };
    pub const ZERO: Mat3 = Mat3 { c: [Vec3::ZERO, Vec3::ZERO, Vec3::ZERO] };

    pub fn from_quat(q: Quat) -> Mat3 {
        Mat3 { c: [q.rotate_vec3(Vec3::X), q.rotate_vec3(Vec3::Y), q.rotate_vec3(Vec3::Z)] }
    }

    pub fn from_diagonal(d: Vec3) -> Mat3 {
        Mat3 { c: [Vec3::X * d.x, Vec3::Y * d.y, Vec3::Z * d.z] }
    }

    pub fn mul_vec3(self, v: Vec3) -> Vec3 {
        self.c[0] * v.x + self.c[1] * v.y + self.c[2] * v.z
    }

    pub fn transpose(self) -> Mat3 {
        let [a, b, c] = self.c;
        Mat3 {
            c: [Vec3::new(a.x, b.x, c.x), Vec3::new(a.y, b.y, c.y), Vec3::new(a.z, b.z, c.z)],
        }
    }

    pub fn mul_mat3(self, o: Mat3) -> Mat3 {
        Mat3 { c: [self.mul_vec3(o.c[0]), self.mul_vec3(o.c[1]), self.mul_vec3(o.c[2])] }
    }

    pub fn add_mat3(self, o: Mat3) -> Mat3 {
        Mat3 { c: [self.c[0] + o.c[0], self.c[1] + o.c[1], self.c[2] + o.c[2]] }
    }

    /// The inverse; zero if the matrix has none.
    pub fn inverse(self) -> Mat3 {
        let [a, b, c] = self.c;
        let det = a.dot(b.cross(c));
        if det.abs() <= f32::MIN_POSITIVE {
            return Mat3::ZERO;
        }
        let i = 1.0 / det;
        Mat3 { c: [b.cross(c) * i, c.cross(a) * i, a.cross(b) * i] }.transpose()
    }
}

/// A box along the axes.
#[derive(Clone, Copy, Debug)]
pub struct Aabb {
    pub min: Vec3,
    pub max: Vec3,
}

/// A point of a surface near a query point. The distance is positive outside.
#[derive(Clone, Copy, Debug)]
pub struct SurfaceHit {
    pub point: Vec3,
    pub normal: Vec3,
    pub signed_dist: f32,
}

/// A contact with a surface; the normal points out of it, and a positive depth is
/// a penetration.
#[derive(Clone, Copy, Debug)]
pub struct InteropContact {
    pub point: Vec3,
    pub normal: Vec3,
    pub depth: f32,
    pub feature: u32,
}

/// A surface that knows its nearest point.
pub trait CollisionProvider {
    fn bounds(&self) -> Aabb;

    fn closest_point(&self, p: Vec3) -> Option<SurfaceHit>;

    /// The corners of a box that touch the surface.
    fn contacts_box(
        &self,
        half: Vec3,
        pos: Vec3,
        rot: Quat,
        skin: f32,
        out: &mut Vec<InteropContact>,
    ) -> bool {
        let mut any = false;
        for corner in 0..8usize {
            let p = pos + rot.rotate_vec3(half.signed(vxl_phys::planes::corner_signs(corner)));
            if let Some(hit) = self.closest_point(p) {
                let depth = -hit.signed_dist;
                if depth > -skin {
                    out.push(InteropContact {
                        point: hit.point,
                        normal: hit.normal,
                        depth,
                        feature: corner as u32,
                    });
                    any = true;
                }
            }
        }
        any
    }
}

/// Surfaces by number. A query returns whether it is supported; an unsupported one
/// adds nothing.
pub trait ProviderColliders {
    fn bounds(&self, id: u32) -> Option<Aabb>;

    fn contacts_box(
        &self,
        id: u32,
        half: Vec3,
        pos: Vec3,
        rot: Quat,
        skin: f32,
        out: &mut Vec<InteropContact>,
    ) -> bool;

    fn contacts_point(&self, id: u32, p: Vec3, skin: f32, out: &mut Vec<InteropContact>) -> bool;

    /// As `contacts_point`, but sound for points deep inside.
    fn contacts_point_boundary(
        &self,
        id: u32,
        p: Vec3,
        skin: f32,
        out: &mut Vec<InteropContact>,
    ) -> bool {
        self.contacts_point(id, p, skin, out)
    }

    fn contacts_sphere(
        &self,
        id: u32,
        center: Vec3,
        radius: f32,
        skin: f32,
        out: &mut Vec<InteropContact>,
    ) -> bool;
}

/// No surfaces at all.
pub struct NoProviders;

impl ProviderColliders for NoProviders {
    fn bounds(&self, _id: u32) -> Option<Aabb> {
        None
    }

    fn contacts_box(
        &self,
        _id: u32,
        _half: Vec3,
        _pos: Vec3,
        _rot: Quat,
        _skin: f32,
        _out: &mut Vec<InteropContact>,
    ) -> bool {
        false
    }

    fn contacts_point(&self, _: u32, _: Vec3, _: f32, _: &mut Vec<InteropContact>) -> bool {
        false
    }

    fn contacts_sphere(
        &self,
        _id: u32,
        _center: Vec3,
        _radius: f32,
        _skin: f32,
        _out: &mut Vec<InteropContact>,
    ) -> bool {
        false
    }
}

/// A level field.
pub fn hf_flat(origin_x: f32, origin_z: f32, nx: u32, nz: u32, spacing: f32, h: f32) -> HeightField {
    assert!(nx >= 2 && nz >= 2, "a height field has at least two nodes a side");
    assert!(spacing > 0.0, "the nodes of a height field are apart");
    assert!(nx <= i32::MAX as u32 && nz <= i32::MAX as u32, "a side has too many nodes");
    assert!(nx.checked_mul(nz).is_some(), "a height field has too many nodes");
    HeightField::flat(bits(origin_x), bits(origin_z), nx, nz, bits(spacing), bits(h))
}

pub fn hf_width_x(hf: &HeightField) -> f32 {
    (hf.nx - 1) as f32 * num(hf.spacing)
}

pub fn hf_width_z(hf: &HeightField) -> f32 {
    (hf.nz - 1) as f32 * num(hf.spacing)
}

/// Whether the field lies below or above the point.
pub fn hf_contains(hf: &HeightField, x: f32, z: f32) -> bool {
    hf.contains(
        bits(x),
        bits(z),
        bits(num(hf.origin_x) + hf_width_x(hf)),
        bits(num(hf.origin_z) + hf_width_z(hf)),
    )
}

/// The column of the point, counted in nodes.
fn hf_column(hf: &HeightField, x: f32, z: f32) -> (f32, f32) {
    let s = num(hf.spacing);
    ((x - num(hf.origin_x)) / s, (z - num(hf.origin_z)) / s)
}

/// The height and the normal of the field at a point.
pub fn hf_sample(hf: &HeightField, x: f32, z: f32) -> Option<(f32, Vec3)> {
    if !hf_contains(hf, x, z) {
        return None;
    }
    let (fx, fz) = hf_column(hf, x, z);
    let ((ix, iz), h) = hf.sample_cell(fx.floor() as i32, fz.floor() as i32);
    let (u, v) = (fx - ix as f32, fz - iz as f32);
    let (h00, h10, h01, h11) = (num(h[0]), num(h[1]), num(h[2]), num(h[3]));
    let y = h00 * (1.0 - u) * (1.0 - v) + h10 * u * (1.0 - v) + h01 * (1.0 - u) * v + h11 * u * v;
    let s = num(hf.spacing);
    let dhdx = ((h10 - h00) * (1.0 - v) + (h11 - h01) * v) / s;
    let dhdz = ((h01 - h00) * (1.0 - u) + (h11 - h10) * u) / s;
    Some((y, Vec3::new(-dhdx, 1.0, -dhdz).normalize()))
}

fn hf_boxed(hf: &HeightField, lo: f32, hi: f32) -> Aabb {
    let (x, z) = (num(hf.origin_x), num(hf.origin_z));
    Aabb {
        min: Vec3::new(x, lo, z),
        max: Vec3::new(x + hf_width_x(hf), hi, z + hf_width_z(hf)),
    }
}

impl CollisionProvider for HeightField {
    fn bounds(&self) -> Aabb {
        let (lo, hi) = HeightField::bounds(self);
        hf_boxed(self, num(lo), num(hi))
    }

    fn closest_point(&self, p: Vec3) -> Option<SurfaceHit> {
        let (h, n) = hf_sample(self, p.x, p.z)?;
        let surface = Vec3::new(p.x, h, p.z);
        Some(SurfaceHit { point: surface, normal: n, signed_dist: (p - surface).dot(n) })
    }
}

/// The bodies of a scene: what the library keeps of them, their shapes, and their
/// inverse masses and inertias.
pub struct Bodies {
    pub set: BodySet,
    pub shape: Vec<Shape>,
    pub inv_mass: Vec<f32>,
    pub local_inv_inertia: Vec<Vec3>,
}

impl Default for Bodies {
    fn default() -> Bodies {
        Bodies {
            set: BodySet::new(),
            shape: Vec::new(),
            inv_mass: Vec::new(),
            local_inv_inertia: Vec::new(),
        }
    }
}

impl Bodies {
    pub fn len(&self) -> usize {
        self.set.len()
    }

    pub fn is_empty(&self) -> bool {
        self.len() == 0
    }

    /// Adds a body that moves.
    pub fn push_dynamic(
        &mut self,
        shape: Shape,
        pos: Vec3,
        rot: Quat,
        inv_mass: f32,
        local_inv_inertia: Vec3,
    ) -> u32 {
        self.push(true, shape, pos, rot, inv_mass, local_inv_inertia)
    }

    /// Adds a body that stays where it is.
    pub fn push_static(&mut self, shape: Shape, pos: Vec3, rot: Quat) -> u32 {
        self.push(false, shape, pos, rot, 0.0, Vec3::ZERO)
    }

    fn push(
        &mut self,
        dynamic: bool,
        shape: Shape,
        pos: Vec3,
        rot: Quat,
        inv_mass: f32,
        local_inv_inertia: Vec3,
    ) -> u32 {
        assert!(self.len() < u32::MAX as usize, "there are too many bodies");
        self.shape.push(shape);
        self.inv_mass.push(inv_mass);
        self.local_inv_inertia.push(local_inv_inertia);
        self.set.push(dynamic, pos.into(), rot.into())
    }

    pub fn pos(&self, i: usize) -> Vec3 {
        self.set.position[i].into()
    }

    pub fn rot(&self, i: usize) -> Quat {
        self.set.rotation[i].into()
    }

    pub fn linvel(&self, i: usize) -> Vec3 {
        self.set.linvel[i].into()
    }

    pub fn angvel(&self, i: usize) -> Vec3 {
        self.set.angvel[i].into()
    }

    /// The inverse inertia of a body in the world.
    pub fn world_inv_inertia(&self, i: usize) -> Mat3 {
        let r = Mat3::from_quat(self.rot(i));
        r.mul_mat3(Mat3::from_diagonal(self.local_inv_inertia[i])).mul_mat3(r.transpose())
    }

    /// The velocity of the point at `r` from the centre of a body.
    pub fn velocity_at(&self, i: usize, r: Vec3) -> Vec3 {
        self.linvel(i) + self.angvel(i).cross(r)
    }

    /// The shapes at their places.
    pub fn placed(&self) -> Vec<Placed> {
        (0..self.len())
            .map(|i| Placed {
                shape: self.shape[i],
                pos: self.set.position[i],
                rot: self.set.rotation[i],
            })
            .collect()
    }
}

/// The point of a triangle nearest to `p`.
pub fn mesh_closest_on_tri(p: Vec3, a: Vec3, b: Vec3, c: Vec3) -> Vec3 {
    let (ab, ac) = (b - a, c - a);
    let (ap, bp, cp) = (p - a, p - b, p - c);
    let (d1, d2) = (ab.dot(ap), ac.dot(ap));
    let (d3, d4) = (ab.dot(bp), ac.dot(bp));
    let (d5, d6) = (ab.dot(cp), ac.dot(cp));
    let (va, vb, vc) = (d3 * d6 - d5 * d4, d5 * d2 - d1 * d6, d1 * d4 - d3 * d2);
    let region = tri_region(&TriProducts {
        ab_from_a: bits(d1),
        ac_from_a: bits(d2),
        ab_from_b: bits(d3),
        ac_from_b: bits(d4),
        ab_from_c: bits(d5),
        ac_from_c: bits(d6),
        area_ab: bits(vc),
        area_ac: bits(vb),
        area_bc: bits(va),
        bc_from_b: bits(d4 - d3),
        bc_from_c: bits(d5 - d6),
    });
    match region {
        TriRegion::CornerA => a,
        TriRegion::CornerB => b,
        TriRegion::CornerC => c,
        TriRegion::EdgeAb => a + ab * (d1 / (d1 - d3)),
        TriRegion::EdgeAc => a + ac * (d2 / (d2 - d6)),
        TriRegion::EdgeBc => b + (c - b) * ((d4 - d3) / ((d4 - d3) + (d5 - d6))),
        TriRegion::Inside => {
            let denom = 1.0 / (va + vb + vc);
            a + ab * (vb * denom) + ac * (vc * denom)
        }
    }
}

/// How many corners the circle of a cylinder or cone has.
pub const CYLINDER_SEGMENTS: u32 = 16;

/// A convex solid in the world.
pub trait Support {
    /// A point farthest along the direction.
    fn support(&self, dir: Vec3) -> Vec3;
    /// A point inside.
    fn interior(&self) -> Vec3;
}

/// A solid at its place.
pub struct PlacedSolid<'a> {
    pub kind: SolidKind,
    pub hull: Option<&'a ConvexHull>,
    pub pos: Vec3,
    pub rot: Mat3,
}

impl<'a> PlacedSolid<'a> {
    fn local(&self, dir: Vec3) -> Vec3 {
        self.rot.transpose().mul_vec3(dir)
    }

    fn to_world(&self, p: Vec3Bits) -> Vec3 {
        self.pos + self.rot.mul_vec3(p.into())
    }
}

impl<'a> Support for PlacedSolid<'a> {
    fn support(&self, dir: Vec3) -> Vec3 {
        let ld = self.local(dir);
        let unit = {
            let l = dir.length();
            if l < 1e-12 { Vec3::ZERO } else { dir * (1.0 / l) }
        };
        match self.kind {
            SolidKind::Hull { .. } => match self.hull {
                Some(hull) if !hull.points.is_empty() => {
                    let dots: Vec<f32> =
                        hull.points.iter().map(|p| Vec3::from(*p).dot(ld)).collect();
                    self.to_world(HullSupport { hull }.support(ld.into(), &all_bits(&dots)))
                }
                _ => panic!("a hull without points has no support"),
            },
            SolidKind::Box { half } => self.to_world(BoxSupport { half }.support(ld.into(), &[])),
            SolidKind::Sphere { radius } => self.pos + unit * num(radius),
            SolidKind::Capsule { half_height, radius } => {
                let end = CapsuleSupport { half_height, radius }.segment_end(ld.into());
                self.to_world(end) + unit * num(radius)
            }
            SolidKind::Prism { half_height, radius, cone } => {
                let n = CYLINDER_SEGMENTS.max(8) as f32;
                let two_pi = 2.0 * core::f32::consts::PI;
                let ang = if ld.x == 0.0 && ld.z == 0.0 { 0.0 } else { ld.z.atan2(ld.x) };
                let th = two_pi * (ang / two_pi * n).round().rem_euclid(n) / n;
                let (s, c) = th.sin_cos();
                let (h, r) = (num(half_height), num(radius));
                let rim_dot = r * (c * ld.x + s * ld.z);
                let prism = PrismSupport { half_height, radius, segments: CYLINDER_SEGMENTS, cone };
                self.to_world(prism.support_at(
                    ld.into(),
                    (bits(r * c), bits(r * s)),
                    bits(h * ld.y),
                    bits(-h * ld.y + rim_dot),
                ))
            }
        }
    }

    fn interior(&self) -> Vec3 {
        match (self.kind, self.hull) {
            (SolidKind::Hull { .. }, Some(hull)) => self.to_world(hull.centroid),
            _ => self.pos,
        }
    }
}

/// The vertex of the difference of two solids farthest along a direction.
fn solid_vertex(a: &dyn Support, b: &dyn Support, dir: Vec3) -> SimplexVertex {
    let (sa, sb) = (a.support(dir), b.support(-dir));
    SimplexVertex { w: (sa - sb).into(), a: sa.into(), b: sb.into() }
}

fn solid_run(a: &dyn Support, b: &dyn Support) -> GjkEnd {
    let mut dir = a.interior() - b.interior();
    if dir.length_squared() < 1e-12 {
        dir = Vec3::X;
    }
    let arith = SimplexArith {
        along: |p: Vec3Bits, q: Vec3Bits| {
            let (p, e) = (Vec3::from(p), Vec3::from(q) - Vec3::from(p));
            let t = (-p.dot(e) / e.length_squared().max(1e-18)).clamp(0.0, 1.0);
            Between { t: bits(t), point: (p + e * t).into(), first: bits(1.0 - t) }
        },
        flat: |p: Vec3Bits, q: Vec3Bits, r: Vec3Bits| solid_normal(p, q, r).length_squared() < 1e-18,
        edge: |a: Vec3Bits, b: Vec3Bits, c: Vec3Bits, e: usize| {
            let n = solid_normal(a, b, c);
            let s = [Vec3::from(a), Vec3::from(b), Vec3::from(c)];
            let (i, j, k) = vxl_phys::gjk::triangle_edges(e.min(2));
            let (p, q, r) = (s[i], s[j], s[k]);
            let e = q - p;
            let mut out = e.cross(n);
            if out.dot(r - p) > 0.0 {
                out = -out;
            }
            let t = (-p.dot(e) / e.length_squared().max(1e-18)).clamp(0.0, 1.0);
            let near = p + e * t;
            EdgeTest {
                outside: p.dot(out) < 0.0,
                dist2: bits(near.length_squared()),
                point: near.into(),
                first: bits(1.0 - t),
                second: bits(t),
            }
        },
        onto: |a: Vec3Bits, b: Vec3Bits, c: Vec3Bits| {
            let n = solid_normal(a, b, c);
            let nn = n.length_squared();
            let point = if nn > 0.0 { n * (Vec3::from(a).dot(n) / nn) } else { a.into() };
            let [u, v, w] = solid_bary3(a.into(), b.into(), c.into(), point);
            PlanePoint { point: point.into(), first: bits(u), second: bits(v), third: bits(w) }
        },
        beyond: |p0: Vec3Bits, p1: Vec3Bits, p2: Vec3Bits, p3: Vec3Bits| {
            let n = solid_normal(p0, p1, p2);
            if n.length_squared() < 1e-18 {
                return false;
            }
            let (p0, p3) = (Vec3::from(p0), Vec3::from(p3));
            let mut n = n.normalize();
            if n.dot(p3 - p0) > 0.0 {
                n = -n;
            }
            p0.dot(n) < -1e-9
        },
        measure: |v: Vec3Bits| bits(Vec3::from(v).length_squared()),
    };
    let support = |d: Vec3Bits| solid_vertex(a, b, d.into());
    query(dir.into(), &support, &arith)
}

fn solid_normal(p: Vec3Bits, q: Vec3Bits, r: Vec3Bits) -> Vec3 {
    let p = Vec3::from(p);
    (Vec3::from(q) - p).cross(Vec3::from(r) - p)
}

/// The unit normal of a triangle that points away from the origin, if the triangle
/// has an area.
fn solid_outer_normal(p: Vec3Bits, q: Vec3Bits, r: Vec3Bits) -> Option<Vec3> {
    let n = solid_normal(p, q, r);
    if n.length_squared() < 1e-18 {
        return None;
    }
    let n = n.normalize();
    Some(if n.dot(p.into()) < 0.0 { -n } else { n })
}

/// Whether two solids meet, and if not their nearest points.
pub fn solid_gjk(a: &dyn Support, b: &dyn Support) -> Gjk {
    let end = solid_run(a, b);
    if end.meet {
        return Gjk::Intersecting;
    }
    let (mut wa, mut wb) = (Vec3::ZERO, Vec3::ZERO);
    for (i, v) in end.simplex.iter().enumerate().take(4) {
        wa += Vec3::from(v.a) * num(end.nearest.bary[i]);
        wb += Vec3::from(v.b) * num(end.nearest.bary[i]);
    }
    Gjk::Separated { point_a: wa.into(), point_b: wb.into(), dist: bits(num(end.d2).sqrt()) }
}

/// The way out of a penetration: its direction, its depth and a point.
pub fn solid_epa(a: &dyn Support, b: &dyn Support, rounds: usize) -> Option<(Vec3, f32, Vec3)> {
    let end = solid_run(a, b);
    if end.meet { solid_epa_from_simplex(a, b, &end.simplex, rounds) } else { None }
}

/// The way out of a penetration, from a simplex that holds the origin.
pub fn solid_epa_from_simplex(
    a: &dyn Support,
    b: &dyn Support,
    simplex: &[SimplexVertex],
    rounds: usize,
) -> Option<(Vec3, f32, Vec3)> {
    let arith = EpaArith {
        plane: |p: Vec3Bits, q: Vec3Bits, r: Vec3Bits| {
            let n = solid_outer_normal(p, q, r)?;
            Some((n.into(), bits(n.dot(p.into()))))
        },
        enough: |w: Vec3Bits, n: Vec3Bits, d: Scalar| {
            Vec3::from(w).dot(n.into()) - num(d) < 1e-4
        },
        sees: |p: Vec3Bits, q: Vec3Bits, r: Vec3Bits, w: Vec3Bits| {
            match solid_outer_normal(p, q, r) {
                Some(n) => n.dot(Vec3::from(w) - Vec3::from(p)) > 1e-9,
                None => true,
            }
        },
        witness: |x: SimplexVertex,
                  y: SimplexVertex,
                  z: SimplexVertex,
                  n: Vec3Bits,
                  d: Scalar| {
            let q = Vec3::from(n) * num(d);
            let [u, v, w] = solid_bary3(x.w.into(), y.w.into(), z.w.into(), q);
            ((Vec3::from(x.a) * u
                + Vec3::from(y.a) * v
                + Vec3::from(z.a) * w
                + Vec3::from(x.b) * u
                + Vec3::from(y.b) * v
                + Vec3::from(z.b) * w)
                * 0.5)
                .into()
        },
    };
    let support = |d: Vec3Bits| solid_vertex(a, b, d.into());
    let alike = |p: Vec3Bits, q: Vec3Bits| (Vec3::from(p) - Vec3::from(q)).length_squared() <= 1e-12;
    let flat = |p: Vec3Bits, q: Vec3Bits, r: Vec3Bits, s: Vec3Bits| {
        solid_normal(p, q, r).dot(Vec3::from(s) - Vec3::from(p)).abs() < 1e-9
    };
    let facing = |p: Vec3Bits, q: Vec3Bits, r: Vec3Bits, s: Vec3Bits| {
        let w: [Vec3; 4] = [p.into(), q.into(), r.into(), s.into()];
        let mid = (w[0] + w[1] + w[2] + w[3]) * 0.25;
        let inward =
            |i: usize, j: usize, k: usize| (w[j] - w[i]).cross(w[k] - w[i]).dot(mid - w[i]) > 0.0;
        [inward(0, 1, 2), inward(0, 3, 1), inward(0, 2, 3), inward(1, 3, 2)]
    };
    let axes = [Vec3::X, Vec3::Y, Vec3::Z];
    let overlaps = || {
        let measure = |ax: Vec3| {
            let (a0, a1) = (a.support(-ax).dot(ax), a.support(ax).dot(ax));
            let (b0, b1) = (b.support(-ax).dot(ax), b.support(ax).dot(ax));
            AxisOverlap {
                over: bits(a1.min(b1) - a0.max(b0)),
                reach_a: bits(a1),
                reach_b: bits(b1),
            }
        };
        [measure(axes[0]), measure(axes[1]), measure(axes[2])]
    };
    let rounds = rounds.min(usize::MAX - 5);
    match way_out(simplex, rounds, alike, &flat, &facing, &overlaps, &support, &arith) {
        WayOut::Expanded(best) => {
            Some((best.normal.into(), num(best.depth), best.point.into()))
        }
        WayOut::Axis(AxisWay::Apart) => None,
        WayOut::Axis(AxisWay::Unknown) => Some((Vec3::X, f32::INFINITY, Vec3::ZERO)),
        WayOut::Axis(AxisWay::Along { axis, against }) => {
            let n = if against { -axes[axis] } else { axes[axis] };
            let p = (a.support(n) + b.support(-n)) * 0.5;
            Some((n, num(overlaps()[axis].over).max(0.0), p))
        }
    }
}

/// The weights of the corners of a triangle at a point of its plane.
fn solid_bary3(p0: Vec3, p1: Vec3, p2: Vec3, q: Vec3) -> [f32; 3] {
    let (v0, v1, v2) = (p1 - p0, p2 - p0, q - p0);
    let (d00, d01, d11) = (v0.dot(v0), v0.dot(v1), v1.dot(v1));
    let (d20, d21) = (v2.dot(v0), v2.dot(v1));
    let den = d00 * d11 - d01 * d01;
    if den.abs() < 1e-18 {
        return [1.0, 0.0, 0.0];
    }
    let v = (d11 * d20 - d01 * d21) / den;
    let w = (d00 * d21 - d01 * d20) / den;
    [1.0 - v - w, v, w]
}

/// The penetration of a hull and a box.
pub fn solid_hull_box_penetration(
    hull: &ConvexHull,
    hpos: Vec3,
    hrot: Quat,
    half: Vec3,
    bpos: Vec3,
    brot: Quat,
    rounds: usize,
) -> Option<(Vec3, f32, Vec3)> {
    let a = PlacedSolid {
        kind: SolidKind::Hull { hull: 0 },
        hull: Some(hull),
        pos: hpos,
        rot: Mat3::from_quat(hrot),
    };
    let b = PlacedSolid {
        kind: SolidKind::Box { half: half.into() },
        hull: None,
        pos: bpos,
        rot: Mat3::from_quat(brot),
    };
    solid_epa(&a, &b, rounds)
}

/// The hull of points; its centre is their mean.
pub fn solid_hull(points: &[Vec3]) -> ConvexHull {
    let plus = |p: Vec3Bits, q: Vec3Bits| (Vec3::from(p) + Vec3::from(q)).into();
    let over = |p: Vec3Bits, n: usize| (Vec3::from(p) * (1.0 / n as f32)).into();
    ConvexHull::new(all_vec_bits(points), &plus, &over)
}

/// The part of a cloud with `n x <= d`, and the corners of the cut. A cut whose corners
/// have no place in the plane adds none.
pub fn solid_clip_halfspace(points: &[Vec3], n: Vec3, d: f32) -> Vec<Vec3> {
    let dist = |p: Vec3| n.dot(p) - d;
    let inside: Vec<bool> = points.iter().map(|p| n.dot(*p) <= d).collect();
    let beyond: Vec<bool> = points.iter().map(|p| dist(*p) > 0.0).collect();
    let crossing = |a: Vec3Bits, b: Vec3Bits| {
        let (a, b) = (Vec3::from(a), Vec3::from(b));
        (a + (b - a) * (dist(a) / (dist(a) - dist(b)))).into()
    };
    let (u, v) = solid_plane_basis(n);
    let plane = |p: Vec3Bits| {
        let p = Vec3::from(p);
        (bits(p.dot(u)), bits(p.dot(v)))
    };
    let not_left = |o: (Scalar, Scalar), a: (Scalar, Scalar), b: (Scalar, Scalar)| {
        let at = |c: (Scalar, Scalar)| (num(c.0), num(c.1));
        let (o, a, b) = (at(o), at(a), at(b));
        (a.0 - o.0) * (b.1 - o.1) - (a.1 - o.1) * (b.0 - o.0) <= 0.0
    };
    let alike =
        |p: Vec3Bits, q: Vec3Bits| (Vec3::from(p) - Vec3::from(q)).length_squared() < 1e-10;
    let cloud = all_vec_bits(points);
    let cut = |beyond: &[bool]| {
        cut_cloud(&cloud, &inside, beyond, &crossing, &plane, &not_left, alike)
    };
    cut(&beyond)
        .or_else(|| cut(&vec![false; points.len()]))
        .unwrap_or_default()
        .iter()
        .map(|p| (*p).into())
        .collect()
}

/// Two directions in the plane across `n`.
fn solid_plane_basis(n: Vec3) -> (Vec3, Vec3) {
    let a = Vec3::new(n.x.abs(), n.y.abs(), n.z.abs());
    let ax = if a.x <= a.y && a.x <= a.z {
        Vec3::X
    } else if a.y <= a.z {
        Vec3::Y
    } else {
        Vec3::Z
    };
    let u = ax.cross(n).normalize();
    (u, n.cross(u))
}

/// Cuts a cloud for one seed by the plane halfway to another.
pub fn solid_cut_between(cloud: &[Vec3], own: Vec3, other: Vec3) -> Vec<Vec3> {
    let n = other - own;
    solid_clip_halfspace(cloud, n, n.dot((own + other) * 0.5))
}

/// The cells of the seeds in a hull.
pub fn solid_fracture_voronoi_hull(hull: &ConvexHull, seeds: &[Vec3]) -> Vec<Vec<Vec3>> {
    let seed = |i: usize| seeds.get(i).copied().unwrap_or(Vec3::ZERO);
    let coincide = |i: usize, j: usize| (seed(j) - seed(i)).length_squared() < 1e-12;
    let clip = |cloud: Vec<Vec3Bits>, i: usize, j: usize| {
        let cloud: Vec<Vec3> = cloud.iter().map(|p| (*p).into()).collect();
        all_vec_bits(&solid_cut_between(&cloud, seed(i), seed(j)))
    };
    vxl_phys::cut::fracture_voronoi_hull(&hull.points, seeds.len(), coincide, clip)
        .iter()
        .map(|cell| cell.iter().map(|p| (*p).into()).collect())
        .collect()
}

/// A narrow phase whose contacts reach `skin` beyond the surfaces.
pub fn np_new(skin: f32) -> DefaultNarrowPhase {
    DefaultNarrowPhase::new(bits(skin), bits(skin * 2.0))
}

/// Stores the hull of the points.
pub fn np_add_hull(np: &mut DefaultNarrowPhase, points: &[Vec3]) -> u32 {
    assert!(np.hulls.len() < u32::MAX as usize, "there are too many hulls");
    let plus = |p: Vec3Bits, q: Vec3Bits| (Vec3::from(p) + Vec3::from(q)).into();
    let over = |p: Vec3Bits, n: usize| (Vec3::from(p) * (1.0 / n as f32)).into();
    np.add_hull(all_vec_bits(points), &plus, &over)
}

/// Half of the way from the first corner to the second.
pub fn np_half_of(lo: Vec3Bits, hi: Vec3Bits) -> Vec3Bits {
    ((Vec3::from(hi) - Vec3::from(lo)) * 0.5).into()
}

/// Breaks a stored hull up among the seeds.
pub fn np_fracture_hull(np: &DefaultNarrowPhase, id: u32, seeds: &[Vec3]) -> Option<Vec<Vec<Vec3>>> {
    np.hulls.get(id).map(|h| solid_fracture_voronoi_hull(h, seeds))
}

/// Gives a polytope its edge directions, parallel ones once.
fn np_with_edges(mut p: ConvexPolytope) -> ConvexPolytope {
    let dirs: Vec<Vec3> = p
        .edges()
        .iter()
        .map(|(i, j)| (Vec3::from(p.verts[*j]) - Vec3::from(p.verts[*i])).normalize())
        .collect();
    let usable: Vec<bool> = dirs.iter().map(|d| d.length_squared() >= 0.5).collect();
    let alike = |x: Vec3Bits, y: Vec3Bits| Vec3::from(x).dot(y.into()).abs() > 0.999;
    p.edge_dirs = keep_distinct(&all_vec_bits(&dirs), &usable, alike);
    p
}

/// The corners of a circle.
fn np_circle(radius: f32, y: f32) -> Vec<Vec3> {
    let n = ring_size(CYLINDER_SEGMENTS);
    (0..n)
        .map(|i| {
            let th = 2.0 * core::f32::consts::PI * (i as f32) / (n as f32);
            let (s, c) = th.sin_cos();
            Vec3::new(radius * c, y, radius * s)
        })
        .collect()
}

fn np_cylinder_polytope(radius: f32, half_height: f32) -> ConvexPolytope {
    let (b, t) = (np_circle(radius, -half_height), np_circle(radius, half_height));
    let mut normals = vec![-Vec3::Y, Vec3::Y];
    for i in 0..b.len() {
        let j = (i + 1) % b.len();
        normals.push(
            Vec3::new((b[i].x + b[j].x) * 0.25, 0.0, (b[i].z + b[j].z) * 0.25).normalize(),
        );
    }
    np_with_edges(ConvexPolytope::cylinder_polytope(
        &all_vec_bits(&b),
        &all_vec_bits(&t),
        all_vec_bits(&normals),
        Vec::new(),
    ))
}

fn np_cone_polytope(radius: f32, half_height: f32) -> ConvexPolytope {
    let (b, tip) = (np_circle(radius, -half_height), Vec3::new(0.0, half_height, 0.0));
    let mut verts = b.clone();
    let mut normals = vec![-Vec3::Y];
    let mut starts = vec![0u32];
    for i in 0..b.len() {
        let (p, q) = (b[i], b[(i + 1) % b.len()]);
        starts.push(verts.len() as u32);
        verts.extend([p, tip, q]);
        normals.push((tip - p).cross(q - p).normalize());
    }
    starts.push(verts.len() as u32);
    np_with_edges(ConvexPolytope {
        verts: all_vec_bits(&verts),
        face_normal: all_vec_bits(&normals),
        face_start: starts,
        edge_dirs: Vec::new(),
    })
}

/// The polytope of a shape that has one.
fn np_make_polytope(shape: Shape) -> ConvexPolytope {
    match shape {
        Shape::Cylinder { half_height, radius } => {
            np_cylinder_polytope(num(radius), num(half_height))
        }
        Shape::Cone { half_height, radius } => np_cone_polytope(num(radius), num(half_height)),
        Shape::Box { half } => np_with_edges(ConvexPolytope::box_polytope(half, Vec::new())),
        _ => np_with_edges(ConvexPolytope::box_polytope(Vec3::ZERO.into(), Vec::new())),
    }
}

/// Makes the polytopes of all shapes that will be tested.
fn np_register(np: &mut DefaultNarrowPhase, bodies: &Bodies) {
    for s in &bodies.shape {
        np.polys.poly_for(s, np_make_polytope);
    }
    for id in 0..np.compounds.len() {
        for c in np.compound_children(id as u32) {
            np.polys.poly_for(&c.shape, np_make_polytope);
        }
    }
}

/// What the tests of one round of collisions read.
struct Scene<'a> {
    np: &'a DefaultNarrowPhase,
    bodies: &'a Bodies,
    heightfields: &'a [HeightField],
    providers: &'a dyn ProviderColliders,
    probe: &'a RefCell<ClipProbe>,
}

/// Finds the contacts of the pairs.
pub fn np_collide(
    np: &mut DefaultNarrowPhase,
    bodies: &Bodies,
    pairs: &[(u32, u32)],
    heightfields: &[HeightField],
    providers: &dyn ProviderColliders,
    out: &mut Vec<Manifold>,
) {
    let n = bodies.len() as u64;
    assert!(pairs.iter().all(|p| (p.0 as u64) < n && (p.1 as u64) < n), "a body is missing");
    assert!(np.compounds.items.iter().all(|c| c.len() <= u32::MAX as usize));
    np_register(np, bodies);
    let placed = bodies.placed();
    let probe = RefCell::new(np.probe);
    let scene = Scene { np, bodies, heightfields, providers, probe: &probe };
    let place = |p: Placed, c: CompoundChild| {
        let (pos, rot) = (Vec3::from(p.pos), Quat::from(p.rot));
        Placed {
            shape: c.shape,
            pos: (pos + Mat3::from_quat(rot).mul_vec3(c.offset.into())).into(),
            rot: rot.mul_quat(c.rot.into()).into(),
        }
    };
    let test = PairTests {
        spheres: |skin: Scalar, a: Placed, b: Placed| np_sphere_gap(num(skin), a, b),
        shapes: |r: Route, ids: (u32, u32), a: Placed, b: Placed| scene.test(r, ids, a, b),
    };
    scene.np.collide(&place, &test, &placed, pairs, out);
    np.probe = probe.into_inner();
}

/// Whether a placed polytope has faces, each with vertices.
fn np_sound(p: &WorldPoly) -> bool {
    let n = p.face_normal.len();
    n > 0
        && p.face_start.len() == n + 1
        && p.verts.len() <= u32::MAX as usize
        && p.face_start[n] as usize <= p.verts.len()
        && p.face_start.windows(2).all(|w| w[0] < w[1])
}

fn np_one_point(normal: Vec3, point: Vec3, depth: f32) -> Touch {
    let p = ContactPoint { point: point.into(), depth: bits(depth), feature: 0 };
    Touch { normal: normal.into(), points: ContactPoints::from_slice(&[p]) }
}

/// The normal rounded to tenths.
fn np_quant_normal(v: Vec3) -> (i32, i32, i32) {
    ((v.x * 10.0).round() as i32, (v.y * 10.0).round() as i32, (v.z * 10.0).round() as i32)
}

impl<'a> Scene<'a> {
    fn skin(&self) -> f32 {
        num(self.np.skin)
    }

    fn test(&self, route: Route, ids: (u32, u32), a: Placed, b: Placed) -> Option<Touch> {
        match route {
            Route::Provider { id, is_a } => self.provider_pair(ids, a, b, id, is_a),
            Route::Hull { a_is_hull } => self.hull_pair(a, b, a_is_hull),
            Route::Terrain { id, is_a } => {
                let hf = self.heightfields.get(id as usize)?;
                self.terrain(if is_a { b } else { a }, hf, is_a)
            }
            Route::SpherePoly => match a.shape {
                Shape::Sphere { radius } => {
                    let (n, depth, p) = self.sphere_convex(a.pos.into(), num(radius), b)?;
                    Some(np_one_point(n, p, depth))
                }
                _ => None,
            },
            Route::PolySphere => match b.shape {
                Shape::Sphere { radius } => {
                    let (n, depth, p) = self.sphere_convex(b.pos.into(), num(radius), a)?;
                    Some(np_one_point(-n, p, depth))
                }
                _ => None,
            },
            Route::BoxBox | Route::PolyPoly => self.poly_pair(ids, a, b),
            Route::CapsuleA => self.capsule_pair(a, b, true),
            Route::CapsuleB => self.capsule_pair(b, a, false),
            Route::SphereSphere | Route::ExpandA(_) | Route::ExpandB(_) | Route::Nothing => None,
        }
    }

    /// The polytope of a shape at its place.
    fn world_poly(&self, p: Placed) -> Option<WorldPoly> {
        let idx = *self.np.polys.index.get(&poly_key(&p.shape))?;
        let (pos, rot) = (Vec3::from(p.pos), Quat::from(p.rot));
        let mut w = WorldPoly::new();
        w.fill(
            &self.np.polys.polys[idx],
            |v| (rot.rotate_vec3(v.into()) + pos).into(),
            |v| rot.rotate_vec3(v.into()).into(),
        );
        if np_sound(&w) { Some(w) } else { None }
    }

    /// The part of the cloud of contacts that is kept.
    fn reduced(&self, normal: Vec3, mut cand: Vec<ContactPoint>) -> Option<Touch> {
        let min2 = num(self.np.min_point_sep) * num(self.np.min_point_sep);
        let close = |p: ContactPoint, q: ContactPoint| {
            (Vec3::from(p.point) - Vec3::from(q.point)).length_squared() < min2
        };
        if !select_contacts(&mut cand, close) {
            return None;
        }
        Some(Touch { normal: normal.into(), points: ContactPoints::from_slice(&cand) })
    }

    /// Two polytopes: the axis of least penetration, then the clipped faces.
    fn poly_pair(&self, ids: (u32, u32), a: Placed, b: Placed) -> Option<Touch> {
        let (wa, wb) = (self.world_poly(a)?, self.world_poly(b)?);
        let cross = |x: Vec3Bits, y: Vec3Bits| {
            let c = Vec3::from(x).cross(y.into());
            let l2 = c.length_squared();
            if l2 > 1e-8 { Some((c * (1.0 / l2.sqrt())).into()) } else { None }
        };
        let test = |axis: Vec3Bits| {
            let n = Vec3::from(axis);
            let (a0, a1) = np_extent(a, &wa, n, b);
            let (b0, b1) = np_extent(b, &wb, n, a);
            AxisGap {
                degenerate: n.length_squared() < 0.5,
                ahead: bits(b0 - a1),
                behind: bits(a0 - b1),
            }
        };
        let hit = sat(&wa, &wb, &cross, &test, self.np.sat_limit())?;
        let n = Vec3::from(hit.normal);
        let inflate = self.predict_inflate(ids, n);
        if num(hit.sep) > self.skin() + inflate {
            return None;
        }
        let (ref_is_a, dir) = reference_side(hit.src, hit.normal);
        let (reference, incident) = if ref_is_a { (&wa, &wb) } else { (&wb, &wa) };
        let arith = np_clip_arith();
        let limit = bits(self.skin() + inflate);
        let cand = {
            let mut probe = self.probe.borrow_mut();
            clip(&arith, reference, incident, ref_is_a, dir, limit, &mut *probe)
        };
        self.reduced(n, cand)
    }

    /// How far the bodies close in on each other within the time looked ahead.
    fn predict_inflate(&self, ids: (u32, u32), n: Vec3) -> f32 {
        let vrel = self.bodies.linvel(ids.1 as usize) - self.bodies.linvel(ids.0 as usize);
        let travel = (-vrel.dot(n)).max(0.0) * num(self.np.predict_dt);
        num(self.np.predict_inflate(bits(travel)))
    }

    /// The point of a polytope nearest to `p`, its squared distance, and, if `p` is
    /// inside, the normal and distance of the nearest face.
    fn closest_on_poly(&self, w: &WorldPoly, p: Vec3) -> (Vec3, f32, Option<(Vec3, f32)>) {
        let faces = w.face_normal.len();
        let d: Vec<f32> = (0..faces)
            .map(|f| {
                let v0 = Vec3::from(w.verts[w.face_start[f] as usize]);
                (p - v0).dot(w.face_normal[f].into())
            })
            .collect();
        let mut near = Vec::new();
        for f in 0..faces {
            let (s, e) = (w.face_start[f] as usize, w.face_start[f + 1] as usize);
            for k in (s + 1)..e.saturating_sub(1) {
                near.push(mesh_closest_on_tri(
                    p,
                    w.verts[s].into(),
                    w.verts[k].into(),
                    w.verts[k + 1].into(),
                ));
            }
        }
        let d2: Vec<f32> = near.iter().map(|q| (p - *q).length_squared()).collect();
        let (best, best_d2) =
            match find_first_least(&all_bits(&d2), &vec![true; d2.len()], bits(f32::MAX)) {
                Some(k) => (near[k], d2[k]),
                None => (Vec3::ZERO, f32::MAX),
            };
        let (inside, face) = plane_scan(&all_bits(&d));
        let max_d = d.iter().copied().fold(f32::MIN, f32::max);
        let normal = match face {
            Some(f) => w.face_normal[f].into(),
            None => Vec3::Y,
        };
        (best, best_d2, if inside { Some((normal, max_d)) } else { None })
    }

    /// A sphere against a polytope: the normal towards the polytope, the depth and
    /// the surface point. A gap no wider than the skin still counts.
    fn sphere_convex(&self, center: Vec3, radius: f32, convex: Placed) -> Option<(Vec3, f32, Vec3)> {
        let w = self.world_poly(convex)?;
        let (closest, d2, inside) = self.closest_on_poly(&w, center);
        if let Some((n, max_d)) = inside {
            let depth = radius + max_d;
            return if depth > 0.0 { Some((-n, depth, center - n * max_d)) } else { None };
        }
        let dist = d2.sqrt();
        if dist > radius + self.skin() {
            return None;
        }
        let n = if dist > 1e-9 { (closest - center) * (1.0 / dist) } else { Vec3::Y };
        Some((n, radius - dist, closest))
    }

    /// The point of a capsule's segment nearest to a polytope, and the surface
    /// point.
    fn capsule_axis_reach(&self, s0: Vec3, s1: Vec3, radius: f32, other: Placed) -> Option<(Vec3, Vec3)> {
        let w = self.world_poly(other)?;
        let seg = s1 - s0;
        let len2 = seg.length_squared();
        let next = |p: Vec3Bits| {
            let p = Vec3::from(p);
            let (q, _, inside) = self.closest_on_poly(&w, p);
            let q = match inside {
                Some((n, max_d)) => p + n * -max_d,
                None => q,
            };
            let t = if len2 > 1e-18 { ((q - s0).dot(seg) / len2).clamp(0.0, 1.0) } else { 0.0 };
            (s0 + seg * t).into()
        };
        let alike =
            |p: Vec3Bits, q: Vec3Bits| (Vec3::from(q) - Vec3::from(p)).length_squared() <= 1e-12;
        let p = Vec3::from(axis_reach(((s0 + s1) * 0.5).into(), &next, &alike));
        let (_, _, surf) = self.sphere_convex(p, radius, other)?;
        Some((p, surf))
    }

    fn solid(&self, p: Placed) -> Option<PlacedSolid<'a>> {
        let kind = solid_of(&p.shape, &self.np.hulls)?;
        let hull = match p.shape {
            Shape::ConvexHull { hull, .. } => self.np.hulls.get(hull),
            _ => None,
        };
        Some(PlacedSolid {
            kind,
            hull,
            pos: p.pos.into(),
            rot: Mat3::from_quat(p.rot.into()),
        })
    }

    /// A capsule against something else. The normal of the manifold points from the
    /// first body to the second.
    fn capsule_pair(&self, cap: Placed, other: Placed, cap_is_a: bool) -> Option<Touch> {
        let Shape::Capsule { half_height, radius } = cap.shape else {
            return None;
        };
        let (h, radius) = (num(half_height), num(radius));
        let pos = Vec3::from(cap.pos);
        let axis = Mat3::from_quat(cap.rot.into()).mul_vec3(Vec3::Y);
        let ends = [pos - axis * h, pos + axis * h];
        let (towards, p_other) = match self.capsule_axis_reach(ends[0], ends[1], radius, other) {
            Some((p, surf)) => (p - surf, surf),
            None if poly_key(&other.shape) != 0 => return None,
            None => {
                let (c, o) = (self.solid(cap)?, self.solid(other)?);
                let (pc, po) = match solid_gjk(&c, &o) {
                    Gjk::Separated { point_a, point_b, .. } => {
                        (Vec3::from(point_a), Vec3::from(point_b))
                    }
                    Gjk::Intersecting => {
                        let (_, _, p) = solid_epa(&c, &o, 32)?;
                        (p, p)
                    }
                };
                (po - pc, po)
            }
        };
        let between = Vec3::from(other.pos) - pos;
        let (raw, between) = if cap_is_a { (towards, between) } else { (-towards, -between) };
        let raw = if raw.length_squared() < 1e-18 { between } else { raw };
        if raw.length_squared() < 1e-18 {
            return None;
        }
        let mut n = raw.normalize();
        if n.dot(between) < 0.0 {
            n = -n;
        }
        let out = if cap_is_a { n } else { -n };
        let plane = out.dot(p_other);
        let points = [ends[0] + out * radius, ends[1] + out * radius];
        let depths = [out.dot(ends[0]) + radius - plane, out.dot(ends[1]) + radius - plane];
        let cand =
            band_contacts(&all_vec_bits(&points), &all_bits(&depths), bits(-self.skin()), 1);
        self.reduced(n, cand)
    }

    /// The points of a stored hull in the world.
    fn hull_world(&self, p: Placed) -> Vec<Vec3> {
        let Shape::ConvexHull { hull, .. } = p.shape else {
            return Vec::new();
        };
        let (pos, m) = (Vec3::from(p.pos), Mat3::from_quat(p.rot.into()));
        self.np.hull_points(hull).iter().map(|v| pos + m.mul_vec3((*v).into())).collect()
    }

    /// A hull against something else.
    fn hull_pair(&self, a: Placed, b: Placed, a_is_hull: bool) -> Option<Touch> {
        let (hull, other) = if a_is_hull { (a, b) } else { (b, a) };
        if let Shape::HeightField(id) = other.shape {
            let hf = self.heightfields.get(id as usize)?;
            return self.terrain(hull, hf, !a_is_hull);
        }
        let points = self.hull_world(hull);
        if points.is_empty() || points.len() >= u32::MAX as usize {
            return None;
        }
        let (ua, ub) = (self.solid(a)?, self.solid(b)?);
        let (n_p, _, _) = solid_epa(&ua, &ub, 32)?;
        let n = if a_is_hull { n_p } else { -n_p };
        let plane = n.dot(if a_is_hull { ub.support(n) } else { ua.support(n) });
        let depths: Vec<f32> = points.iter().map(|w| plane - n.dot(*w)).collect();
        hull_contacts(
            &all_vec_bits(&points),
            &all_bits(&depths),
            bits(-self.skin()),
            (-n_p).into(),
        )
    }

    /// The contacts of points with a height field below them; the first is named
    /// `first`.
    fn over_terrain(&self, hf: &HeightField, pts: &[Vec3], lift: f32, first: u32) -> Vec<ContactPoint> {
        let mut points = Vec::new();
        let mut depths = Vec::new();
        for p in pts {
            match hf_sample(hf, p.x, p.z) {
                Some((h, _)) => {
                    points.push(Vec3::new(p.x, h, p.z));
                    depths.push(h - p.y + lift);
                }
                None => {
                    points.push(*p);
                    depths.push(f32::NEG_INFINITY);
                }
            }
        }
        band_contacts(&all_vec_bits(&points), &all_bits(&depths), bits(-self.skin()), first)
    }

    /// A shape against a height field.
    fn terrain(&self, body: Placed, hf: &HeightField, hf_is_a: bool) -> Option<Touch> {
        let (pos, rot) = (Vec3::from(body.pos), Quat::from(body.rot));
        let query = terrain_query(&body.shape);
        let first = first_feature(&query);
        let cand = match query {
            TerrainQuery::Sphere { radius } => self.sphere_terrain(pos, num(radius), hf),
            TerrainQuery::PolyVertices => {
                let w = self.world_poly(body)?;
                let verts: Vec<Vec3> = w.verts.iter().map(|v| (*v).into()).collect();
                self.over_terrain(hf, &verts, 0.0, first)
            }
            TerrainQuery::HullPoints { .. } => {
                self.over_terrain(hf, &self.hull_world(body), 0.0, first)
            }
            TerrainQuery::CapsuleSpheres { half_height, radius } => {
                let axis = Mat3::from_quat(rot).mul_vec3(Vec3::Y) * num(half_height);
                let (s0, s1) = (pos - axis, pos + axis);
                let pts: Vec<Vec3> = (0..5).map(|k| s0 + (s1 - s0) * (k as f32 / 4.0)).collect();
                self.over_terrain(hf, &pts, num(radius), first)
            }
            TerrainQuery::Unsupported => return None,
        };
        let mut m = self.reduced(Vec3::Y, cand)?;
        let p = Vec3::from(m.points.get(0).point);
        let n = match hf_sample(hf, p.x, p.z) {
            Some((_, n)) => n,
            None => Vec3::Y,
        };
        m.normal = oriented_normal(n.into(), hf_is_a);
        Some(m)
    }

    /// The contacts of a sphere with the column below it and the nodes around it.
    fn sphere_terrain(&self, center: Vec3, radius: f32, hf: &HeightField) -> Vec<ContactPoint> {
        let r2 = radius * radius;
        let mut cand = Vec::new();
        let mut try_point = |x: f32, z: f32, h: f32| {
            let d2 = (x - center.x) * (x - center.x) + (z - center.z) * (z - center.z);
            if d2 >= r2 {
                return;
            }
            let sy = center.y - (r2 - d2).sqrt();
            if sy < h + self.skin() {
                cand.push(ContactPoint {
                    point: Vec3::new(x, h, z).into(),
                    depth: bits(h - sy),
                    feature: 0,
                });
            }
        };
        if let Some((h, _)) = hf_sample(hf, center.x, center.z) {
            try_point(center.x, center.z, h);
        }
        let (ox, oz, s) = (num(hf.origin_x), num(hf.origin_z), num(hf.spacing));
        let cell = |v: f32| (v.floor() as i64).clamp(i64::MIN + 1, i64::MAX - 1);
        for (ix, iz) in hf.nodes_near(cell((center.x - ox) / s), cell((center.z - oz) / s)) {
            let h = num(hf.height_ix(ix, iz));
            try_point(ox + ix as f32 * s, oz + iz as f32 * s, h);
        }
        cand
    }

    /// A shape against geometry that a provider answers for.
    fn provider_pair(&self, ids: (u32, u32), a: Placed, b: Placed, id: u32, is_a: bool) -> Option<Touch> {
        let body = if is_a { b } else { a };
        let (pos, rot) = (Vec3::from(body.pos), Quat::from(body.rot));
        let (va, vb) =
            (self.bodies.linvel(ids.0 as usize), self.bodies.linvel(ids.1 as usize));
        let vrel = if is_a { vb - va } else { va - vb };
        let band = self.skin().max(vrel.length() * (1.0 / 60.0) * 1.5 + self.skin());
        let mut buf: Vec<InteropContact> = Vec::new();
        let supported = match provider_query(&body.shape) {
            ProviderQuery::Box { half } => {
                self.providers.contacts_box(id, half.into(), pos, rot, band, &mut buf)
            }
            ProviderQuery::Sphere { radius } => {
                self.providers.contacts_sphere(id, pos, num(radius), band, &mut buf)
            }
            ProviderQuery::HullPoints { .. } => {
                let mut any = false;
                for p in self.hull_world(body) {
                    any |= self.providers.contacts_point(id, p, band, &mut buf);
                }
                any
            }
            ProviderQuery::CapsuleSpheres { half_height, radius } => {
                self.capsule_spheres(id, pos, rot, num(half_height), num(radius), band, &mut buf)
            }
            ProviderQuery::Unsupported => false,
        };
        if !supported || buf.is_empty() {
            return None;
        }
        let sgn = if is_a { 1.0 } else { -1.0 };
        let contacts: Vec<SurfaceContact> = buf
            .iter()
            .map(|c| SurfaceContact {
                point: c.point.into(),
                normal: c.normal.into(),
                depth: bits(c.depth),
                feature: c.feature,
                key: np_quant_normal(c.normal),
                closing: bits(-(c.normal * sgn).dot(vrel)),
            })
            .collect();
        let (key, normal) = pick_dominant_normal(&contacts, is_a)?;
        Some(Touch { normal, points: four_corner_points(&contacts, key) })
    }

    /// Asks for the spheres along a capsule, each place once.
    #[allow(clippy::too_many_arguments)]
    fn capsule_spheres(
        &self,
        id: u32,
        pos: Vec3,
        rot: Quat,
        half_height: f32,
        radius: f32,
        band: f32,
        buf: &mut Vec<InteropContact>,
    ) -> bool {
        let axis = Mat3::from_quat(rot).mul_vec3(Vec3::Y);
        let centers: Vec<Vec3> = (0..5)
            .map(|k| pos + axis * (half_height * (2.0 * (k as f32 / 4.0) - 1.0)))
            .collect();
        let min2 = (radius * 1e-3) * (radius * 1e-3);
        let alike = |p: Vec3Bits, q: Vec3Bits| {
            (Vec3::from(p) - Vec3::from(q)).length_squared() <= min2
        };
        let mut supported = false;
        for c in keep_distinct(&all_vec_bits(&centers), &[true; 5], alike) {
            supported |= self.providers.contacts_sphere(id, c.into(), radius, band, buf);
        }
        supported
    }
}

/// How far a solid reaches along an axis. Two boxes are measured by their half
/// extents, other solids by their vertices.
fn np_extent(p: Placed, w: &WorldPoly, n: Vec3, other: Placed) -> (f32, f32) {
    if let (Shape::Box { half }, Shape::Box { .. }) = (p.shape, other.shape) {
        let (half, rot) = (Vec3::from(half), Quat::from(p.rot));
        let r = half.x * rot.rotate_vec3(Vec3::X).dot(n).abs()
            + half.y * rot.rotate_vec3(Vec3::Y).dot(n).abs()
            + half.z * rot.rotate_vec3(Vec3::Z).dot(n).abs();
        let c = Vec3::from(p.pos).dot(n);
        return (c - r, c + r);
    }
    let (mut lo, mut hi) = (f32::MAX, f32::MIN);
    for v in &w.verts {
        let d = Vec3::from(*v).dot(n);
        if d < lo {
            lo = d;
        }
        if d > hi {
            hi = d;
        }
    }
    (lo, hi)
}

/// Two spheres, with what touching in the direction between their centres gives.
fn np_sphere_gap(skin: f32, a: Placed, b: Placed) -> SphereGap {
    let radius = |p: Placed| match p.shape {
        Shape::Sphere { radius } => num(radius),
        _ => 0.0,
    };
    let (pa, pb, ra) = (Vec3::from(a.pos), Vec3::from(b.pos), radius(a));
    let (d, radii) = (pb - pa, ra + radius(b));
    let dist = d.length();
    let n = d * (1.0 / dist);
    SphereGap {
        dist: bits(dist),
        reach: bits(radii + skin),
        radii: bits(radii),
        centre: pa.into(),
        normal: n.into(),
        point: (pa + n * (ra - (radii - dist) * 0.5)).into(),
        depth: bits(radii - dist),
    }
}

/// The arithmetic of clipping.
fn np_clip_arith() -> ClipArith<
    impl Fn(Vec3Bits, Vec3Bits) -> Scalar,
    impl Fn(&Vec<Vec3Bits>) -> Vec3Bits,
    impl Fn(Vec3Bits, Vec3Bits, Vec3Bits, Vec3Bits) -> Option<Vec3Bits>,
    impl Fn(Vec3Bits, Vec3Bits, Vec3Bits, Vec3Bits) -> ClipSide,
    impl Fn(Vec3Bits, Vec3Bits, Vec3Bits) -> Scalar,
> {
    ClipArith {
        dot: |x: Vec3Bits, y: Vec3Bits| bits(Vec3::from(x).dot(y.into())),
        middle: |ring: &Vec<Vec3Bits>| {
            let mut c = Vec3::ZERO;
            for v in ring {
                c += (*v).into();
            }
            (c * (1.0 / ring.len() as f32)).into()
        },
        side: |w0: Vec3Bits, w1: Vec3Bits, n: Vec3Bits, mid: Vec3Bits| {
            let w0 = Vec3::from(w0);
            let s = (Vec3::from(w1) - w0).cross(n.into());
            if s.length_squared() < 1e-16 {
                None
            } else if s.dot(Vec3::from(mid) - w0) > 0.0 {
                Some((-s).into())
            } else {
                Some(s.into())
            }
        },
        cut: |p: Vec3Bits, q: Vec3Bits, w0: Vec3Bits, s: Vec3Bits| {
            let (p, q, w0, s) = (Vec3::from(p), Vec3::from(q), Vec3::from(w0), Vec3::from(s));
            let (da, db) = ((p - w0).dot(s), (q - w0).dot(s));
            let crosses = da * db < 0.0;
            let t = if crosses { da / (da - db) } else { 0.0 };
            ClipSide { dist: bits(da), crosses, cut: (p + (q - p) * t).into() }
        },
        height: |v: Vec3Bits, p0: Vec3Bits, n: Vec3Bits| {
            bits((Vec3::from(v) - Vec3::from(p0)).dot(n.into()))
        },
    }
}

// ---- whole scenes

fn sphere(radius: f32) -> Shape {
    Shape::Sphere { radius: bits(radius) }
}

fn cuboid(x: f32, y: f32, z: f32) -> Shape {
    Shape::Box { half: Vec3::new(x, y, z).into() }
}

fn capsule(half_height: f32, radius: f32) -> Shape {
    Shape::Capsule { half_height: bits(half_height), radius: bits(radius) }
}

fn cylinder(half_height: f32, radius: f32) -> Shape {
    Shape::Cylinder { half_height: bits(half_height), radius: bits(radius) }
}

fn cone(half_height: f32, radius: f32) -> Shape {
    Shape::Cone { half_height: bits(half_height), radius: bits(radius) }
}

impl Bodies {
    fn moving(&mut self, shape: Shape, pos: Vec3, rot: Quat) -> u32 {
        self.push_dynamic(shape, pos, rot, 1.0, Vec3::splat(1.0))
    }
}

fn all_pairs(b: &Bodies) -> Vec<(u32, u32)> {
    let mut pairs = Vec::new();
    for i in 0..b.len() as u32 {
        for j in (i + 1)..b.len() as u32 {
            pairs.push((i, j));
        }
    }
    pairs
}

fn manifolds_with(np: &mut DefaultNarrowPhase, b: &Bodies, hf: &[HeightField]) -> Vec<Manifold> {
    let mut out = Vec::new();
    np_collide(np, b, &all_pairs(b), hf, &NoProviders, &mut out);
    out
}

fn manifolds_for(b: &Bodies, hf: &[HeightField]) -> Vec<Manifold> {
    manifolds_with(&mut np_new(0.01), b, hf)
}

fn normal_of(m: &Manifold) -> Vec3 {
    m.normal.into()
}

fn depth_of(m: &Manifold, k: usize) -> f32 {
    num(m.points.get(k).depth)
}

fn deepest(m: &Manifold) -> f32 {
    (0..m.points.len()).map(|k| depth_of(m, k)).fold(f32::MIN, f32::max)
}

#[test]
fn capsule_vs_box_floor_vertical() {
    let mut b = Bodies::default();
    b.push_static(cuboid(5.0, 0.5, 5.0), Vec3::new(0.0, -0.5, 0.0), Quat::IDENTITY);
    b.moving(capsule(0.4, 0.3), Vec3::new(0.0, 0.69, 0.0), Quat::IDENTITY);
    let out = manifolds_for(&b, &[]);
    assert_eq!(out.len(), 1);
    let m = &out[0];
    let want = if m.a == 0 { 1.0 } else { -1.0 };
    assert!(normal_of(m).y * want > 0.99, "normal={:?}", normal_of(m));
    assert_eq!(m.points.len(), 1);
    let d = depth_of(m, 0);
    assert!((d - 0.01).abs() < 2e-3, "depth={d}");
}

#[test]
fn capsule_on_heightfield() {
    let mut b = Bodies::default();
    let hf = hf_flat(-5.0, -5.0, 11, 11, 1.0, 0.0);
    b.moving(capsule(0.4, 0.3), Vec3::new(0.0, 0.69, 0.0), Quat::IDENTITY);
    b.push_static(Shape::HeightField(0), Vec3::ZERO, Quat::IDENTITY);
    let m = manifolds_for(&b, &[hf]);
    assert!(!m.is_empty());
    assert!(normal_of(&m[0]).y.abs() > 0.99, "normal={:?}", normal_of(&m[0]));
    let dmax = deepest(&m[0]);
    assert!((dmax - 0.01).abs() < 5e-3, "depth={dmax}");
}

/// Three by three by three points of a cube.
fn cube_cloud() -> Vec<Vec3> {
    let mut pts: Vec<Vec3> = Vec::with_capacity(27);
    for x in -1..=1 {
        for y in -1..=1 {
            for z in -1..=1 {
                pts.push(Vec3::new(x as f32, y as f32, z as f32) * 0.3);
            }
        }
    }
    pts
}

#[test]
fn hull_on_heightfield() {
    let mut np = np_new(0.01);
    let hull = np_add_hull(&mut np, &cube_cloud());
    let mut b = Bodies::default();
    let hf = hf_flat(-5.0, -5.0, 11, 11, 1.0, 0.0);
    let shape = Shape::ConvexHull { hull, half: Vec3::splat(0.3).into() };
    b.moving(shape, Vec3::new(0.0, 0.29, 0.0), Quat::IDENTITY);
    b.push_static(Shape::HeightField(0), Vec3::ZERO, Quat::IDENTITY);
    let out = manifolds_with(&mut np, &b, &[hf]);
    assert!(!out.is_empty());
    assert!(normal_of(&out[0]).y.abs() > 0.99, "normal={:?}", normal_of(&out[0]));
    assert!(deepest(&out[0]) > 0.0, "depth={}", deepest(&out[0]));
}

#[test]
fn hull_on_cylinder_cap() {
    let mut np = np_new(0.01);
    let hull = np_add_hull(&mut np, &cube_cloud());
    let mut b = Bodies::default();
    b.push_static(cylinder(0.5, 0.4), Vec3::new(0.0, -0.5, 0.0), Quat::IDENTITY);
    let shape = Shape::ConvexHull { hull, half: Vec3::splat(0.3).into() };
    b.moving(shape, Vec3::new(0.0, 0.29, 0.0), Quat::IDENTITY);
    let out = manifolds_with(&mut np, &b, &[]);
    assert!(!out.is_empty());
    assert!(normal_of(&out[0]).y.abs() > 0.99, "normal={:?}", normal_of(&out[0]));
    assert!(deepest(&out[0]) > 0.0, "depth={}", deepest(&out[0]));
}

#[test]
fn cone_on_box_floor() {
    let mut b = Bodies::default();
    b.push_static(cuboid(5.0, 0.5, 5.0), Vec3::new(0.0, -0.5, 0.0), Quat::IDENTITY);
    b.moving(cone(0.5, 0.4), Vec3::new(0.0, 0.49, 0.0), Quat::IDENTITY);
    let out = manifolds_for(&b, &[]);
    assert!(!out.is_empty());
    let m = &out[0];
    let want = if m.a == 0 { 1.0 } else { -1.0 };
    assert!(normal_of(m).y * want > 0.99, "normal={:?}", normal_of(m));
    assert!((deepest(m) - 0.01).abs() < 3e-3, "depth={}", deepest(m));
    assert!(m.points.len() >= 3, "{} points", m.points.len());
}

fn child(shape: Shape, offset: Vec3) -> CompoundChild {
    CompoundChild { shape, offset: offset.into(), rot: Quat::IDENTITY.into() }
}

fn compound(np: &mut DefaultNarrowPhase, children: Vec<CompoundChild>) -> Shape {
    let compound = np.add_compound(children);
    Shape::Compound { compound, half: Vec3::ZERO.into() }
}

#[test]
fn compound_dumbbell_on_floor() {
    let mut np = np_new(0.01);
    let shape = compound(
        &mut np,
        vec![
            child(cuboid(0.3, 0.3, 0.3), Vec3::new(-0.6, 0.0, 0.0)),
            child(cuboid(0.3, 0.3, 0.3), Vec3::new(0.6, 0.0, 0.0)),
            child(cuboid(0.3, 0.3, 0.3), Vec3::new(0.6, 0.0, 0.0)),
            child(cuboid(0.6, 0.1, 0.1), Vec3::ZERO),
        ],
    );
    let mut b = Bodies::default();
    b.push_static(cuboid(5.0, 0.5, 5.0), Vec3::new(0.0, -0.5, 0.0), Quat::IDENTITY);
    b.moving(shape, Vec3::new(0.0, 0.29, 0.0), Quat::IDENTITY);
    let out = manifolds_with(&mut np, &b, &[]);
    assert!(out.len() >= 2, "{} manifolds", out.len());
    let mut tags = Vec::new();
    for m in &out {
        assert!(normal_of(m).y.abs() > 0.99, "normal={:?}", normal_of(m));
        assert!((deepest(m) - 0.01).abs() < 3e-3, "depth={}", deepest(m));
        for k in 0..m.points.len() {
            let f = m.points.get(k).feature;
            assert!(f >> 16 != 0, "feature={f}");
            tags.push(f >> 16);
        }
    }
    tags.sort();
    tags.dedup();
    assert!(tags.len() >= 2, "tags={tags:?}");
}

#[test]
fn capsule_flat_gives_two_points() {
    let mut b = Bodies::default();
    b.push_static(cuboid(5.0, 0.5, 5.0), Vec3::new(0.0, -0.5, 0.0), Quat::IDENTITY);
    let rot = Quat::from_axis_angle(Vec3::Z, core::f32::consts::FRAC_PI_2);
    b.moving(capsule(0.4, 0.3), Vec3::new(0.0, 0.29, 0.0), rot);
    let out = manifolds_for(&b, &[]);
    assert_eq!(out.len(), 1);
    assert_eq!(out[0].points.len(), 2);
}

#[test]
fn sphere_sphere_touch() {
    let mut b = Bodies::default();
    b.moving(sphere(0.5), Vec3::ZERO, Quat::IDENTITY);
    b.moving(sphere(0.5), Vec3::new(0.9, 0.0, 0.0), Quat::IDENTITY);
    let m = manifolds_for(&b, &[]);
    assert_eq!(m.len(), 1);
    assert!((normal_of(&m[0]).x - 1.0).abs() < 1e-5);
    assert!((depth_of(&m[0], 0) - 0.1).abs() < 1e-5);
}

#[test]
fn sphere_above_box_normal_points_down() {
    let mut b = Bodies::default();
    b.moving(sphere(0.5), Vec3::new(0.0, 0.9, 0.0), Quat::IDENTITY);
    b.push_static(cuboid(2.0, 0.5, 2.0), Vec3::ZERO, Quat::IDENTITY);
    let m = manifolds_for(&b, &[]);
    assert_eq!(m.len(), 1);
    assert!(normal_of(&m[0]).y < -0.99, "normal={:?}", normal_of(&m[0]));
    assert!((depth_of(&m[0], 0) - 0.1).abs() < 1e-4);
}

#[test]
fn box_box_resting_manifold() {
    let mut b = Bodies::default();
    b.moving(cuboid(0.5, 0.5, 0.5), Vec3::new(0.0, 0.95, 0.0), Quat::IDENTITY);
    b.push_static(cuboid(2.0, 0.5, 2.0), Vec3::ZERO, Quat::IDENTITY);
    let m = manifolds_for(&b, &[]);
    assert_eq!(m.len(), 1);
    assert!(normal_of(&m[0]).y < -0.99);
    assert!(m[0].points.len() > 0 && m[0].points.len() <= 4);
    assert!(depth_of(&m[0], 0) > 0.0 && depth_of(&m[0], 0) < 0.06);
}

#[test]
fn box_penetrating_deep_gives_points() {
    let mut b = Bodies::default();
    b.moving(cuboid(0.5, 0.5, 0.5), Vec3::new(0.0, 0.7, 0.0), Quat::IDENTITY);
    b.push_static(cuboid(2.0, 0.5, 2.0), Vec3::ZERO, Quat::IDENTITY);
    let m = manifolds_for(&b, &[]);
    assert_eq!(m.len(), 1);
    assert_eq!(m[0].points.len(), 4);
}

#[test]
fn cylinder_on_ground() {
    let mut b = Bodies::default();
    b.moving(cylinder(0.5, 0.3), Vec3::new(0.0, 0.9, 0.0), Quat::IDENTITY);
    b.push_static(cuboid(2.0, 0.5, 2.0), Vec3::ZERO, Quat::IDENTITY);
    let m = manifolds_for(&b, &[]);
    assert_eq!(m.len(), 1);
    assert!(normal_of(&m[0]).y < -0.99);
}

#[test]
fn sphere_on_heightfield() {
    let mut b = Bodies::default();
    let hf = hf_flat(-5.0, -5.0, 11, 11, 1.0, 0.0);
    b.moving(sphere(0.5), Vec3::new(0.0, 0.45, 0.0), Quat::IDENTITY);
    b.push_static(Shape::HeightField(0), Vec3::ZERO, Quat::IDENTITY);
    let m = manifolds_for(&b, &[hf]);
    assert_eq!(m.len(), 1);
    assert!(normal_of(&m[0]).y < -0.99, "normal={:?}", normal_of(&m[0]));
    assert!((depth_of(&m[0], 0) - 0.05).abs() < 0.02);
}

#[test]
fn compound_on_heightfield() {
    let mut np = np_new(0.01);
    let shape = compound(
        &mut np,
        vec![
            child(sphere(0.3), Vec3::new(-0.6, 0.0, 0.0)),
            child(sphere(0.3), Vec3::new(0.6, 0.0, 0.0)),
        ],
    );
    let mut b = Bodies::default();
    let hf = hf_flat(-5.0, -5.0, 11, 11, 1.0, 0.0);
    b.moving(shape, Vec3::new(0.0, 0.29, 0.0), Quat::IDENTITY);
    b.push_static(Shape::HeightField(0), Vec3::ZERO, Quat::IDENTITY);
    let out = manifolds_with(&mut np, &b, &[hf]);
    assert!(out.len() >= 2, "{} manifolds", out.len());
    for m in &out {
        assert!(normal_of(m).y.abs() > 0.99, "normal={:?}", normal_of(m));
        for k in 0..m.points.len() {
            assert!(m.points.get(k).feature >> 16 != 0);
        }
    }
}

#[test]
fn box_on_heightfield_slope() {
    let mut hf = hf_flat(-5.0, -5.0, 11, 11, 1.0, 0.0);
    for iz in 0..11 {
        for ix in 0..11 {
            hf.set_height(ix, iz, bits((ix as f32 - 5.0) * 0.2));
        }
    }
    let mut b = Bodies::default();
    b.moving(cuboid(0.4, 0.4, 0.4), Vec3::new(0.0, 0.35, 0.0), Quat::IDENTITY);
    b.push_static(Shape::HeightField(0), Vec3::ZERO, Quat::IDENTITY);
    let m = manifolds_for(&b, &[hf]);
    assert_eq!(m.len(), 1);
    assert!(normal_of(&m[0]).y < -0.9, "normal={:?}", normal_of(&m[0]));
    assert!(normal_of(&m[0]).x > 0.1, "normal={:?}", normal_of(&m[0]));
}

#[test]
fn separated_boxes_no_manifold() {
    let mut b = Bodies::default();
    b.moving(cuboid(0.5, 0.5, 0.5), Vec3::new(0.0, 5.0, 0.0), Quat::IDENTITY);
    b.push_static(cuboid(0.5, 0.5, 0.5), Vec3::ZERO, Quat::IDENTITY);
    assert!(manifolds_for(&b, &[]).is_empty());
}

#[test]
fn heightfield_crease_normal_is_not_blended() {
    let mut hf = hf_flat(-5.0, -5.0, 11, 11, 1.0, 0.0);
    for iz in 0..11 {
        for ix in 0..11 {
            hf.set_height(ix, iz, bits((ix as f32 - 5.0).max(0.0) * 0.5));
        }
    }
    let mut b = Bodies::default();
    b.moving(cuboid(0.4, 0.4, 0.4), Vec3::new(0.0, 0.35, 0.0), Quat::IDENTITY);
    b.push_static(Shape::HeightField(0), Vec3::ZERO, Quat::IDENTITY);
    let m = manifolds_for(&b, &[hf]);
    assert_eq!(m.len(), 1);
    let n = normal_of(&m[0]);
    let floor = Vec3::new(0.0, -1.0, 0.0);
    let ramp = -Vec3::new(-0.5, 1.0, 0.0).normalize();
    assert!(n.z.abs() < 1e-3, "normal={n:?}");
    assert!(n.dot(floor).max(n.dot(ramp)) > 0.995, "normal={n:?}");
}

/// Random numbers below one.
fn lcg(mut state: u32) -> impl FnMut() -> f32 {
    move || {
        state = state.wrapping_mul(1_664_525).wrapping_add(1_013_904_223);
        (state >> 8) as f32 / 16_777_216.0
    }
}

/// The polytope of a box at its place.
fn world_box(half: Vec3, pos: Vec3, rot: Quat) -> WorldPoly {
    let p = np_make_polytope(Shape::Box { half: half.into() });
    let mut w = WorldPoly::new();
    w.fill(
        &p,
        |v| (rot.rotate_vec3(v.into()) + pos).into(),
        |v| rot.rotate_vec3(v.into()).into(),
    );
    w
}

/// The unit product of two edges.
fn unit_cross(x: Vec3Bits, y: Vec3Bits) -> Option<Vec3Bits> {
    let c = Vec3::from(x).cross(y.into());
    let l2 = c.length_squared();
    if l2 > 1e-8 { Some((c * (1.0 / l2.sqrt())).into()) } else { None }
}

/// The reach of the vertices along an axis.
fn by_vertices(w: &WorldPoly, n: Vec3) -> (f32, f32) {
    let (mut lo, mut hi) = (f32::MAX, f32::MIN);
    for v in &w.verts {
        let d = Vec3::from(*v).dot(n);
        lo = if d < lo { d } else { lo };
        hi = if d > hi { d } else { hi };
    }
    (lo, hi)
}

/// The reach of a box along an axis by its half extents.
fn by_extents(half: Vec3, pos: Vec3, axes: &[Vec3; 3], n: Vec3) -> (f32, f32) {
    let r = half.x * axes[0].dot(n).abs()
        + half.y * axes[1].dot(n).abs()
        + half.z * axes[2].dot(n).abs();
    let c = pos.dot(n);
    (c - r, c + r)
}

fn gaps(axis: Vec3Bits, a: (f32, f32), b: (f32, f32)) -> AxisGap {
    AxisGap {
        degenerate: Vec3::from(axis).length_squared() < 0.5,
        ahead: bits(b.0 - a.1),
        behind: bits(a.0 - b.1),
    }
}

fn along(axis: Vec3Bits, a: (f32, f32), b: (f32, f32)) -> AxisTest {
    let g = gaps(axis, a, b);
    AxisTest { axis, degenerate: g.degenerate, ahead: g.ahead, behind: g.behind }
}

fn axes_of_rot(q: Quat) -> [Vec3; 3] {
    [q.rotate_vec3(Vec3::X), q.rotate_vec3(Vec3::Y), q.rotate_vec3(Vec3::Z)]
}

#[test]
fn box_sat_fast_matches_vertex_reference() {
    let ha = Vec3::new(0.5, 0.3, 0.7);
    let hb = Vec3::new(0.4, 0.6, 0.2);
    let mut next = lcg(0x1234_5678);
    let mut max_delta = 0.0f32;
    for k in 0..300 {
        let pa = Vec3::new(next() * 4.0 - 2.0, next() * 4.0 - 2.0, next() * 4.0 - 2.0);
        let pb = pa + Vec3::new(next() * 2.0 - 1.0, next() * 2.0 - 1.0, next() * 2.0 - 1.0);
        let ax = Vec3::new(next() + 0.2, next() + 0.5, 1.0).normalize();
        let bx = Vec3::new(next() + 0.5, next() + 0.2, 1.0).normalize();
        let qa = Quat::from_axis_angle(ax, next() * core::f32::consts::TAU);
        let qb = Quat::from_axis_angle(bx, next() * core::f32::consts::TAU);
        let (wa, wb) = (world_box(ha, pa, qa), world_box(hb, pb, qb));
        let (aa, ab) = (axes_of_rot(qa), axes_of_rot(qb));
        let fast_test = |n: Vec3Bits| {
            gaps(n, by_extents(ha, pa, &aa, n.into()), by_extents(hb, pb, &ab, n.into()))
        };
        let slow_test =
            |n: Vec3Bits| gaps(n, by_vertices(&wa, n.into()), by_vertices(&wb, n.into()));
        let fast = sat(&wa, &wb, &unit_cross, &fast_test, bits(0.01));
        let slow = sat(&wa, &wb, &unit_cross, &slow_test, bits(0.01));
        match (fast, slow) {
            (None, None) => {}
            (Some(f), Some(s)) => {
                let d = (num(f.sep) - num(s.sep)).abs();
                if d > max_delta {
                    max_delta = d;
                }
                assert!(d <= 1e-6, "{k}: {} and {}", num(f.sep), num(s.sep));
                assert!(Vec3::from(f.normal).dot(s.normal.into()).abs() > 0.999, "{k}");
                assert_eq!(f.src, s.src, "{k}");
            }
            (f, s) => panic!("{k}: {:?} and {:?}", f.is_some(), s.is_some()),
        }
    }
    assert!(max_delta > 0.0);
}

/// The contacts of two boxes by the clipped faces, reduced.
fn clipped_boxes(
    wa: &WorldPoly,
    wb: &WorldPoly,
    hit: &SatHit,
    skin: f32,
) -> Vec<ContactPoint> {
    let (ref_is_a, dir) = reference_side(hit.src, hit.normal);
    let (reference, incident) = if ref_is_a { (wa, wb) } else { (wb, wa) };
    let mut probe = ClipProbe::new();
    let mut cand =
        clip(&np_clip_arith(), reference, incident, ref_is_a, dir, bits(skin), &mut probe);
    let (calls, iters, _, candidates, largest) = probe.probe_stats();
    assert_eq!(calls, u64::from(!cand.is_empty()));
    assert_eq!(candidates, cand.len() as u64);
    assert!(iters >= largest && largest >= 4);
    let sep = (skin * 2.0).max(0.01);
    select_contacts(&mut cand, |p: ContactPoint, q: ContactPoint| {
        (Vec3::from(p.point) - Vec3::from(q.point)).length_squared() < sep * sep
    });
    cand
}

/// A box whose faces are made from its axes.
fn box_from_axes(half: Vec3, pos: Vec3, axes: &[Vec3; 3]) -> WorldPoly {
    let bits_axes: [Vec3Bits; 3] = [axes[0].into(), axes[1].into(), axes[2].into()];
    let mut w = WorldPoly::new();
    for f in 0..6usize {
        w.face_start.push(w.verts.len() as u32);
        w.face_normal.push(face_normal_of(&bits_axes, f));
        for i in 0..4usize {
            let s = box_sign(f, i);
            let t0 = axes[0] * (half.x * s.0 as f32);
            let t1 = axes[1] * (half.y * s.1 as f32);
            let t2 = axes[2] * (half.z * s.2 as f32);
            w.verts.push((pos + (t0 + t1) + t2).into());
        }
    }
    w.face_start.push(w.verts.len() as u32);
    w.edge_dirs = all_vec_bits(&[axes[1], axes[2], axes[0]]);
    w
}

#[test]
fn box_dedicated_matches_generic_full_chain() {
    let ha = Vec3::new(0.5, 0.3, 0.7);
    let hb = Vec3::new(0.4, 0.6, 0.2);
    let skin = 0.02f32;
    let mut next = lcg(0x51ED_2701);
    let mut contacts_seen = 0usize;
    for k in 0..300 {
        let qa = Quat::from_axis_angle(
            Vec3::new(next() + 0.2, next() + 0.5, 1.0).normalize(),
            next() * core::f32::consts::TAU,
        );
        let qb = Quat::from_axis_angle(
            Vec3::new(next() + 0.5, next() + 0.2, 1.0).normalize(),
            next() * core::f32::consts::TAU,
        );
        let pa = Vec3::new(next() * 4.0 - 2.0, next() * 4.0 - 2.0, next() * 4.0 - 2.0);
        let d = if k % 2 == 0 {
            Vec3::new(next() * 0.3 - 0.15, next() * 0.3 - 0.15, next() * 0.3 - 0.15)
        } else {
            Vec3::new(next() * 2.0 - 1.0, next() * 2.0 - 1.0, next() * 2.0 - 1.0)
        };
        let pb = pa + d;
        let (aa, ab) = (axes_of_rot(qa), axes_of_rot(qb));
        let test = |n: Vec3Bits| {
            gaps(n, by_extents(ha, pa, &aa, n.into()), by_extents(hb, pb, &ab, n.into()))
        };
        let run = |wa: &WorldPoly, wb: &WorldPoly| {
            sat(wa, wb, &unit_cross, &test, bits(skin))
                .map(|h| (h, clipped_boxes(wa, wb, &h, skin)))
        };
        let generic = run(&world_box(ha, pa, qa), &world_box(hb, pb, qb));
        let dedicated = run(&box_from_axes(ha, pa, &aa), &box_from_axes(hb, pb, &ab));
        match (generic, dedicated) {
            (None, None) => {}
            (Some((g, c1)), Some((s, c2))) => {
                assert_eq!(g.sep, s.sep, "{k}");
                assert!(Vec3::from(g.normal).dot(s.normal.into()).abs() > 0.9999, "{k}");
                assert_eq!(g.src, s.src, "{k}");
                assert_eq!(c1.len(), c2.len(), "{k}");
                for p in &c1 {
                    let hit = c2.iter().any(|q| {
                        q.feature == p.feature
                            && (Vec3::from(q.point) - Vec3::from(p.point)).length() <= 1e-5
                    });
                    assert!(hit, "{k}: {:?}", Vec3::from(p.point));
                }
                if !c1.is_empty() {
                    contacts_seen += 1;
                }
            }
            (g, s) => panic!("{k}: {:?} and {:?}", g.is_some(), s.is_some()),
        }
    }
    assert!(contacts_seen >= 100, "{contacts_seen} contacts");
}

/// The scan of the axes of two boxes, done by hand.
fn scan_by_hand(tests: &[AxisTest], skin: f32) -> Option<(f32, Vec3, usize)> {
    let mut best: Option<(f32, Vec3, usize)> = None;
    for (i, t) in tests.iter().enumerate() {
        if t.degenerate {
            continue;
        }
        let (ahead, behind) = (num(t.ahead), num(t.behind));
        let n = Vec3::from(t.axis);
        let (sep, n) = if ahead >= behind { (ahead, n) } else { (behind, -n) };
        if sep > skin {
            return None;
        }
        if sep > best.map_or(f32::MIN, |b| b.0) {
            best = Some((sep, n, i));
        }
    }
    best
}

/// Three directions at right angles.
fn basis(rnd: &mut impl FnMut() -> f32) -> [Vec3; 3] {
    let mut v = || Vec3::new(rnd() * 2.0 - 1.0, rnd() * 2.0 - 1.0, rnd() * 2.0 - 1.0);
    let (a, b, c) = (v(), v(), v());
    let a = a * (1.0 / a.length());
    let b = b - a * b.dot(a);
    let b = b * (1.0 / b.length());
    let c = c - a * c.dot(a) - b * c.dot(b);
    [a, b, c * (1.0 / c.length())]
}

/// The axes of two boxes: normals, then products of edges.
fn box_pair_axes(aa: &[Vec3; 3], ab: &[Vec3; 3]) -> Vec<Vec3> {
    let mut out = Vec::new();
    for axes in [aa, ab] {
        for a in axes {
            out.push(*a);
            out.push(-*a);
        }
    }
    for x in [aa[1], aa[2], aa[0]] {
        for y in [ab[1], ab[2], ab[0]] {
            if let Some(c) = unit_cross(x.into(), y.into()) {
                out.push(c.into());
            }
        }
    }
    out
}

#[test]
fn simd_matches_scalar_bitwise() {
    let mut seed = 0x1234_5678_9abc_def0u64;
    let mut rnd = || {
        seed ^= seed << 13;
        seed ^= seed >> 7;
        seed ^= seed << 17;
        (seed >> 11) as f32 / (1u64 << 53) as f32
    };
    let mut sep_cnt = 0usize;
    let mut hit_cnt = 0usize;
    for _ in 0..4000 {
        let ax = basis(&mut rnd);
        let bx = basis(&mut rnd);
        let ha = Vec3::new(0.2 + rnd() * 0.3, 0.2 + rnd() * 0.3, 0.2 + rnd() * 0.3);
        let hb = Vec3::new(0.2 + rnd() * 0.3, 0.2 + rnd() * 0.3, 0.2 + rnd() * 0.3);
        let pa = Vec3::new(rnd() * 3.0 - 1.5, rnd() * 3.0 - 1.5, rnd() * 3.0 - 1.5);
        let pb = pa + Vec3::new(rnd() * 1.6 - 0.8, rnd() * 1.6 - 0.8, rnd() * 1.6 - 0.8);
        let tests: Vec<AxisTest> = box_pair_axes(&ax, &bx)
            .iter()
            .map(|n| {
                along((*n).into(), by_extents(ha, pa, &ax, *n), by_extents(hb, pb, &bx, *n))
            })
            .collect();
        let s = scan_by_hand(&tests, 0.01);
        let d = sat_scan(&tests, 6, 6, bits(0.01));
        match (s, d) {
            (None, None) => sep_cnt += 1,
            (Some((s0, sn, si)), Some(h)) => {
                hit_cnt += 1;
                assert_eq!(bits(s0), h.sep);
                assert_eq!(si, h.index);
                assert_eq!(bits(sn.x), h.normal.x);
                assert_eq!(bits(sn.y), h.normal.y);
                assert_eq!(bits(sn.z), h.normal.z);
            }
            (a, b) => panic!("{:?} and {:?}", a.is_some(), b.is_some()),
        }
    }
    assert!(sep_cnt > 100, "{sep_cnt} separated");
    assert!(hit_cnt > 100, "{hit_cnt} touching");
}

#[test]
fn sat_tie_break_matches_scalar_on_signed_zero() {
    let ax = [Vec3::X, Vec3::Y, Vec3::Z];
    let zero = Vec3::ZERO;
    let neg = Vec3::new(-0.0, 0.0, 0.0);
    let t = along(
        Vec3::X.into(),
        by_extents(zero, neg, &ax, Vec3::X),
        by_extents(zero, zero, &ax, Vec3::X),
    );
    let s = scan_by_hand(&[t], 0.01).expect("the gap is zero");
    let d = sat_scan(&[t], 6, 6, bits(0.01)).expect("the gap is zero");
    assert_eq!(bits(s.0), d.sep);
    assert_eq!(s.2, d.index);
    assert_eq!(s.0.to_bits(), 0.0f32.to_bits());
    assert_eq!(d.sep.bits, 0.0f32.to_bits());
}

#[test]
fn simd_tail_lanes_are_ignored() {
    let ax = [Vec3::X, Vec3::Y, Vec3::Z];
    let ha = Vec3::splat(0.5);
    let (pa, pb) = (Vec3::ZERO, Vec3::new(0.95, 0.0, 0.0));
    for take in [1usize, 2, 3, 4, 5, 9, 12, 13, 21] {
        let tests: Vec<AxisTest> = (0..take)
            .map(|k| {
                let n = ax[k % 3];
                along(n.into(), by_extents(ha, pa, &ax, n), by_extents(ha, pb, &ax, n))
            })
            .collect();
        let s = scan_by_hand(&tests, 0.01);
        let d = sat_scan(&tests, 6, 6, bits(0.01));
        assert_eq!(s.is_some(), d.is_some(), "take={take}");
        if let (Some((s0, _, si)), Some(h)) = (s, d) {
            assert_eq!(bits(s0), h.sep, "take={take}");
            assert_eq!(si, h.index, "take={take}");
        }
    }
}

/// Axes that separate, degenerate axes, and where an axis comes from.
#[test]
fn axes_of_every_kind() {
    let t = |ahead: f32, behind: f32| AxisTest {
        axis: Vec3::X.into(),
        degenerate: false,
        ahead: bits(ahead),
        behind: bits(behind),
    };
    assert!(sat_scan(&[t(-1.0, -1.0), t(0.5, -2.0)], 1, 1, bits(0.1)).is_none());
    assert!(sat_scan(&[], 0, 0, bits(0.1)).is_none());
    let skip = AxisTest { degenerate: true, ..t(9.0, 9.0) };
    assert!(sat_scan(&[skip], 1, 0, bits(0.1)).is_none());
    let h = sat_scan(&[t(-3.0, -2.0), t(-4.0, -1.0), t(-5.0, -5.0)], 1, 1, bits(0.1)).unwrap();
    assert_eq!((num(h.sep), h.index, h.src), (-1.0, 1, AxisSrc::FaceB));
    assert_eq!(Vec3::from(h.normal), -Vec3::X);
    let e = sat_scan(&[skip, skip, t(-1.0, -1.0)], 1, 1, bits(0.1)).unwrap();
    assert_eq!(e.src, AxisSrc::Edge);
    assert_eq!(reference_side(AxisSrc::FaceB, h.normal), (false, Vec3::X.into()));
    assert_eq!(reference_side(AxisSrc::Edge, h.normal), (true, h.normal));
}

/// Two spheres at the same place are pushed apart along the vertical.
#[test]
fn coincident_spheres_part_vertically() {
    let mut b = Bodies::default();
    b.moving(sphere(0.5), Vec3::X, Quat::IDENTITY);
    b.moving(sphere(0.25), Vec3::X, Quat::IDENTITY);
    b.moving(sphere(0.25), Vec3::new(9.0, 0.0, 0.0), Quat::IDENTITY);
    let m = manifolds_for(&b, &[]);
    assert_eq!(m.len(), 1);
    assert_eq!(normal_of(&m[0]), Vec3::Y);
    assert_eq!(depth_of(&m[0], 0), 0.75);
}

/// A compound inside a compound is dropped, and an unknown one has no children.
#[test]
fn compounds_stay_flat() {
    let mut np = np_new(0.01);
    let inner = compound(&mut np, vec![child(sphere(1.0), Vec3::ZERO)]);
    let outer = np.add_compound(vec![child(inner, Vec3::ZERO), child(sphere(2.0), Vec3::X)]);
    assert_eq!(np.compound_children(outer).len(), 1);
    assert!(np.compound_children(9).is_empty());
    let span = |c: CompoundChild| match c.shape {
        Shape::Sphere { radius } => {
            let (o, r) = (Vec3::from(c.offset), Vec3::splat(num(radius)));
            ((o - r).into(), (o + r).into())
        }
        _ => (c.offset, c.offset),
    };
    assert_eq!(Vec3::from(np.compound_half_extents(outer, span, np_half_of)), Vec3::splat(2.0));
    assert_eq!(Vec3::from(np.compound_half_extents(9, span, np_half_of)), Vec3::ZERO);
    assert_eq!((np.compounds.len(), np.compounds.is_empty()), (2, false));
}

/// Both children of both compounds meet, and carry the tag of the first one's child.
#[test]
fn compounds_meet_child_by_child() {
    let mut np = np_new(0.01);
    let a = compound(
        &mut np,
        vec![child(sphere(0.5), Vec3::ZERO), child(sphere(0.5), Vec3::new(0.2, 0.0, 0.0))],
    );
    let b = compound(
        &mut np,
        vec![child(sphere(0.5), Vec3::ZERO), child(sphere(0.5), Vec3::new(0.1, 0.0, 0.0))],
    );
    let mut bodies = Bodies::default();
    bodies.moving(a, Vec3::ZERO, Quat::IDENTITY);
    bodies.moving(b, Vec3::new(0.0, 0.3, 0.0), Quat::IDENTITY);
    let out = manifolds_with(&mut np, &bodies, &[]);
    let tags: Vec<u32> = out.iter().map(|m| m.points.get(0).feature >> 16).collect();
    assert_eq!(tags, vec![1, 1 | 2, 2 | 1, 2]);
    let spaces: Vec<u16> = out.iter().map(|m| m.points.space()).collect();
    assert_eq!(spaces, vec![1, 1, 2, 2]);
}

/// Contacts with a provider are those of the face that closes in.
#[test]
fn providers_answer_for_their_geometry() {
    struct Floor;
    impl ProviderColliders for Floor {
        fn bounds(&self, _id: u32) -> Option<Aabb> {
            None
        }
        fn contacts_box(
            &self,
            _id: u32,
            half: Vec3,
            pos: Vec3,
            rot: Quat,
            skin: f32,
            out: &mut Vec<InteropContact>,
        ) -> bool {
            for c in 0..8usize {
                let p = pos + rot.rotate_vec3(half.signed(vxl_phys::planes::corner_signs(c)));
                if p.y < skin {
                    out.push(InteropContact {
                        point: p,
                        normal: Vec3::Y,
                        depth: -p.y,
                        feature: c as u32 + 1,
                    });
                }
            }
            true
        }
        fn contacts_point(&self, _: u32, p: Vec3, skin: f32, out: &mut Vec<InteropContact>) -> bool {
            if p.y < skin {
                out.push(InteropContact { point: p, normal: Vec3::Y, depth: -p.y, feature: 0 });
            }
            true
        }
        fn contacts_sphere(
            &self,
            _id: u32,
            c: Vec3,
            r: f32,
            skin: f32,
            out: &mut Vec<InteropContact>,
        ) -> bool {
            self.contacts_point(0, c - Vec3::Y * r, skin, out)
        }
    }
    let mut np = np_new(0.01);
    let hull = np_add_hull(&mut np, &cube_cloud());
    let mut b = Bodies::default();
    b.push_static(Shape::Provider(3), Vec3::ZERO, Quat::IDENTITY);
    b.moving(cuboid(0.5, 0.5, 0.5), Vec3::new(0.0, 0.45, 0.0), Quat::IDENTITY);
    b.moving(sphere(0.5), Vec3::new(5.0, 0.45, 0.0), Quat::IDENTITY);
    let shape = Shape::ConvexHull { hull, half: Vec3::splat(0.3).into() };
    b.moving(shape, Vec3::new(9.0, 0.29, 0.0), Quat::IDENTITY);
    b.moving(capsule(0.4, 0.3), Vec3::new(13.0, 0.69, 0.0), Quat::IDENTITY);
    b.moving(cone(0.4, 0.3), Vec3::new(17.0, 0.1, 0.0), Quat::IDENTITY);
    b.push_static(Shape::Provider(4), Vec3::ZERO, Quat::IDENTITY);
    let pairs = [(0u32, 1u32), (0, 2), (0, 3), (0, 4), (0, 5), (0, 6), (1, 0)];
    let mut out = Vec::new();
    np_collide(&mut np, &b, &pairs, &[], &Floor, &mut out);
    assert_eq!(out.len(), 5);
    assert_eq!(out[0].points.len(), 4);
    for m in &out[..4] {
        assert_eq!(normal_of(m), Vec3::Y);
    }
    assert_eq!(normal_of(&out[4]), -Vec3::Y);
    assert!((depth_of(&out[0], 0) - 0.05).abs() < 1e-6);
}

/// With prediction on, boxes that are about to meet touch already.
#[test]
fn prediction_sees_what_is_about_to_meet() {
    let mut b = Bodies::default();
    b.moving(cuboid(0.5, 0.5, 0.5), Vec3::new(0.0, 1.1, 0.0), Quat::IDENTITY);
    b.push_static(cuboid(0.5, 0.5, 0.5), Vec3::ZERO, Quat::IDENTITY);
    b.set.linvel[0] = Vec3::new(0.0, -12.0, 0.0).into();
    let mut np = np_new(0.01);
    assert!(manifolds_with(&mut np, &b, &[]).is_empty());
    np.set_predict_dt(bits(1.0 / 60.0));
    let m = manifolds_with(&mut np, &b, &[]);
    assert_eq!((m.len(), m[0].points.len()), (1, 4));
    assert!((depth_of(&m[0], 0) + 0.1).abs() < 1e-5);
    b.set.linvel[0] = Vec3::new(0.0, 12.0, 0.0).into();
    assert!(manifolds_with(&mut np, &b, &[]).is_empty());
}

/// The points of a hull are counted from one, the vertices of a box from zero.
#[test]
fn terrain_contacts_are_named_by_their_points() {
    let mut np = np_new(0.01);
    let corners: Vec<Vec3> =
        (0..8).map(|c| Vec3::splat(0.3).signed(vxl_phys::planes::corner_signs(c))).collect();
    let hull = np_add_hull(&mut np, &corners);
    let mut b = Bodies::default();
    let hf = hf_flat(-5.0, -5.0, 11, 11, 1.0, 0.0);
    let shape = Shape::ConvexHull { hull, half: Vec3::splat(0.3).into() };
    b.moving(shape, Vec3::new(0.0, 0.29, 0.0), Quat::IDENTITY);
    b.push_static(Shape::HeightField(0), Vec3::ZERO, Quat::IDENTITY);
    let m = manifolds_with(&mut np, &b, &[hf]);
    let mut names: Vec<u32> = (0..4).map(|k| m[0].points.get(k).feature).collect();
    names.sort();
    let mut low: Vec<u32> =
        (0..8u32).filter(|c| corners[*c as usize].y < 0.0).map(|c| c + 1).collect();
    low.sort();
    assert_eq!(names, low);
}

// ---- polytopes

/// The normal of a ring by Newell's formula.
fn newell_normal(verts: &[Vec3]) -> Vec3 {
    let mut n = Vec3::ZERO;
    for i in 0..verts.len() {
        let (a, b) = (verts[i], verts[(i + 1) % verts.len()]);
        n += Vec3::new(
            (a.y - b.y) * (a.z + b.z),
            (a.z - b.z) * (a.x + b.x),
            (a.x - b.x) * (a.y + b.y),
        );
    }
    n.normalize()
}

fn winding(p: &ConvexPolytope, least: f32) {
    for f in 0..p.face_normal.len() {
        let (s, e) = p.face_range(f);
        assert_eq!(p.face_vert_count(f), e - s);
        let ring: Vec<Vec3> = p.verts[s..e].iter().map(|v| (*v).into()).collect();
        let n = newell_normal(&ring);
        assert!(n.dot(p.face_normal[f].into()) > least, "face {f}");
    }
}

#[test]
fn box_newell_normals_match_declared() {
    winding(&np_make_polytope(cuboid(0.5, 1.0, 2.0)), 0.999);
}

#[test]
fn cylinder_newell_normals_match_declared() {
    winding(&np_cylinder_polytope(0.5, 1.0), 0.99);
}

#[test]
fn box_has_three_unique_edge_dirs() {
    assert_eq!(np_make_polytope(cuboid(0.5, 0.5, 0.5)).edge_dirs.len(), 3);
}

/// A polytope is made once for each shape.
#[test]
fn polytopes_are_cached() {
    let mut cache = PolyCache::new();
    let i = cache.poly_for(&cuboid(1.0, 2.0, 3.0), np_make_polytope);
    let j = cache.poly_for(&cylinder(1.0, 2.0), np_make_polytope);
    assert_eq!((i, j), (Some(0), Some(1)));
    assert_eq!(cache.poly_for(&cuboid(1.0, 2.0, 3.0), np_make_polytope), Some(0));
    assert_eq!(cache.poly_for(&sphere(1.0), np_make_polytope), None);
    assert_eq!(cache.polys.len(), 2);
    assert_ne!(poly_key(&cone(1.0, 2.0)), poly_key(&cylinder(1.0, 2.0)));
    assert_eq!(poly_key(&sphere(1.0)), 0);
}

/// The faces of a box, its corners, and the triangles of its faces.
#[test]
fn boxes_have_six_rings() {
    let p = np_make_polytope(cuboid(1.0, 2.0, 3.0));
    assert_eq!((p.verts.len(), p.face_normal.len(), p.edges().len()), (24, 6, 24));
    assert_eq!(Vec3::from(p.verts[0]), Vec3::new(1.0, -2.0, -3.0));
    let fans = p.fan_triangles();
    assert_eq!(fans.len(), 12);
    assert_eq!((fans[0], fans[1], fans[2]), ((0, 1, 2), (0, 2, 3), (4, 5, 6)));
    assert_eq!(Vec3::from(box_corner_point(Vec3::splat(1.0).into(), 5)), Vec3::new(1.0, -1.0, 1.0));
    assert_eq!(box_face_corner(0, 1), 3);
    assert_eq!((ring_size(3), ring_size(16)), (8, 16));
}

/// A quarter turn has another fingerprint than none.
#[test]
fn fingerprints_of_rotations() {
    let q = Quat::from_axis_angle(Vec3::Y, 1.0);
    assert_ne!(rot_fp(q.into()), rot_fp(Quat::IDENTITY.into()));
    assert_eq!(rot_fp(q.into()), rot_fp(q.into()));
    assert_eq!(rot_fp(Quat { x: 0.0, y: 0.0, z: 0.0, w: 1.0 }.into()), 0x3f80_0000);
}

/// Points inside and outside a set of planes.
#[test]
fn plane_scan_tells_inside() {
    assert_eq!(plane_scan(&all_bits(&[-1.0, -0.5, -2.0])), (true, Some(1)));
    assert_eq!(plane_scan(&all_bits(&[-1.0, 0.5])), (false, Some(0)));
    assert_eq!(plane_scan(&[]), (true, None));
}

// ---- distances of convex solids

fn unit_box_hull() -> ConvexHull {
    let mut pts = Vec::new();
    for x in [-0.5f32, 0.5] {
        for y in [-0.5f32, 0.5] {
            for z in [-0.5f32, 0.5] {
                pts.push(Vec3::new(x, y, z));
            }
        }
    }
    solid_hull(&pts)
}

fn placed_box(pos: Vec3) -> PlacedSolid<'static> {
    PlacedSolid {
        kind: SolidKind::Box { half: Vec3::splat(0.5).into() },
        hull: None,
        pos,
        rot: Mat3::IDENTITY,
    }
}

#[test]
fn gjk_separated_distance_matches_analytic() {
    match solid_gjk(&placed_box(Vec3::ZERO), &placed_box(Vec3::new(1.5, 0.0, 0.0))) {
        Gjk::Separated { dist, .. } => {
            assert!((num(dist) - 0.5).abs() < 1e-3, "dist={}", num(dist));
        }
        Gjk::Intersecting => panic!("the boxes are apart"),
    }
}

#[test]
fn epa_penetration_matches_analytic() {
    let (a, b) = (placed_box(Vec3::ZERO), placed_box(Vec3::new(0.8, 0.0, 0.0)));
    assert!(matches!(solid_gjk(&a, &b), Gjk::Intersecting));
    let (n, d, _p) = solid_epa(&a, &b, 32).expect("the boxes meet");
    assert!((d - 0.2).abs() < 0.02, "depth={d}");
    assert!(n.x.abs() > 0.99, "normal={n:?}");
}

#[test]
fn hull_box_intersection_and_separation() {
    let hull = unit_box_hull();
    let at = |x: f32| {
        solid_hull_box_penetration(
            &hull,
            Vec3::ZERO,
            Quat::IDENTITY,
            Vec3::splat(0.5),
            Vec3::new(x, 0.0, 0.0),
            Quat::IDENTITY,
            32,
        )
    };
    let (n, d, _) = at(0.8).expect("the solids meet");
    assert!(d > 0.05 && d < 0.35, "depth={d}");
    assert!(n.x.abs() > 0.9, "normal={n:?}");
    assert!(at(1.5).is_none());
}

#[test]
fn halfspace_clip_is_exact_half_cube() {
    let pts: Vec<Vec3> = unit_box_hull().points.iter().map(|p| (*p).into()).collect();
    let pts = solid_clip_halfspace(&pts, Vec3::X, 0.0);
    assert!(pts.iter().all(|p| p.x <= 1e-6), "{pts:?}");
    for y in [-0.5f32, 0.5] {
        for z in [-0.5f32, 0.5] {
            assert!(
                pts.iter().any(|p| (*p - Vec3::new(0.0, y, z)).length() < 1e-5),
                "no corner at {y}, {z}"
            );
        }
    }
}

/// Whether a point is nearer to seed `i` than to all others.
fn in_voronoi_cell(seeds: &[Vec3], i: usize, q: Vec3, tol: f32) -> bool {
    for (j, s) in seeds.iter().enumerate() {
        if j == i {
            continue;
        }
        let n = *s - seeds[i];
        let mid = (seeds[i] + *s) * 0.5;
        if n.dot(q) > n.dot(mid) + tol {
            return false;
        }
    }
    true
}

#[test]
fn voronoi_fracture_cells_tile_convex_body() {
    let h = unit_box_hull();
    let mut seeds = Vec::new();
    for x in [-0.3f32, 0.3] {
        for y in [-0.25f32, 0.35] {
            for z in [-0.35f32, 0.25] {
                seeds.push(Vec3::new(x, y, z));
            }
        }
    }
    let cells = solid_fracture_voronoi_hull(&h, &seeds);
    assert_eq!(cells.len(), seeds.len());
    for (i, cell) in cells.iter().enumerate() {
        assert!(!cell.is_empty());
        assert!(cell.iter().all(|p| in_voronoi_cell(&seeds, i, *p, 1e-4)));
    }
    let mut checked = 0;
    for i in 0..9 {
        for j in 0..9 {
            for k in 0..9 {
                let q = Vec3::new(
                    -0.45 + 0.9 * i as f32 / 8.0,
                    -0.45 + 0.9 * j as f32 / 8.0,
                    -0.45 + 0.9 * k as f32 / 8.0,
                );
                let mut near = false;
                for (a, sa) in seeds.iter().enumerate() {
                    for sb in seeds.iter().skip(a + 1) {
                        let dv = *sb - *sa;
                        if dv.length_squared() < 1e-12 {
                            continue;
                        }
                        let n = dv.normalize();
                        let mid = (*sa + *sb) * 0.5;
                        if (n.dot(q) - n.dot(mid)).abs() < 5e-3 {
                            near = true;
                        }
                    }
                }
                if near {
                    continue;
                }
                let cnt =
                    (0..seeds.len()).filter(|c| in_voronoi_cell(&seeds, *c, q, 1e-6)).count();
                assert_eq!(cnt, 1, "{q:?} is in {cnt} cells");
                checked += 1;
            }
        }
    }
    assert!(checked > 200, "{checked} points");
}

#[test]
fn support_point_is_extremal() {
    let h = unit_box_hull();
    let dots = |d: Vec3| {
        let v: Vec<f32> = h.points.iter().map(|p| Vec3::from(*p).dot(d)).collect();
        all_bits(&v)
    };
    let p = Vec3::from(h.support_point(&dots(Vec3::new(1.0, -1.0, 1.0))));
    assert_eq!(p, Vec3::new(0.5, -0.5, 0.5));
    let rot = Mat3::from_quat(Quat::from_axis_angle(Vec3::Y, core::f32::consts::FRAC_PI_2));
    let hs = PlacedSolid {
        kind: SolidKind::Hull { hull: 0 },
        hull: Some(&h),
        pos: Vec3::ZERO,
        rot,
    };
    let p = hs.support(Vec3::X);
    assert!((p.x - 0.5).abs() < 1e-5, "{p:?}");
    for q in &h.points {
        assert!(rot.mul_vec3((*q).into()).x <= p.x + 1e-5, "{q:?}");
    }
    assert_eq!(hs.interior(), Vec3::ZERO);
}

/// The way out points from the second solid to the first.
#[test]
fn ways_out_push_the_first_solid() {
    for at in [Vec3::new(0.8, 0.1, 0.05), Vec3::new(0.8, -0.3, 0.2)] {
        let (n, d, _) = solid_epa(&placed_box(Vec3::ZERO), &placed_box(at), 32).unwrap();
        assert!(n.x < -0.99 && (d - 0.2).abs() < 1e-3, "{n:?} {d}");
        let (n, d, _) = solid_epa(&placed_box(at), &placed_box(Vec3::ZERO), 32).unwrap();
        assert!(n.x > 0.99 && (d - 0.2).abs() < 1e-3, "{n:?} {d}");
    }
    let ball = |at: Vec3| PlacedSolid {
        kind: SolidKind::Sphere { radius: bits(0.5) },
        ..placed_box(at)
    };
    let (n, d, _) =
        solid_epa(&placed_box(Vec3::ZERO), &ball(Vec3::new(0.9, 0.2, 0.1)), 32).unwrap();
    assert!(n.x < -0.98 && (d - 0.1).abs() < 0.02, "{n:?} {d}");
    let at = Vec3::new(0.3, 0.4, 0.5);
    match solid_gjk(&ball(Vec3::ZERO), &ball(at * 3.0)) {
        Gjk::Separated { point_a, point_b, dist } => {
            assert!((num(dist) - (at.length() * 3.0 - 1.0)).abs() < 1e-2, "{}", num(dist));
            let gap = Vec3::from(point_b) - Vec3::from(point_a);
            assert!((gap.length() - num(dist)).abs() < 1e-2, "{gap:?}");
        }
        Gjk::Intersecting => panic!("the balls are apart"),
    }
}

/// Capsules and cones against boxes, apart and in touch.
#[test]
fn round_solids_have_supports() {
    let cap = PlacedSolid {
        kind: SolidKind::Capsule { half_height: bits(1.0), radius: bits(0.5) },
        hull: None,
        pos: Vec3::ZERO,
        rot: Mat3::IDENTITY,
    };
    assert_eq!(cap.support(Vec3::Y), Vec3::new(0.0, 1.5, 0.0));
    assert_eq!(cap.support(-Vec3::Y), Vec3::new(0.0, -1.5, 0.0));
    let con = PlacedSolid {
        kind: SolidKind::Prism { half_height: bits(1.0), radius: bits(0.5), cone: true },
        ..placed_box(Vec3::ZERO)
    };
    assert_eq!(con.support(Vec3::Y), Vec3::new(0.0, 1.0, 0.0));
    assert_eq!(con.support(Vec3::X), Vec3::new(0.5, -1.0, 0.0));
    match solid_gjk(&cap, &placed_box(Vec3::new(3.0, 0.0, 0.0))) {
        Gjk::Separated { dist, .. } => assert!((num(dist) - 2.0).abs() < 1e-3),
        Gjk::Intersecting => panic!("the solids are apart"),
    }
    let ball = PlacedSolid {
        kind: SolidKind::Sphere { radius: bits(0.5) },
        ..placed_box(Vec3::new(0.2, 0.0, 0.0))
    };
    assert!(matches!(solid_gjk(&cap, &ball), Gjk::Intersecting));
}

/// The two ways a half space can cut nothing.
#[test]
fn clips_that_keep_all_or_nothing() {
    let pts: Vec<Vec3> = unit_box_hull().points.iter().map(|p| (*p).into()).collect();
    assert_eq!(solid_clip_halfspace(&pts, Vec3::X, 2.0), pts);
    assert!(solid_clip_halfspace(&pts, Vec3::X, -2.0).is_empty());
    assert!(np_fracture_hull(&np_new(0.01), 3, &[Vec3::ZERO]).is_none());
    let mut np = np_new(0.01);
    let id = np_add_hull(&mut np, &pts);
    assert_eq!(np.hull_points(id).len(), 8);
    assert!(np.hull_points(7).is_empty());
    assert_eq!(Vec3::from(np.hull_half_extents(id, np_half_of)), Vec3::splat(0.5));
    assert_eq!(Vec3::from(np.hull_half_extents(7, np_half_of)), Vec3::ZERO);
    let empty = np_add_hull(&mut np, &[]);
    assert_eq!(Vec3::from(np.hull_half_extents(empty, np_half_of)), Vec3::ZERO);
    let same = np_fracture_hull(&np, id, &[Vec3::ZERO, Vec3::ZERO]).unwrap();
    assert_eq!(same, vec![pts.clone(), pts]);
}

/// The look ahead is off until it is set.
#[test]
fn prediction_is_off_by_default() {
    let mut np = np_new(0.01);
    assert_eq!(num(np.min_point_sep), 0.02);
    assert_eq!(num(np_new(0.001).min_point_sep), 0.01);
    assert_eq!(num(np.predict_inflate(bits(3.0))), 0.0);
    np.set_predict_dt(bits(-1.0));
    assert_eq!(num(np.predict_dt), 0.0);
    np.set_predict_dt(bits(0.1));
    assert_eq!(num(np.predict_inflate(bits(3.0))), 3.0);
    assert_eq!(np.probe_stats(), (0, 0, 0, 0, 0));
}

/// A gap no wider than the skin still gives a contact.
#[test]
fn spheres_within_the_skin_touch() {
    let mut b = Bodies::default();
    b.moving(sphere(0.5), Vec3::ZERO, Quat::IDENTITY);
    b.moving(sphere(0.5), Vec3::new(1.005, 0.0, 0.0), Quat::IDENTITY);
    let m = manifolds_for(&b, &[]);
    assert_eq!(m.len(), 1);
    assert_eq!((m[0].a, m[0].b), (0, 1));
    assert_eq!(normal_of(&m[0]), Vec3::X);
    assert_eq!(m[0].points.len(), 1);
    assert!((depth_of(&m[0], 0) + 0.005).abs() < 1e-6);
    let mut b = Bodies::default();
    b.moving(sphere(0.5), Vec3::ZERO, Quat::IDENTITY);
    b.moving(sphere(0.5), Vec3::new(1.02, 0.0, 0.0), Quat::IDENTITY);
    assert!(manifolds_for(&b, &[]).is_empty());
    let mut b = Bodies::default();
    b.moving(sphere(0.5), Vec3::new(0.0, 1.005, 0.0), Quat::IDENTITY);
    b.push_static(cuboid(0.5, 0.5, 0.5), Vec3::ZERO, Quat::IDENTITY);
    let m = manifolds_for(&b, &[]);
    assert_eq!((m.len(), normal_of(&m[0])), (1, -Vec3::Y));
    assert!((depth_of(&m[0], 0) + 0.005).abs() < 1e-5);
}

/// Two lists of pairs give what their concatenation gives, whatever was there before.
#[test]
fn pairs_can_be_tested_in_pieces() {
    let mut np = np_new(0.01);
    let mut b = Bodies::default();
    for i in 0..6 {
        let at = Vec3::new(i as f32 * 0.8, 0.0, 0.0);
        if i % 2 == 0 {
            b.moving(sphere(0.5), at, Quat::IDENTITY);
        } else {
            b.moving(cuboid(0.5, 0.5, 0.5), at, Quat::IDENTITY);
        }
    }
    let pairs = all_pairs(&b);
    let mut whole = Vec::new();
    np_collide(&mut np, &b, &pairs, &[], &NoProviders, &mut whole);
    for cut in [0usize, 4, 9, pairs.len()] {
        let mut parts = Vec::new();
        let mut part = whole.clone();
        for piece in [&pairs[..cut], &pairs[cut..]] {
            np_collide(&mut np, &b, piece, &[], &NoProviders, &mut part);
            parts.extend(part.iter().copied());
        }
        assert_eq!(parts.len(), whole.len());
        for (m, w) in parts.iter().zip(&whole) {
            assert_eq!((m.a, m.b, m.normal), (w.a, w.b, w.normal));
            assert!(pairs.contains(&(m.a, m.b)));
            assert_eq!(m.points.len(), w.points.len());
            assert!((1..=4).contains(&m.points.len()));
            for k in 0..m.points.len() {
                assert_eq!(m.points.get(k), w.points.get(k));
            }
        }
    }
}

/// The normal of a hit is the axis with its number, turned towards the second box.
#[test]
fn hits_lie_along_their_axis() {
    let h = Vec3::splat(0.5);
    let ax = axes_of_rot(Quat::IDENTITY);
    let normals = world_box(h, Vec3::ZERO, Quat::IDENTITY).face_normal;
    for (at, expected) in [
        (Vec3::new(0.9, 0.1, 0.2), Vec3::X),
        (Vec3::new(-0.9, 0.1, 0.2), -Vec3::X),
        (Vec3::new(0.1, -0.9, 0.2), -Vec3::Y),
    ] {
        let (wa, wb) =
            (world_box(h, Vec3::ZERO, Quat::IDENTITY), world_box(h, at, Quat::IDENTITY));
        let test = |n: Vec3Bits| {
            gaps(n, by_extents(h, Vec3::ZERO, &ax, n.into()), by_extents(h, at, &ax, n.into()))
        };
        let hit = sat(&wa, &wb, &unit_cross, &test, bits(0.01)).expect("the boxes meet");
        assert_eq!(Vec3::from(hit.normal), expected);
        let axis = Vec3::from(normals[hit.index]);
        assert!(axis == expected || axis == -expected);
        assert_eq!(hit.src, AxisSrc::FaceA);
    }
}
