//! Ropes in single precision.

#![allow(dead_code)]

use std::ops::{Add, AddAssign, Mul, Neg, Sub, SubAssign};
use vxl_phys::mesh::{BinQuery, BinSpan, TriMesh, TriProducts, TriRegion, closest as first_closest, in_band, quad_tris, tri_region};
use vxl_phys::replay::Hasher;
use vxl_phys::rope::{Link, Pulled, Rope, node_count};
use vxl_phys::scalar::{Quat as QuatBits, Scalar, Vec3 as Vec3Bits};

/// The bit pattern of a number.
pub fn bits(v: f32) -> Scalar {
    Scalar { bits: v.to_bits() }
}

/// The number of a bit pattern.
pub fn num(s: Scalar) -> f32 {
    f32::from_bits(s.bits)
}

/// The bit patterns of a list of numbers.
pub fn all_bits(v: &[f32]) -> Vec<Scalar> {
    v.iter().map(|x| bits(*x)).collect()
}

#[derive(Clone, Copy, Debug, PartialEq, Default)]
pub struct Vec3 {
    pub x: f32,
    pub y: f32,
    pub z: f32,
}

impl Vec3 {
    pub const ZERO: Vec3 = Vec3 { x: 0.0, y: 0.0, z: 0.0 };
    pub const X: Vec3 = Vec3 { x: 1.0, y: 0.0, z: 0.0 };
    pub const Y: Vec3 = Vec3 { x: 0.0, y: 1.0, z: 0.0 };
    pub const Z: Vec3 = Vec3 { x: 0.0, y: 0.0, z: 1.0 };

    pub fn new(x: f32, y: f32, z: f32) -> Vec3 {
        Vec3 { x, y, z }
    }

    pub fn splat(v: f32) -> Vec3 {
        Vec3::new(v, v, v)
    }

    pub fn dot(self, o: Vec3) -> f32 {
        self.x * o.x + self.y * o.y + self.z * o.z
    }

    pub fn cross(self, o: Vec3) -> Vec3 {
        Vec3::new(
            self.y * o.z - self.z * o.y,
            self.z * o.x - self.x * o.z,
            self.x * o.y - self.y * o.x,
        )
    }

    pub fn length_squared(self) -> f32 {
        self.dot(self)
    }

    pub fn length(self) -> f32 {
        self.length_squared().sqrt()
    }

    pub fn normalize(self) -> Vec3 {
        let l = self.length();
        if l > 0.0 {
            self * (1.0 / l)
        } else {
            Vec3::ZERO
        }
    }

    pub fn min(self, o: Vec3) -> Vec3 {
        Vec3::new(self.x.min(o.x), self.y.min(o.y), self.z.min(o.z))
    }

    pub fn max(self, o: Vec3) -> Vec3 {
        Vec3::new(self.x.max(o.x), self.y.max(o.y), self.z.max(o.z))
    }

    pub fn get(self, axis: usize) -> f32 {
        match axis {
            0 => self.x,
            1 => self.y,
            _ => self.z,
        }
    }

    /// The vector with each component given the sign of the corresponding number.
    pub fn signed(self, s: (i8, i8, i8)) -> Vec3 {
        Vec3::new(self.x * s.0 as f32, self.y * s.1 as f32, self.z * s.2 as f32)
    }
}

impl Add for Vec3 {
    type Output = Vec3;
    fn add(self, o: Vec3) -> Vec3 {
        Vec3::new(self.x + o.x, self.y + o.y, self.z + o.z)
    }
}

impl AddAssign for Vec3 {
    fn add_assign(&mut self, o: Vec3) {
        *self = *self + o;
    }
}

impl Sub for Vec3 {
    type Output = Vec3;
    fn sub(self, o: Vec3) -> Vec3 {
        Vec3::new(self.x - o.x, self.y - o.y, self.z - o.z)
    }
}

impl SubAssign for Vec3 {
    fn sub_assign(&mut self, o: Vec3) {
        *self = *self - o;
    }
}

impl Mul<f32> for Vec3 {
    type Output = Vec3;
    fn mul(self, s: f32) -> Vec3 {
        Vec3::new(self.x * s, self.y * s, self.z * s)
    }
}

impl Neg for Vec3 {
    type Output = Vec3;
    fn neg(self) -> Vec3 {
        Vec3::new(-self.x, -self.y, -self.z)
    }
}

impl From<Vec3Bits> for Vec3 {
    fn from(v: Vec3Bits) -> Vec3 {
        Vec3::new(num(v.x), num(v.y), num(v.z))
    }
}

impl From<Vec3> for Vec3Bits {
    fn from(v: Vec3) -> Vec3Bits {
        Vec3Bits { x: bits(v.x), y: bits(v.y), z: bits(v.z) }
    }
}

/// The bit patterns of a list of vectors.
pub fn all_vec_bits(v: &[Vec3]) -> Vec<Vec3Bits> {
    v.iter().map(|p| Vec3Bits::from(*p)).collect()
}

/// A unit quaternion.
#[derive(Clone, Copy, Debug, PartialEq)]
pub struct Quat {
    pub x: f32,
    pub y: f32,
    pub z: f32,
    pub w: f32,
}

impl Quat {
    pub const IDENTITY: Quat = Quat { x: 0.0, y: 0.0, z: 0.0, w: 1.0 };

    pub fn from_axis_angle(axis: Vec3, angle: f32) -> Quat {
        let (s, c) = (angle * 0.5).sin_cos();
        Quat { x: axis.x * s, y: axis.y * s, z: axis.z * s, w: c }
    }

    pub fn conjugate(self) -> Quat {
        Quat { x: -self.x, y: -self.y, z: -self.z, w: self.w }
    }

    pub fn mul_quat(self, o: Quat) -> Quat {
        Quat {
            x: self.w * o.x + self.x * o.w + self.y * o.z - self.z * o.y,
            y: self.w * o.y - self.x * o.z + self.y * o.w + self.z * o.x,
            z: self.w * o.z + self.x * o.y - self.y * o.x + self.z * o.w,
            w: self.w * o.w - self.x * o.x - self.y * o.y - self.z * o.z,
        }
    }

    pub fn normalize(self) -> Quat {
        let l = (self.x * self.x + self.y * self.y + self.z * self.z + self.w * self.w).sqrt();
        if l > 0.0 {
            let i = 1.0 / l;
            Quat { x: self.x * i, y: self.y * i, z: self.z * i, w: self.w * i }
        } else {
            Quat::IDENTITY
        }
    }

    pub fn rotate_vec3(self, v: Vec3) -> Vec3 {
        let q = Vec3::new(self.x, self.y, self.z);
        let t = q.cross(v) * 2.0;
        v + t * self.w + q.cross(t)
    }
}

impl From<QuatBits> for Quat {
    fn from(q: QuatBits) -> Quat {
        Quat { x: num(q.x), y: num(q.y), z: num(q.z), w: num(q.w) }
    }
}

impl From<Quat> for QuatBits {
    fn from(q: Quat) -> QuatBits {
        QuatBits { x: bits(q.x), y: bits(q.y), z: bits(q.z), w: bits(q.w) }
    }
}

/// A matrix of three columns.
#[derive(Clone, Copy, Debug, PartialEq)]
pub struct Mat3 {
    pub c: [Vec3; 3],
}

impl Mat3 {
    pub const IDENTITY: Mat3 = Mat3 { c: [Vec3::X, Vec3::Y, Vec3::Z] };
    pub const ZERO: Mat3 = Mat3 { c: [Vec3::ZERO, Vec3::ZERO, Vec3::ZERO] };

    pub fn from_quat(q: Quat) -> Mat3 {
        Mat3 { c: [q.rotate_vec3(Vec3::X), q.rotate_vec3(Vec3::Y), q.rotate_vec3(Vec3::Z)] }
    }

    pub fn from_diagonal(d: Vec3) -> Mat3 {
        Mat3 { c: [Vec3::X * d.x, Vec3::Y * d.y, Vec3::Z * d.z] }
    }

    pub fn mul_vec3(self, v: Vec3) -> Vec3 {
        self.c[0] * v.x + self.c[1] * v.y + self.c[2] * v.z
    }

    pub fn transpose(self) -> Mat3 {
        let [a, b, c] = self.c;
        Mat3 {
            c: [Vec3::new(a.x, b.x, c.x), Vec3::new(a.y, b.y, c.y), Vec3::new(a.z, b.z, c.z)],
        }
    }

    pub fn mul_mat3(self, o: Mat3) -> Mat3 {
        Mat3 { c: [self.mul_vec3(o.c[0]), self.mul_vec3(o.c[1]), self.mul_vec3(o.c[2])] }
    }

    pub fn add_mat3(self, o: Mat3) -> Mat3 {
        Mat3 { c: [self.c[0] + o.c[0], self.c[1] + o.c[1], self.c[2] + o.c[2]] }
    }

    /// The inverse; zero if the matrix has none.
    pub fn inverse(self) -> Mat3 {
        let [a, b, c] = self.c;
        let det = a.dot(b.cross(c));
        if det.abs() <= f32::MIN_POSITIVE {
            return Mat3::ZERO;
        }
        let i = 1.0 / det;
        Mat3 { c: [b.cross(c) * i, c.cross(a) * i, a.cross(b) * i] }.transpose()
    }
}

/// A box along the axes.
#[derive(Clone, Copy, Debug)]
pub struct Aabb {
    pub min: Vec3,
    pub max: Vec3,
}

/// A point of a surface near a query point. The distance is positive outside.
#[derive(Clone, Copy, Debug)]
pub struct SurfaceHit {
    pub point: Vec3,
    pub normal: Vec3,
    pub signed_dist: f32,
}

/// A contact with a surface; the normal points out of it, and a positive depth is
/// a penetration.
#[derive(Clone, Copy, Debug)]
pub struct InteropContact {
    pub point: Vec3,
    pub normal: Vec3,
    pub depth: f32,
    pub feature: u32,
}

/// A surface that knows its nearest point.
pub trait CollisionProvider {
    fn bounds(&self) -> Aabb;

    fn closest_point(&self, p: Vec3) -> Option<SurfaceHit>;

    /// The corners of a box that touch the surface.
    fn contacts_box(
        &self,
        half: Vec3,
        pos: Vec3,
        rot: Quat,
        skin: f32,
        out: &mut Vec<InteropContact>,
    ) -> bool {
        let mut any = false;
        for corner in 0..8usize {
            let p = pos + rot.rotate_vec3(half.signed(vxl_phys::planes::corner_signs(corner)));
            if let Some(hit) = self.closest_point(p) {
                let depth = -hit.signed_dist;
                if depth > -skin {
                    out.push(InteropContact {
                        point: hit.point,
                        normal: hit.normal,
                        depth,
                        feature: corner as u32,
                    });
                    any = true;
                }
            }
        }
        any
    }
}

/// Surfaces by number. A query returns whether it is supported; an unsupported one
/// adds nothing.
pub trait ProviderColliders {
    fn bounds(&self, id: u32) -> Option<Aabb>;

    fn contacts_box(
        &self,
        id: u32,
        half: Vec3,
        pos: Vec3,
        rot: Quat,
        skin: f32,
        out: &mut Vec<InteropContact>,
    ) -> bool;

    fn contacts_point(&self, id: u32, p: Vec3, skin: f32, out: &mut Vec<InteropContact>) -> bool;

    /// As `contacts_point`, but sound for points deep inside.
    fn contacts_point_boundary(
        &self,
        id: u32,
        p: Vec3,
        skin: f32,
        out: &mut Vec<InteropContact>,
    ) -> bool {
        self.contacts_point(id, p, skin, out)
    }

    fn contacts_sphere(
        &self,
        id: u32,
        center: Vec3,
        radius: f32,
        skin: f32,
        out: &mut Vec<InteropContact>,
    ) -> bool;
}

/// No surfaces at all.
pub struct NoProviders;

impl ProviderColliders for NoProviders {
    fn bounds(&self, _id: u32) -> Option<Aabb> {
        None
    }

    fn contacts_box(
        &self,
        _id: u32,
        _half: Vec3,
        _pos: Vec3,
        _rot: Quat,
        _skin: f32,
        _out: &mut Vec<InteropContact>,
    ) -> bool {
        false
    }

    fn contacts_point(&self, _: u32, _: Vec3, _: f32, _: &mut Vec<InteropContact>) -> bool {
        false
    }

    fn contacts_sphere(
        &self,
        _id: u32,
        _center: Vec3,
        _radius: f32,
        _skin: f32,
        _out: &mut Vec<InteropContact>,
    ) -> bool {
        false
    }
}

/// The least side of a bin of the grid.
pub const MIN_BIN: f32 = 0.5;

/// The mesh of the triangles; those with missing corners are dropped.
pub fn mesh_new(verts: &[Vec3], tris: Vec<[u32; 3]>) -> TriMesh {
    assert!(verts.len() <= u32::MAX as usize && tris.len() <= u32::MAX as usize);
    TriMesh::new(all_vec_bits(verts), tris, |a, b, c| {
        let (a, b, c) = (Vec3::from(a), Vec3::from(b), Vec3::from(c));
        let n = (b - a).cross(c - a);
        let l = n.length();
        (if l > 1e-12 { n * (1.0 / l) } else { Vec3::Y }).into()
    })
}

/// A piece of a plane, with sides `2 u` and `2 v` and normal `n`.
pub fn mesh_quad(center: Vec3, u: Vec3, v: Vec3, n: Vec3) -> TriMesh {
    let p = |su: f32, sv: f32| center + u * su + v * sv;
    let verts = vec![p(-1.0, -1.0), p(1.0, -1.0), p(1.0, 1.0), p(-1.0, 1.0)];
    let front = (verts[1] - verts[0]).cross(verts[2] - verts[0]).dot(n.normalize()) > 0.0;
    mesh_new(&verts, quad_tris(front))
}

fn mesh_corners(m: &TriMesh, ti: usize) -> (Vec3, Vec3, Vec3) {
    let t = m.tris()[ti];
    let v = m.verts();
    (v[t[0] as usize].into(), v[t[1] as usize].into(), v[t[2] as usize].into())
}

pub fn mesh_world_bounds(m: &TriMesh) -> Aabb {
    let (lo, hi) = m.world_bounds();
    Aabb { min: lo.into(), max: hi.into() }
}

/// Builds the grid, with bins as large as the mean edge or `MIN_BIN`.
pub fn mesh_build_grid(m: &mut TriMesh) {
    let n = m.tris().len();
    let mut sum = 0.0f32;
    for ti in 0..n {
        let (a, b, c) = mesh_corners(m, ti);
        sum += (b - a).length() + (c - b).length() + (a - c).length();
    }
    let mean = if n > 0 { sum / (3 * n) as f32 } else { MIN_BIN };
    let bin = mean.max(MIN_BIN);
    let b = mesh_world_bounds(m);
    let side = |lo: f32, hi: f32| (((hi - lo) / bin).ceil() as u32).saturating_add(1);
    let dims = (side(b.min.x, b.max.x), side(b.min.y, b.max.y), side(b.min.z, b.max.z));
    let inv = 1.0 / bin;
    let first = |v: f32, lo: f32| ((v - lo) * inv).floor().max(0.0) as u32;
    let last = |v: f32, lo: f32, d: u32| (((v - lo) * inv).ceil() as u32).min(d - 1);
    let spans: Vec<BinSpan> = (0..n)
        .map(|ti| {
            let (p, q, r) = mesh_corners(m, ti);
            let (lo, hi) = (p.min(q).min(r), p.max(q).max(r));
            BinSpan {
                first: (first(lo.x, b.min.x), first(lo.y, b.min.y), first(lo.z, b.min.z)),
                last: (
                    last(hi.x, b.min.x, dims.0),
                    last(hi.y, b.min.y, dims.1),
                    last(hi.z, b.min.z, dims.2),
                ),
            }
        })
        .collect();
    m.build_grid(b.min.into(), bits(bin), dims, &spans);
}

/// The bin of the query point.
fn mesh_bin_query(m: &TriMesh, p: Vec3) -> BinQuery {
    match &m.grid {
        None => BinQuery { far: true, cell: (0, 0, 0) },
        Some(g) => {
            let (o, bin) = (Vec3::from(g.origin), num(g.bin));
            let c = Vec3::new(
                ((p.x - o.x) / bin).floor(),
                ((p.y - o.y) / bin).floor(),
                ((p.z - o.z) / bin).floor(),
            );
            let far = c.x < -1.0 || c.y < -1.0 || c.z < -1.0;
            let cell = |v: f32| (v as i64).clamp(-1, i64::MAX - 1);
            BinQuery { far, cell: (cell(c.x), cell(c.y), cell(c.z)) }
        }
    }
}

/// The nearest triangle: its distance, its nearest point, its normal and its
/// number. Bins farther away than `max_d` are passed over.
pub fn mesh_closest(m: &TriMesh, p: Vec3, max_d: f32) -> Option<(f32, Vec3, Vec3, usize)> {
    let keep = |x: i32, y: i32, z: i32| match &m.grid {
        Some(g) if max_d.is_finite() => {
            let (o, bin) = (Vec3::from(g.origin), num(g.bin));
            let lo = Vec3::new(o.x + x as f32 * bin, o.y + y as f32 * bin, o.z + z as f32 * bin);
            let hi = lo + Vec3::splat(bin);
            let d2 = Vec3::new(
                (lo.x - p.x).max(p.x - hi.x).max(0.0),
                (lo.y - p.y).max(p.y - hi.y).max(0.0),
                (lo.z - p.z).max(p.z - hi.z).max(0.0),
            )
            .length_squared();
            d2 <= max_d * max_d
        }
        _ => true,
    };
    let cand = m.candidates(mesh_bin_query(m, p), keep);
    let near: Vec<Vec3> = cand
        .iter()
        .map(|ti| {
            let (a, b, c) = mesh_corners(m, *ti as usize);
            mesh_closest_on_tri(p, a, b, c)
        })
        .collect();
    let d: Vec<f32> = near.iter().map(|q| (p - *q).length()).collect();
    let k = first_closest(&all_bits(&d))?;
    let ti = cand[k] as usize;
    Some((d[k], near[k], m.normals[ti].into(), ti))
}

/// The point of a triangle nearest to `p`.
pub fn mesh_closest_on_tri(p: Vec3, a: Vec3, b: Vec3, c: Vec3) -> Vec3 {
    let (ab, ac) = (b - a, c - a);
    let (ap, bp, cp) = (p - a, p - b, p - c);
    let (d1, d2) = (ab.dot(ap), ac.dot(ap));
    let (d3, d4) = (ab.dot(bp), ac.dot(bp));
    let (d5, d6) = (ab.dot(cp), ac.dot(cp));
    let (va, vb, vc) = (d3 * d6 - d5 * d4, d5 * d2 - d1 * d6, d1 * d4 - d3 * d2);
    let region = tri_region(&TriProducts {
        ab_from_a: bits(d1),
        ac_from_a: bits(d2),
        ab_from_b: bits(d3),
        ac_from_b: bits(d4),
        ab_from_c: bits(d5),
        ac_from_c: bits(d6),
        area_ab: bits(vc),
        area_ac: bits(vb),
        area_bc: bits(va),
        bc_from_b: bits(d4 - d3),
        bc_from_c: bits(d5 - d6),
    });
    match region {
        TriRegion::CornerA => a,
        TriRegion::CornerB => b,
        TriRegion::CornerC => c,
        TriRegion::EdgeAb => a + ab * (d1 / (d1 - d3)),
        TriRegion::EdgeAc => a + ac * (d2 / (d2 - d6)),
        TriRegion::EdgeBc => b + (c - b) * ((d4 - d3) / ((d4 - d3) + (d5 - d6))),
        TriRegion::Inside => {
            let denom = 1.0 / (va + vb + vc);
            a + ab * (vb * denom) + ac * (vc * denom)
        }
    }
}

/// The contact at reach `reach` from the point, if it is not farther than `skin`.
fn mesh_shell_contact(m: &TriMesh, p: Vec3, reach: f32, skin: f32, out: &mut Vec<InteropContact>) {
    if let Some((d, q, n, ti)) = mesh_closest(m, p, reach + skin) {
        let depth = reach - d;
        if in_band(bits(depth), bits(skin)) {
            out.push(InteropContact { point: q, normal: n, depth, feature: ti as u32 + 1 });
        }
    }
}

impl ProviderColliders for TriMesh {
    fn bounds(&self, _id: u32) -> Option<Aabb> {
        Some(mesh_world_bounds(self))
    }

    fn contacts_point(&self, _id: u32, p: Vec3, skin: f32, out: &mut Vec<InteropContact>) -> bool {
        mesh_shell_contact(self, p, skin, skin, out);
        true
    }

    fn contacts_sphere(
        &self,
        _id: u32,
        center: Vec3,
        radius: f32,
        skin: f32,
        out: &mut Vec<InteropContact>,
    ) -> bool {
        mesh_shell_contact(self, center, radius, skin, out);
        true
    }

    fn contacts_box(
        &self,
        id: u32,
        half: Vec3,
        pos: Vec3,
        rot: Quat,
        skin: f32,
        out: &mut Vec<InteropContact>,
    ) -> bool {
        let m = Mat3::from_quat(rot);
        let mut any = false;
        for corner in 0..8usize {
            let local = half.signed(vxl_phys::planes::corner_signs(corner));
            any |= self.contacts_point(id, pos + m.mul_vec3(local), skin, out);
        }
        for face in 0..6usize {
            let local = half.signed(vxl_phys::voxel_contacts::box_sample(face, 0));
            any |= self.contacts_point(id, pos + m.mul_vec3(local), skin, out);
        }
        any
    }
}

/// A taut rope from `a` to `b`, pinned at both ends.
pub fn rope_line(a: Vec3, b: Vec3, nodes: usize, radius: f32) -> Rope {
    rope_span(a, b, nodes, (b - a).length(), radius)
}

/// A rope of the given length from `a` to `b`, pinned at both ends.
pub fn rope_span(a: Vec3, b: Vec3, nodes: usize, total_len: f32, radius: f32) -> Rope {
    let n = node_count(nodes);
    let denom = n as f32 - 1.0;
    let pos: Vec<Vec3> = (0..n).map(|k| a + (b - a) * (k as f32 / denom)).collect();
    Rope::span(all_vec_bits(&pos), bits(total_len / denom), bits(radius))
}

/// The length of a segment.
pub fn rope_segment_len(r: &Rope, k: usize) -> f32 {
    (Vec3::from(r.pos[k + 1]) - Vec3::from(r.pos[k])).length()
}

/// Moves the rope on by `dt`.
pub fn rope_step(r: &mut Rope, dt: f32, gravity: Vec3, providers: &dyn ProviderColliders, ids: &[u32]) {
    let h = dt / r.substeps.max(1) as f32;
    let (rest, damping) = (num(r.rest_len), num(r.damping));
    let (radius, skin) = (num(r.radius), num(r.skin));
    let a_tilde = num(r.compliance) / (h * h);
    let inv_h = 1.0 / h;
    let predict = |p: vxl_phys::scalar::Vec3, v: vxl_phys::scalar::Vec3| {
        let v = Vec3::from(v) + gravity * h;
        ((Vec3::from(p) + v * h).into(), v.into())
    };
    let pull = |l: Link| {
        let (p, q, wp, wq) = (Vec3::from(l.p), Vec3::from(l.q), num(l.wp), num(l.wq));
        let w = wp + wq;
        if w <= 0.0 {
            return None;
        }
        let d = q - p;
        let len = d.length();
        if len < 1e-9 {
            return None;
        }
        let dir = d * (1.0 / len);
        let dl = -(len - rest) / (w + a_tilde);
        Some(Pulled {
            p: (p - dir * (wp * dl)).into(),
            q: (q + dir * (wq * dl)).into(),
            lambda: bits(dl),
        })
    };
    let push_out = |_: usize, p: vxl_phys::scalar::Vec3| {
        let mut p = Vec3::from(p);
        let mut buf = Vec::new();
        for id in ids {
            buf.clear();
            if providers.contacts_sphere(*id, p, radius, skin, &mut buf) {
                for c in &buf {
                    if c.depth > 0.0 {
                        p += c.normal * c.depth;
                    }
                }
            }
        }
        p.into()
    };
    let velocity = |p: vxl_phys::scalar::Vec3, prev: vxl_phys::scalar::Vec3| {
        ((Vec3::from(p) - Vec3::from(prev)) * inv_h * damping).into()
    };
    let touching = radius >= 0.0 && !ids.is_empty();
    r.step(&predict, &pull, &push_out, &velocity, touching);
}

const DT: f32 = 1.0 / 60.0;
const GRAVITY: Vec3 = Vec3 { x: 0.0, y: -9.81, z: 0.0 };

/// A floor at height zero: eight by eight cells, four metres each way.
fn flat_mesh() -> TriMesh {
    const N: usize = 8;
    const S: f32 = 4.0;
    let mut verts: Vec<Vec3> = Vec::new();
    let mut tris: Vec<[u32; 3]> = Vec::new();
    for iz in 0..=N {
        for ix in 0..=N {
            let x = -S + (2.0 * S * ix as f32) / N as f32;
            let z = -S + (2.0 * S * iz as f32) / N as f32;
            verts.push(Vec3::new(x, 0.0, z));
        }
    }
    for iz in 0..N as u32 {
        for ix in 0..N as u32 {
            let a = iz * (N as u32 + 1) + ix;
            let c = a + 1;
            let d = a + N as u32 + 1;
            let e = d + 1;
            tris.push([a, d, c]);
            tris.push([c, d, e]);
        }
    }
    mesh_new(&verts, tris)
}

/// The sag of a catenary of length `len` over a span.
fn catenary_sag(len: f32, span: f32) -> f32 {
    let (mut lo, mut hi) = (1e-3f32, 1e3f32);
    for _ in 0..80 {
        let a = 0.5 * (lo + hi);
        if 2.0 * a * (span / (2.0 * a)).sinh() > len {
            lo = a;
        } else {
            hi = a;
        }
    }
    let a = 0.5 * (lo + hi);
    a * (span / (2.0 * a)).cosh() - a
}

/// The largest relative error of a segment's length.
fn worst_len_err(r: &Rope) -> f32 {
    (0..r.nodes() - 1)
        .map(|k| (rope_segment_len(r, k) - num(r.rest_len)).abs() / num(r.rest_len))
        .fold(0.0f32, f32::max)
}

fn max_speed(r: &Rope) -> f32 {
    r.vel.iter().map(|v| Vec3::from(*v).length()).fold(0.0f32, f32::max)
}

/// The hash of the positions.
fn state_hash(r: &Rope) -> u64 {
    let mut h = Hasher::new();
    for p in &r.pos {
        h.push_vec3(*p);
    }
    h.finish()
}

#[test]
fn rope_sags_to_catenary_stays_inextensible_and_deterministic() {
    const NODES: usize = 33;
    const SPAN: f32 = 1.0;
    const LEN: f32 = 1.4;
    let a = Vec3::new(-0.5 * SPAN, 1.0, 0.0);
    let b = Vec3::new(0.5 * SPAN, 1.0, 0.0);
    let run = |substeps: u32| {
        let mut r = rope_span(a, b, NODES, LEN, 0.0);
        r.substeps = substeps;
        r.damping = bits(0.999);
        let mut worst = 0.0f32;
        for t in 0..6000 {
            rope_step(&mut r, DT, GRAVITY, &NoProviders, &[]);
            if t >= 100 {
                worst = worst.max(worst_len_err(&r));
            }
        }
        (r, worst)
    };
    let (r8, worst8) = run(8);
    let (_, worst16) = run(16);
    let (r8_again, _) = run(8);
    let eff8: f32 = (0..NODES - 1).map(|k| rope_segment_len(&r8, k)).sum();
    let sag8 = a.y - num(r8.pos[NODES / 2].y);
    let sag_ref = catenary_sag(eff8, SPAN);
    let shape_err = (sag8 - sag_ref).abs() / sag_ref;
    assert!(shape_err < 5e-3, "the rope hangs off a catenary by {shape_err}");
    assert!(worst8 < 4e-2, "a segment is off by {worst8}");
    assert!(worst8 / worst16 >= 3.0, "{worst8} does not fall to a third: {worst16}");
    assert!(max_speed(&r8) < 1e-3, "the rope still moves: {}", max_speed(&r8));
    assert_eq!(state_hash(&r8), state_hash(&r8_again));
    assert_eq!(state_hash(&r8), 0xfaf4_d9e7_443d_dbef);
}

#[test]
fn rope_rests_on_real_trimesh_provider() {
    const NODES: usize = 33;
    const RADIUS: f32 = 0.02;
    let mesh = flat_mesh();
    let mut r =
        rope_line(Vec3::new(-0.4, 1.0, 0.0), Vec3::new(0.4, 1.0, 0.0), NODES, RADIUS);
    r.set_pinned(0, false);
    r.set_pinned(NODES - 1, false);
    r.damping = bits(0.999);
    for _ in 0..4000 {
        rope_step(&mut r, DT, GRAVITY, &mesh, &[0]);
    }
    let mut lo = f32::INFINITY;
    let mut hi = f32::NEG_INFINITY;
    for i in 0..r.nodes() {
        let clearance = num(r.pos[i].y) - RADIUS;
        lo = lo.min(clearance);
        hi = hi.max(clearance);
    }
    assert!(lo > -0.01, "a particle sank to {lo}");
    assert!(hi < 0.05, "a particle hangs at {hi}");
    assert!(max_speed(&r) < 1e-2, "the rope still moves: {}", max_speed(&r));
    assert_eq!(state_hash(&r), 0xdf50_e584_d880_fb9f);
}

/// A pinned particle stays where it is, whatever pulls at it.
#[test]
fn pinned_particles_keep_their_place() {
    let mut r = rope_span(Vec3::ZERO, Vec3::X, 5, 2.0, 0.0);
    r.set_pinned(2, true);
    let before = r.pos.clone();
    for _ in 0..50 {
        rope_step(&mut r, DT, GRAVITY, &NoProviders, &[]);
    }
    for i in [0usize, 2, 4] {
        assert_eq!(r.pos[i], before[i]);
        assert_eq!(r.vel[i], Vec3Bits::from(Vec3::ZERO));
    }
    assert_ne!(r.pos[1], before[1]);
    r.set_pinned(9, true);
    assert_eq!(r.nodes(), 5);
}

/// Not even a link that would put its ends elsewhere moves a pinned one.
#[test]
fn links_leave_pinned_ends() {
    let at = |x: f32| Vec3Bits::from(Vec3::new(x, 0.0, 0.0));
    let mut r = Rope::span(vec![at(0.0), at(1.0), at(2.0), at(3.0)], bits(1.0), bits(-1.0));
    r.set_pinned(2, true);
    let far = at(50.0);
    let pull = |_: Link| Some(Pulled { p: far, q: far, lambda: bits(4.0) });
    r.substep(
        &|p: Vec3Bits, v: Vec3Bits| (p, v),
        &pull,
        &|_: usize, p: Vec3Bits| p,
        &|_: Vec3Bits, _: Vec3Bits| at(7.0),
        false,
    );
    assert_eq!(r.pos, vec![at(0.0), far, at(2.0), at(3.0)]);
    assert_eq!(r.vel, vec![at(0.0), at(7.0), at(0.0), at(0.0)]);
    assert_eq!(r.lambda, vec![bits(4.0); 3]);
    assert_eq!((r.nodes(), num(r.rest_len), r.substeps), (4, 1.0, 8));
}

/// A rope has at least two particles and starts pinned at both ends.
#[test]
fn short_ropes_have_two_particles() {
    let r = rope_line(Vec3::ZERO, Vec3::X, 0, 0.1);
    assert_eq!(r.nodes(), 2);
    assert_eq!(r.substeps, 8);
    assert_eq!(num(r.skin), 0.01);
    assert_eq!(num(r.damping), 1.0);
    assert!(r.inv_mass.iter().all(|w| num(*w) == 0.0));
    assert_eq!(num(r.rest_len), 1.0);
}

/// Nothing moves in a step without substeps.
#[test]
fn a_step_runs_its_substeps() {
    let mut r = rope_line(Vec3::ZERO, Vec3::X, 3, 0.0);
    r.substeps = 0;
    let before = r.pos.clone();
    rope_step(&mut r, DT, GRAVITY, &NoProviders, &[]);
    assert_eq!(r.pos, before);
    r.substeps = 1;
    rope_step(&mut r, DT, GRAVITY, &NoProviders, &[]);
    assert_eq!(r.prev, before);
    assert!(num(r.pos[1].y) < 0.0);
}
