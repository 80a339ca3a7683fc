//! Height fields, meshes, half spaces and voxels in single precision.

#![allow(dead_code)]

use std::ops::{Add, AddAssign, Mul, Neg, Sub, SubAssign};
use vxl_phys::extract::CellBox;
use vxl_phys::fracture::{seed_side, seeds_jittered as jitter_cells};
use vxl_phys::mesh::{BinQuery, BinSpan, TriMesh, TriProducts, TriRegion, closest as first_closest, in_band, quad_tris, tri_region};
use vxl_phys::planes::{HalfSpaceSet, corner_signs, deepest_corner};
use vxl_phys::scalar::{Quat as QuatBits, Scalar, Vec3 as Vec3Bits};
use vxl_phys::select::find_first_least;
use vxl_phys::terrain::{HeightField, TerrainSet};
use vxl_phys::voxel::VoxelVolume;
use vxl_phys::voxel_contacts::{box_hits, box_sample, leaving_face, surface_faces};

/// The bit pattern of a number.
pub fn bits(v: f32) -> Scalar {
    Scalar { bits: v.to_bits() }
}

/// The number of a bit pattern.
pub fn num(s: Scalar) -> f32 {
    f32::from_bits(s.bits)
}

/// The bit patterns of a list of numbers.
pub fn all_bits(v: &[f32]) -> Vec<Scalar> {
    v.iter().map(|x| bits(*x)).collect()
}

#[derive(Clone, Copy, Debug, PartialEq, Default)]
pub struct Vec3 {
    pub x: f32,
    pub y: f32,
    pub z: f32,
}

impl Vec3 {
    pub const ZERO: Vec3 = Vec3 { x: 0.0, y: 0.0, z: 0.0 };
    pub const X: Vec3 = Vec3 { x: 1.0, y: 0.0, z: 0.0 };
    pub const Y: Vec3 = Vec3 { x: 0.0, y: 1.0, z: 0.0 };
    pub const Z: Vec3 = Vec3 { x: 0.0, y: 0.0, z: 1.0 };

    pub fn new(x: f32, y: f32, z: f32) -> Vec3 {
        Vec3 { x, y, z }
    }

    pub fn splat(v: f32) -> Vec3 {
        Vec3::new(v, v, v)
    }

    pub fn dot(self, o: Vec3) -> f32 {
        self.x * o.x + self.y * o.y + self.z * o.z
    }

    pub fn cross(self, o: Vec3) -> Vec3 {
        Vec3::new(
            self.y * o.z - self.z * o.y,
            self.z * o.x - self.x * o.z,
            self.x * o.y - self.y * o.x,
        )
    }

    pub fn length_squared(self) -> f32 {
        self.dot(self)
    }

    pub fn length(self) -> f32 {
        self.length_squared().sqrt()
    }

    pub fn normalize(self) -> Vec3 {
        let l = self.length();
        if l > 0.0 {
            self * (1.0 / l)
        } else {
            Vec3::ZERO
        }
    }

    pub fn min(self, o: Vec3) -> Vec3 {
        Vec3::new(self.x.min(o.x), self.y.min(o.y), self.z.min(o.z))
    }

    pub fn max(self, o: Vec3) -> Vec3 {
        Vec3::new(self.x.max(o.x), self.y.max(o.y), self.z.max(o.z))
    }

    pub fn get(self, axis: usize) -> f32 {
        match axis {
            0 => self.x,
            1 => self.y,
            _ => self.z,
        }
    }

    /// The vector with each component given the sign of the corresponding number.
    pub fn signed(self, s: (i8, i8, i8)) -> Vec3 {
        Vec3::new(self.x * s.0 as f32, self.y * s.1 as f32, self.z * s.2 as f32)
    }
}

impl Add for Vec3 {
    type Output = Vec3;
    fn add(self, o: Vec3) -> Vec3 {
        Vec3::new(self.x + o.x, self.y + o.y, self.z + o.z)
    }
}

impl AddAssign for Vec3 {
    fn add_assign(&mut self, o: Vec3) {
        *self = *self + o;
    }
}

impl Sub for Vec3 {
    type Output = Vec3;
    fn sub(self, o: Vec3) -> Vec3 {
        Vec3::new(self.x - o.x, self.y - o.y, self.z - o.z)
    }
}

impl SubAssign for Vec3 {
    fn sub_assign(&mut self, o: Vec3) {
        *self = *self - o;
    }
}

impl Mul<f32> for Vec3 {
    type Output = Vec3;
    fn mul(self, s: f32) -> Vec3 {
        Vec3::new(self.x * s, self.y * s, self.z * s)
    }
}

impl Neg for Vec3 {
    type Output = Vec3;
    fn neg(self) -> Vec3 {
        Vec3::new(-self.x, -self.y, -self.z)
    }
}

impl From<Vec3Bits> for Vec3 {
    fn from(v: Vec3Bits) -> Vec3 {
        Vec3::new(num(v.x), num(v.y), num(v.z))
    }
}

impl From<Vec3> for Vec3Bits {
    fn from(v: Vec3) -> Vec3Bits {
        Vec3Bits { x: bits(v.x), y: bits(v.y), z: bits(v.z) }
    }
}

/// The bit patterns of a list of vectors.
pub fn all_vec_bits(v: &[Vec3]) -> Vec<Vec3Bits> {
    v.iter().map(|p| Vec3Bits::from(*p)).collect()
}

/// A unit quaternion.
#[derive(Clone, Copy, Debug, PartialEq)]
pub struct Quat {
    pub x: f32,
    pub y: f32,
    pub z: f32,
    pub w: f32,
}

impl Quat {
    pub const IDENTITY: Quat = Quat { x: 0.0, y: 0.0, z: 0.0, w: 1.0 };

    pub fn from_axis_angle(axis: Vec3, angle: f32) -> Quat {
        let (s, c) = (angle * 0.5).sin_cos();
        Quat { x: axis.x * s, y: axis.y * s, z: axis.z * s, w: c }
    }

    pub fn conjugate(self) -> Quat {
        Quat { x: -self.x, y: -self.y, z: -self.z, w: self.w }
    }

    pub fn mul_quat(self, o: Quat) -> Quat {
        Quat {
            x: self.w * o.x + self.x * o.w + self.y * o.z - self.z * o.y,
            y: self.w * o.y - self.x * o.z + self.y * o.w + self.z * o.x,
            z: self.w * o.z + self.x * o.y - self.y * o.x + self.z * o.w,
            w: self.w * o.w - self.x * o.x - self.y * o.y - self.z * o.z,
        }
    }

    pub fn normalize(self) -> Quat {
        let l = (self.x * self.x + self.y * self.y + self.z * self.z + self.w * self.w).sqrt();
        if l > 0.0 {
            let i = 1.0 / l;
            Quat { x: self.x * i, y: self.y * i, z: self.z * i, w: self.w * i }
        } else {
            Quat::IDENTITY
        }
    }

    pub fn rotate_vec3(self, v: Vec3) -> Vec3 {
        let q = Vec3::new(self.x, self.y, self.z);
        let t = q.cross(v) * 2.0;
        v + t * self.w + q.cross(t)
    }
}

impl From<QuatBits> for Quat {
    fn from(q: QuatBits) -> Quat {
        Quat { x: num(q.x), y: num(q.y), z: num(q.z), w: num(q.w) }
    }
}

impl From<Quat> for QuatBits {
    fn from(q: Quat) -> QuatBits {
        QuatBits { x: bits(q.x), y: bits(q.y), z: bits(q.z), w: bits(q.w) }
    }
}

/// A matrix of three columns.
#[derive(Clone, Copy, Debug, PartialEq)]
pub struct Mat3 {
    pub c: [Vec3; 3],
}

impl Mat3 {
    pub const IDENTITY: Mat3 = Mat3 { c: [Vec3::X, Vec3::Y, Vec3::Z] };
    pub const ZERO: Mat3 = Mat3 { c: [Vec3::ZERO, Vec3::ZERO, Vec3::ZERO] };

    pub fn from_quat(q: Quat) -> Mat3 {
        Mat3 { c: [q.rotate_vec3(Vec3::X), q.rotate_vec3(Vec3::Y), q.rotate_vec3(Vec3::Z)] }
    }

    pub fn from_diagonal(d: Vec3) -> Mat3 {
        Mat3 { c: [Vec3::X * d.x, Vec3::Y * d.y, Vec3::Z * d.z] }
    }

    pub fn mul_vec3(self, v: Vec3) -> Vec3 {
        self.c[0] * v.x + self.c[1] * v.y + self.c[2] * v.z
    }

    pub fn transpose(self) -> Mat3 {
        let [a, b, c] = self.c;
        Mat3 {
            c: [Vec3::new(a.x, b.x, c.x), Vec3::new(a.y, b.y, c.y), Vec3::new(a.z, b.z, c.z)],
        }
    }

    pub fn mul_mat3(self, o: Mat3) -> Mat3 {
        Mat3 { c: [self.mul_vec3(o.c[0]), self.mul_vec3(o.c[1]), self.mul_vec3(o.c[2])] }
    }

    pub fn add_mat3(self, o: Mat3) -> Mat3 {
        Mat3 { c: [self.c[0] + o.c[0], self.c[1] + o.c[1], self.c[2] + o.c[2]] }
    }

    /// The inverse; zero if the matrix has none.
    pub fn inverse(self) -> Mat3 {
        let [a, b, c] = self.c;
        let det = a.dot(b.cross(c));
        if det.abs() <= f32::MIN_POSITIVE {
            return Mat3::ZERO;
        }
        let i = 1.0 / det;
        Mat3 { c: [b.cross(c) * i, c.cross(a) * i, a.cross(b) * i] }.transpose()
    }
}

/// A box along the axes.
#[derive(Clone, Copy, Debug)]
pub struct Aabb {
    pub min: Vec3,
    pub max: Vec3,
}

/// A point of a surface near a query point. The distance is positive outside.
#[derive(Clone, Copy, Debug)]
pub struct SurfaceHit {
    pub point: Vec3,
    pub normal: Vec3,
    pub signed_dist: f32,
}

/// A contact with a surface; the normal points out of it, and a positive depth is
/// a penetration.
#[derive(Clone, Copy, Debug)]
pub struct InteropContact {
    pub point: Vec3,
    pub normal: Vec3,
    pub depth: f32,
    pub feature: u32,
}

/// A surface that knows its nearest point.
pub trait CollisionProvider {
    fn bounds(&self) -> Aabb;

    fn closest_point(&self, p: Vec3) -> Option<SurfaceHit>;

    /// The corners of a box that touch the surface.
    fn contacts_box(
        &self,
        half: Vec3,
        pos: Vec3,
        rot: Quat,
        skin: f32,
        out: &mut Vec<InteropContact>,
    ) -> bool {
        let mut any = false;
        for corner in 0..8usize {
            let p = pos + rot.rotate_vec3(half.signed(corner_signs(corner)));
            if let Some(hit) = self.closest_point(p) {
                let depth = -hit.signed_dist;
                if depth > -skin {
                    out.push(InteropContact {
                        point: hit.point,
                        normal: hit.normal,
                        depth,
                        feature: corner as u32,
                    });
                    any = true;
                }
            }
        }
        any
    }
}

/// Surfaces by number. A query returns whether it is supported; an unsupported one
/// adds nothing.
pub trait ProviderColliders {
    fn bounds(&self, id: u32) -> Option<Aabb>;

    fn contacts_box(
        &self,
        id: u32,
        half: Vec3,
        pos: Vec3,
        rot: Quat,
        skin: f32,
        out: &mut Vec<InteropContact>,
    ) -> bool;

    fn contacts_point(&self, id: u32, p: Vec3, skin: f32, out: &mut Vec<InteropContact>) -> bool;

    /// As `contacts_point`, but sound for points deep inside.
    fn contacts_point_boundary(
        &self,
        id: u32,
        p: Vec3,
        skin: f32,
        out: &mut Vec<InteropContact>,
    ) -> bool {
        self.contacts_point(id, p, skin, out)
    }

    fn contacts_sphere(
        &self,
        id: u32,
        center: Vec3,
        radius: f32,
        skin: f32,
        out: &mut Vec<InteropContact>,
    ) -> bool;
}

/// No surfaces at all.
pub struct NoProviders;

impl ProviderColliders for NoProviders {
    fn bounds(&self, _id: u32) -> Option<Aabb> {
        None
    }

    fn contacts_box(
        &self,
        _id: u32,
        _half: Vec3,
        _pos: Vec3,
        _rot: Quat,
        _skin: f32,
        _out: &mut Vec<InteropContact>,
    ) -> bool {
        false
    }

    fn contacts_point(&self, _: u32, _: Vec3, _: f32, _: &mut Vec<InteropContact>) -> bool {
        false
    }

    fn contacts_sphere(
        &self,
        _id: u32,
        _center: Vec3,
        _radius: f32,
        _skin: f32,
        _out: &mut Vec<InteropContact>,
    ) -> bool {
        false
    }
}

/// A level field.
pub fn hf_flat(origin_x: f32, origin_z: f32, nx: u32, nz: u32, spacing: f32, h: f32) -> HeightField {
    assert!(nx >= 2 && nz >= 2, "a height field has at least two nodes a side");
    assert!(spacing > 0.0, "the nodes of a height field are apart");
    assert!(nx <= i32::MAX as u32 && nz <= i32::MAX as u32, "a side has too many nodes");
    assert!(nx.checked_mul(nz).is_some(), "a height field has too many nodes");
    HeightField::flat(bits(origin_x), bits(origin_z), nx, nz, bits(spacing), bits(h))
}

pub fn hf_width_x(hf: &HeightField) -> f32 {
    (hf.nx - 1) as f32 * num(hf.spacing)
}

pub fn hf_width_z(hf: &HeightField) -> f32 {
    (hf.nz - 1) as f32 * num(hf.spacing)
}

/// Whether the field lies below or above the point.
pub fn hf_contains(hf: &HeightField, x: f32, z: f32) -> bool {
    hf.contains(
        bits(x),
        bits(z),
        bits(num(hf.origin_x) + hf_width_x(hf)),
        bits(num(hf.origin_z) + hf_width_z(hf)),
    )
}

/// The column of the point, counted in nodes.
fn hf_column(hf: &HeightField, x: f32, z: f32) -> (f32, f32) {
    let s = num(hf.spacing);
    ((x - num(hf.origin_x)) / s, (z - num(hf.origin_z)) / s)
}

/// The height and the normal of the field at a point.
pub fn hf_sample(hf: &HeightField, x: f32, z: f32) -> Option<(f32, Vec3)> {
    if !hf_contains(hf, x, z) {
        return None;
    }
    let (fx, fz) = hf_column(hf, x, z);
    let ((ix, iz), h) = hf.sample_cell(fx.floor() as i32, fz.floor() as i32);
    let (u, v) = (fx - ix as f32, fz - iz as f32);
    let (h00, h10, h01, h11) = (num(h[0]), num(h[1]), num(h[2]), num(h[3]));
    let y = h00 * (1.0 - u) * (1.0 - v) + h10 * u * (1.0 - v) + h01 * (1.0 - u) * v + h11 * u * v;
    let s = num(hf.spacing);
    let dhdx = ((h10 - h00) * (1.0 - v) + (h11 - h01) * v) / s;
    let dhdz = ((h01 - h00) * (1.0 - u) + (h11 - h10) * u) / s;
    Some((y, Vec3::new(-dhdx, 1.0, -dhdz).normalize()))
}

/// Lowers the column at the point of the field `id`.
pub fn hf_dig(set: &mut TerrainSet, id: u32, x: f32, z: f32, depth: f32) -> bool {
    let (over, fx, fz) = match set.get(id) {
        None => return false,
        Some(hf) => {
            let (fx, fz) = hf_column(hf, x, z);
            (hf_contains(hf, x, z), fx.floor() as i32, fz.floor() as i32)
        }
    };
    set.dig(id, over, fx, fz, |h| bits(num(h) - depth))
}

/// The box around a field.
pub fn hf_bounds(set: &TerrainSet, id: u32) -> Option<Aabb> {
    let (lo, hi) = set.bounds(id)?;
    let hf = set.get(id)?;
    Some(hf_boxed(hf, num(lo), num(hi)))
}

fn hf_boxed(hf: &HeightField, lo: f32, hi: f32) -> Aabb {
    let (x, z) = (num(hf.origin_x), num(hf.origin_z));
    Aabb {
        min: Vec3::new(x, lo, z),
        max: Vec3::new(x + hf_width_x(hf), hi, z + hf_width_z(hf)),
    }
}

impl CollisionProvider for HeightField {
    fn bounds(&self) -> Aabb {
        let (lo, hi) = HeightField::bounds(self);
        hf_boxed(self, num(lo), num(hi))
    }

    fn closest_point(&self, p: Vec3) -> Option<SurfaceHit> {
        let (h, n) = hf_sample(self, p.x, p.z)?;
        let surface = Vec3::new(p.x, h, p.z);
        Some(SurfaceHit { point: surface, normal: n, signed_dist: (p - surface).dot(n) })
    }
}

/// The least side of a bin of the grid.
pub const MIN_BIN: f32 = 0.5;

/// The mesh of the triangles; those with missing corners are dropped.
pub fn mesh_new(verts: &[Vec3], tris: Vec<[u32; 3]>) -> TriMesh {
    assert!(verts.len() <= u32::MAX as usize && tris.len() <= u32::MAX as usize);
    TriMesh::new(all_vec_bits(verts), tris, |a, b, c| {
        let (a, b, c) = (Vec3::from(a), Vec3::from(b), Vec3::from(c));
        let n = (b - a).cross(c - a);
        let l = n.length();
        (if l > 1e-12 { n * (1.0 / l) } else { Vec3::Y }).into()
    })
}

/// A piece of a plane, with sides `2 u` and `2 v` and normal `n`.
pub fn mesh_quad(center: Vec3, u: Vec3, v: Vec3, n: Vec3) -> TriMesh {
    let p = |su: f32, sv: f32| center + u * su + v * sv;
    let verts = vec![p(-1.0, -1.0), p(1.0, -1.0), p(1.0, 1.0), p(-1.0, 1.0)];
    let front = (verts[1] - verts[0]).cross(verts[2] - verts[0]).dot(n.normalize()) > 0.0;
    mesh_new(&verts, quad_tris(front))
}

fn mesh_corners(m: &TriMesh, ti: usize) -> (Vec3, Vec3, Vec3) {
    let t = m.tris()[ti];
    let v = m.verts();
    (v[t[0] as usize].into(), v[t[1] as usize].into(), v[t[2] as usize].into())
}

pub fn mesh_world_bounds(m: &TriMesh) -> Aabb {
    let (lo, hi) = m.world_bounds();
    Aabb { min: lo.into(), max: hi.into() }
}

/// Builds the grid, with bins as large as the mean edge or `MIN_BIN`.
pub fn mesh_build_grid(m: &mut TriMesh) {
    let n = m.tris().len();
    let mut sum = 0.0f32;
    for ti in 0..n {
        let (a, b, c) = mesh_corners(m, ti);
        sum += (b - a).length() + (c - b).length() + (a - c).length();
    }
    let mean = if n > 0 { sum / (3 * n) as f32 } else { MIN_BIN };
    let bin = mean.max(MIN_BIN);
    let b = mesh_world_bounds(m);
    let side = |lo: f32, hi: f32| (((hi - lo) / bin).ceil() as u32).saturating_add(1);
    let dims = (side(b.min.x, b.max.x), side(b.min.y, b.max.y), side(b.min.z, b.max.z));
    let inv = 1.0 / bin;
    let first = |v: f32, lo: f32| ((v - lo) * inv).floor().max(0.0) as u32;
    let last = |v: f32, lo: f32, d: u32| (((v - lo) * inv).ceil() as u32).min(d - 1);
    let spans: Vec<BinSpan> = (0..n)
        .map(|ti| {
            let (p, q, r) = mesh_corners(m, ti);
            let (lo, hi) = (p.min(q).min(r), p.max(q).max(r));
            BinSpan {
                first: (first(lo.x, b.min.x), first(lo.y, b.min.y), first(lo.z, b.min.z)),
                last: (
                    last(hi.x, b.min.x, dims.0),
                    last(hi.y, b.min.y, dims.1),
                    last(hi.z, b.min.z, dims.2),
                ),
            }
        })
        .collect();
    m.build_grid(b.min.into(), bits(bin), dims, &spans);
}

/// The bin of the query point.
fn mesh_bin_query(m: &TriMesh, p: Vec3) -> BinQuery {
    match &m.grid {
        None => BinQuery { far: true, cell: (0, 0, 0) },
        Some(g) => {
            let (o, bin) = (Vec3::from(g.origin), num(g.bin));
            let c = Vec3::new(
                ((p.x - o.x) / bin).floor(),
                ((p.y - o.y) / bin).floor(),
                ((p.z - o.z) / bin).floor(),
            );
            let far = c.x < -1.0 || c.y < -1.0 || c.z < -1.0;
            let cell = |v: f32| (v as i64).clamp(-1, i64::MAX - 1);
            BinQuery { far, cell: (cell(c.x), cell(c.y), cell(c.z)) }
        }
    }
}

/// The nearest triangle: its distance, its nearest point, its normal and its
/// number. Bins farther away than `max_d` are passed over.
pub fn mesh_closest(m: &TriMesh, p: Vec3, max_d: f32) -> Option<(f32, Vec3, Vec3, usize)> {
    let keep = |x: i32, y: i32, z: i32| match &m.grid {
        Some(g) if max_d.is_finite() => {
            let (o, bin) = (Vec3::from(g.origin), num(g.bin));
            let lo = Vec3::new(o.x + x as f32 * bin, o.y + y as f32 * bin, o.z + z as f32 * bin);
            let hi = lo + Vec3::splat(bin);
            let d2 = Vec3::new(
                (lo.x - p.x).max(p.x - hi.x).max(0.0),
                (lo.y - p.y).max(p.y - hi.y).max(0.0),
                (lo.z - p.z).max(p.z - hi.z).max(0.0),
            )
            .length_squared();
            d2 <= max_d * max_d
        }
        _ => true,
    };
    let cand = m.candidates(mesh_bin_query(m, p), keep);
    let near: Vec<Vec3> = cand
        .iter()
        .map(|ti| {
            let (a, b, c) = mesh_corners(m, *ti as usize);
            mesh_closest_on_tri(p, a, b, c)
        })
        .collect();
    let d: Vec<f32> = near.iter().map(|q| (p - *q).length()).collect();
    let k = first_closest(&all_bits(&d))?;
    let ti = cand[k] as usize;
    Some((d[k], near[k], m.normals[ti].into(), ti))
}

/// The point of a triangle nearest to `p`.
pub fn mesh_closest_on_tri(p: Vec3, a: Vec3, b: Vec3, c: Vec3) -> Vec3 {
    let (ab, ac) = (b - a, c - a);
    let (ap, bp, cp) = (p - a, p - b, p - c);
    let (d1, d2) = (ab.dot(ap), ac.dot(ap));
    let (d3, d4) = (ab.dot(bp), ac.dot(bp));
    let (d5, d6) = (ab.dot(cp), ac.dot(cp));
    let (va, vb, vc) = (d3 * d6 - d5 * d4, d5 * d2 - d1 * d6, d1 * d4 - d3 * d2);
    let region = tri_region(&TriProducts {
        ab_from_a: bits(d1),
        ac_from_a: bits(d2),
        ab_from_b: bits(d3),
        ac_from_b: bits(d4),
        ab_from_c: bits(d5),
        ac_from_c: bits(d6),
        area_ab: bits(vc),
        area_ac: bits(vb),
        area_bc: bits(va),
        bc_from_b: bits(d4 - d3),
        bc_from_c: bits(d5 - d6),
    });
    match region {
        TriRegion::CornerA => a,
        TriRegion::CornerB => b,
        TriRegion::CornerC => c,
        TriRegion::EdgeAb => a + ab * (d1 / (d1 - d3)),
        TriRegion::EdgeAc => a + ac * (d2 / (d2 - d6)),
        TriRegion::EdgeBc => b + (c - b) * ((d4 - d3) / ((d4 - d3) + (d5 - d6))),
        TriRegion::Inside => {
            let denom = 1.0 / (va + vb + vc);
            a + ab * (vb * denom) + ac * (vc * denom)
        }
    }
}

/// The contact at reach `reach` from the point, if it is not farther than `skin`.
fn mesh_shell_contact(m: &TriMesh, p: Vec3, reach: f32, skin: f32, out: &mut Vec<InteropContact>) {
    if let Some((d, q, n, ti)) = mesh_closest(m, p, reach + skin) {
        let depth = reach - d;
        if in_band(bits(depth), bits(skin)) {
            out.push(InteropContact { point: q, normal: n, depth, feature: ti as u32 + 1 });
        }
    }
}

impl ProviderColliders for TriMesh {
    fn bounds(&self, _id: u32) -> Option<Aabb> {
        Some(mesh_world_bounds(self))
    }

    fn contacts_point(&self, _id: u32, p: Vec3, skin: f32, out: &mut Vec<InteropContact>) -> bool {
        mesh_shell_contact(self, p, skin, skin, out);
        true
    }

    fn contacts_sphere(
        &self,
        _id: u32,
        center: Vec3,
        radius: f32,
        skin: f32,
        out: &mut Vec<InteropContact>,
    ) -> bool {
        mesh_shell_contact(self, center, radius, skin, out);
        true
    }

    fn contacts_box(
        &self,
        id: u32,
        half: Vec3,
        pos: Vec3,
        rot: Quat,
        skin: f32,
        out: &mut Vec<InteropContact>,
    ) -> bool {
        let m = Mat3::from_quat(rot);
        let mut any = false;
        for corner in 0..8usize {
            let local = half.signed(corner_signs(corner));
            any |= self.contacts_point(id, pos + m.mul_vec3(local), skin, out);
        }
        for face in 0..6usize {
            let local = half.signed(box_sample(face, 0));
            any |= self.contacts_point(id, pos + m.mul_vec3(local), skin, out);
        }
        any
    }
}

/// A set without planes, inside the box.
pub fn planes_new(bound: Aabb) -> HalfSpaceSet {
    HalfSpaceSet::new((bound.min.into(), bound.max.into()))
}

/// Adds the plane of the points `x` with `n x = offset`; a normal without a usable
/// length is refused.
pub fn planes_push(set: &mut HalfSpaceSet, n: Vec3, offset: f32) -> bool {
    let len = n.length();
    let inv = 1.0 / len;
    set.push((n * inv).into(), bits(offset * inv), bits(len))
}

fn planes_plane(set: &HalfSpaceSet, k: usize) -> (Vec3, f32) {
    let (n, d) = set.planes[k];
    (n.into(), num(d))
}

fn planes_distances(set: &HalfSpaceSet, x: Vec3) -> Vec<f32> {
    (0..set.len())
        .map(|k| {
            let (n, d) = planes_plane(set, k);
            n.dot(x) - d
        })
        .collect()
}

impl ProviderColliders for HalfSpaceSet {
    fn bounds(&self, _id: u32) -> Option<Aabb> {
        Some(Aabb { min: self.bound.0.into(), max: self.bound.1.into() })
    }

    fn contacts_box(
        &self,
        _id: u32,
        half: Vec3,
        pos: Vec3,
        rot: Quat,
        skin: f32,
        out: &mut Vec<InteropContact>,
    ) -> bool {
        let cs: Vec<Vec3> =
            (0..8).map(|c| pos + rot.rotate_vec3(half.signed(corner_signs(c)))).collect();
        let outer: Vec<f32> = (0..self.len())
            .map(|k| {
                let n = planes_plane(self, k).0;
                cs.iter().map(|c| n.dot(*c)).fold(f32::NEG_INFINITY, f32::max)
            })
            .collect();
        let Some(k) = self.touching_plane(&all_bits(&outer)) else {
            return false;
        };
        let (n, d) = planes_plane(self, k);
        let s: Vec<f32> = cs.iter().map(|c| n.dot(*c) - d).collect();
        let (best, deepest) = match deepest_corner(&all_bits(&s)) {
            Some(c) => (s[c], cs[c]),
            None => (f32::INFINITY, pos),
        };
        let depth = -best;
        if !in_band(bits(depth), bits(skin)) {
            return false;
        }
        out.push(InteropContact { point: deepest - n * best, normal: n, depth, feature: k as u32 + 1 });
        true
    }

    fn contacts_point(&self, _id: u32, p: Vec3, skin: f32, out: &mut Vec<InteropContact>) -> bool {
        if self.is_empty() {
            return true;
        }
        let (sd, k) = self.signed(&all_bits(&planes_distances(self, p)));
        let depth = -num(sd);
        if !in_band(bits(depth), bits(skin)) {
            return true;
        }
        let (n, d) = planes_plane(self, k);
        out.push(InteropContact {
            point: p - n * (n.dot(p) - d),
            normal: n,
            depth,
            feature: k as u32 + 1,
        });
        true
    }

    fn contacts_sphere(
        &self,
        _id: u32,
        center: Vec3,
        radius: f32,
        skin: f32,
        out: &mut Vec<InteropContact>,
    ) -> bool {
        if self.is_empty() {
            return false;
        }
        let (sd, k) = self.signed(&all_bits(&planes_distances(self, center)));
        let sd = num(sd);
        let depth = radius - sd;
        if !in_band(bits(depth), bits(skin)) {
            return false;
        }
        let n = planes_plane(self, k).0;
        out.push(InteropContact { point: center - n * sd, normal: n, depth, feature: k as u32 + 1 });
        true
    }
}

/// An empty volume.
pub fn voxel_new(origin: Vec3, step: f32, nx: u32, ny: u32, nz: u32) -> VoxelVolume {
    assert!(step > 0.0 && nx > 0 && ny > 0 && nz > 0);
    let cells = nx as u128 * ny as u128 * nz as u128;
    assert!(cells <= u32::MAX as u128 && cells + 63 <= usize::MAX as u128);
    let side = i32::MAX as u32;
    assert!(nx <= side && ny <= side && nz <= side);
    VoxelVolume::new(origin.into(), bits(step), nx, ny, nz)
}

/// The cell of a point; it need not exist.
pub fn voxel_grid_of(v: &VoxelVolume, p: Vec3) -> (i32, i32, i32) {
    let f = (p - Vec3::from(v.origin())) * (1.0 / num(v.step()));
    (f.x.floor() as i32, f.y.floor() as i32, f.z.floor() as i32)
}

/// The centre of a cell.
pub fn voxel_grid_center(v: &VoxelVolume, c: (i32, i32, i32)) -> Vec3 {
    Vec3::from(v.origin())
        + Vec3::new(c.0 as f32 + 0.5, c.1 as f32 + 0.5, c.2 as f32 + 0.5) * num(v.step())
}

/// Fills the cells that lie wholly in a box.
pub fn voxel_fill_box(v: &mut VoxelVolume, min: Vec3, max: Vec3) {
    let (o, inv) = (Vec3::from(v.origin()), 1.0 / num(v.step()));
    let start = |m: f32, o: f32| ((m - o) * inv).ceil() as i32;
    let end = |m: f32, o: f32| ((m - o) * inv).floor() as i32;
    v.fill_box(
        (start(min.x, o.x), start(min.y, o.y), start(min.z, o.z)),
        (end(max.x, o.x), end(max.y, o.y), end(max.z, o.z)),
    );
}

/// The signed distance of a point from a cell.
fn voxel_cell_distance(v: &VoxelVolume, c: (i32, i32, i32), p: Vec3) -> f32 {
    let step = num(v.step());
    let lo = voxel_grid_center(v, c) - Vec3::splat(step * 0.5);
    let hi = lo + Vec3::splat(step);
    let outside = Vec3::new(
        (lo.x - p.x).max(p.x - hi.x).max(0.0),
        (lo.y - p.y).max(p.y - hi.y).max(0.0),
        (lo.z - p.z).max(p.z - hi.z).max(0.0),
    )
    .length();
    if outside > 0.0 {
        return outside;
    }
    let inner = |p: f32, lo: f32, hi: f32| (p - lo).min(hi - p);
    -inner(p.x, lo.x, hi.x).min(inner(p.y, lo.y, hi.y)).min(inner(p.z, lo.z, hi.z))
}

/// The signed distance of a point from the nearest of the cells; two steps if
/// none is nearer.
fn voxel_distance_to(v: &VoxelVolume, cells: &[(i32, i32, i32)], p: Vec3) -> f32 {
    let far = num(v.step()) * 2.0;
    let d: Vec<f32> = cells.iter().map(|c| voxel_cell_distance(v, *c, p)).collect();
    match find_first_least(&all_bits(&d), &vec![true; d.len()], bits(far)) {
        Some(k) => d[k],
        None => far,
    }
}

/// The signed distance of a point from the filled cells around it.
pub fn voxel_sdf(v: &VoxelVolume, p: Vec3) -> f32 {
    let c = voxel_grid_of(v, p);
    let lo = (c.0.saturating_sub(1), c.1.saturating_sub(1), c.2.saturating_sub(1));
    let hi = (c.0.saturating_add(1), c.1.saturating_add(1), c.2.saturating_add(1));
    voxel_distance_to(v, &v.occupied_cells(lo, hi), p)
}

/// The direction in which the distance grows.
fn voxel_gradient(v: &VoxelVolume, p: Vec3) -> Vec3 {
    let e = num(v.step()) * 0.5;
    let along = |a: Vec3| voxel_sdf(v, p + a * e) - voxel_sdf(v, p - a * e);
    let g = Vec3::new(along(Vec3::X), along(Vec3::Y), along(Vec3::Z));
    if g.length_squared() > 1e-12 {
        g.normalize()
    } else {
        Vec3::Y
    }
}

/// The centre and half extents of a box of cells.
pub fn voxel_piece(v: &VoxelVolume, b: &CellBox) -> (Vec3, Vec3) {
    let h = Vec3::splat(num(v.step()) * 0.5);
    let (lo, hi) = (voxel_grid_center(v, b.lo) - h, voxel_grid_center(v, b.hi) + h);
    ((lo + hi) * 0.5, (hi - lo) * 0.5)
}

fn voxel_pieces(v: &VoxelVolume, boxes: &[CellBox]) -> Vec<(Vec3, Vec3)> {
    boxes.iter().map(|b| voxel_piece(v, b)).collect()
}

/// Takes the cells of a box out.
pub fn voxel_extract_boxes(v: &mut VoxelVolume, min: Vec3, max: Vec3) -> Vec<(Vec3, Vec3)> {
    let (lo, hi) = (voxel_grid_of(v, min), voxel_grid_of(v, max));
    let boxes = v.extract_boxes(lo, hi);
    voxel_pieces(v, &boxes)
}

/// Takes the cells with their centre in a ball out.
pub fn voxel_extract_sphere(v: &mut VoxelVolume, center: Vec3, radius: f32) -> Vec<(Vec3, Vec3)> {
    let (lo, hi) =
        (voxel_grid_of(v, center - Vec3::splat(radius)), voxel_grid_of(v, center + Vec3::splat(radius)));
    let (o, step) = (Vec3::from(v.origin()), num(v.step()));
    let boxes = v.extract_sphere(lo, hi, bits(radius), |x, y, z| {
        let c = o + Vec3::new(x as f32 + 0.5, y as f32 + 0.5, z as f32 + 0.5) * step;
        (c - center).length_squared() <= radius * radius
    });
    voxel_pieces(v, &boxes)
}

/// Breaks the cells of a box up among the seeds.
pub fn voxel_fracture_voronoi(
    v: &mut VoxelVolume,
    min: Vec3,
    max: Vec3,
    seeds: &[Vec3],
) -> Vec<(usize, Vec<(Vec3, Vec3)>)> {
    let (lo, hi) = (voxel_grid_of(v, min), voxel_grid_of(v, max));
    let (o, step) = (Vec3::from(v.origin()), num(v.step()));
    let parts = v.fracture_voronoi(lo, hi, seeds.len(), |s, x, y, z| {
        let c = o + Vec3::new(x as f32 + 0.5, y as f32 + 0.5, z as f32 + 0.5) * step;
        bits(match seeds.get(s) {
            Some(seed) => (c - *seed).length_squared(),
            None => f32::INFINITY,
        })
    });
    parts.iter().map(|(s, boxes)| (*s, voxel_pieces(v, boxes))).collect()
}

/// Seeds spread over a box, each moved by up to half of `jitter` cells.
pub fn voxel_seeds_jittered(min: Vec3, max: Vec3, n: usize, jitter: f32) -> Vec<Vec3> {
    assert!(n <= usize::MAX / 8);
    let inv = 1.0 / seed_side(n.max(1)) as f32;
    let at = |i: usize, j: u16| (i as f32 + 0.5 + (j as f32 / 65535.0 - 0.5) * jitter) * inv;
    jitter_cells(n)
        .iter()
        .map(|c| {
            let t = Vec3::new(at(c.ix, c.jx), at(c.iy, c.jy), at(c.iz, c.jz));
            Vec3::new(
                min.x + (max.x - min.x) * t.x,
                min.y + (max.y - min.y) * t.y,
                min.z + (max.z - min.z) * t.z,
            )
        })
        .collect()
}

/// The box around the filled cells.
pub fn voxel_occupied_bounds(v: &VoxelVolume) -> Option<Aabb> {
    let (lo, hi) = v.occupied_bounds()?;
    let h = Vec3::splat(num(v.step()) * 0.5);
    let cell = |c: (u32, u32, u32)| (c.0 as i32, c.1 as i32, c.2 as i32);
    Some(Aabb { min: voxel_grid_center(v, cell(lo)) - h, max: voxel_grid_center(v, cell(hi)) + h })
}

impl CollisionProvider for VoxelVolume {
    fn bounds(&self) -> Aabb {
        let (nx, ny, nz) = self.dims();
        let o = Vec3::from(self.origin());
        voxel_occupied_bounds(self).unwrap_or(Aabb {
            min: o,
            max: o + Vec3::new(nx as f32, ny as f32, nz as f32) * num(self.step()),
        })
    }

    fn closest_point(&self, p: Vec3) -> Option<SurfaceHit> {
        let d = voxel_sdf(self, p);
        if d > num(self.step()) * 1.5 {
            return None;
        }
        let n = voxel_gradient(self, p);
        Some(SurfaceHit { point: p - n * d, normal: n, signed_dist: d })
    }
}

/// The half extents of the upright box around a turned one.
pub fn voxel_box_aabb_half(half: Vec3, rot: Quat) -> Vec3 {
    let m = Mat3::from_quat(rot);
    let (a, b, c) = (m.c[0] * half.x, m.c[1] * half.y, m.c[2] * half.z);
    Vec3::new(
        a.x.abs() + b.x.abs() + c.x.abs(),
        a.y.abs() + b.y.abs() + c.y.abs(),
        a.z.abs() + b.z.abs() + c.z.abs(),
    )
}

/// The contacts of a box, face by face.
pub fn voxel_contacts_box_voxel(
    v: &VoxelVolume,
    half: Vec3,
    pos: Vec3,
    rot: Quat,
    skin: f32,
    out: &mut Vec<InteropContact>,
) -> bool {
    let m = Mat3::from_quat(rot);
    let reach = voxel_box_aabb_half(half, rot) + Vec3::splat(num(v.step()));
    let cells = v.occupied_cells(voxel_grid_of(v, pos - reach), voxel_grid_of(v, pos + reach));
    if cells.is_empty() {
        return false;
    }
    let at = |face: usize, sample: usize| {
        pos + m.mul_vec3(half.signed(box_sample(face, sample)))
    };
    let d: Vec<f32> =
        (0..30).map(|t: usize| voxel_distance_to(v, &cells, at(t / 5, t % 5))).collect();
    let hits = box_hits(&all_bits(&d), bits(skin));
    for h in &hits {
        let outward = box_sample(h.face, 0);
        out.push(InteropContact {
            point: at(h.face, h.sample),
            normal: m.mul_vec3(-Vec3::splat(1.0).signed(outward)),
            depth: -d[h.face * 5 + h.sample],
            feature: h.feature,
        });
    }
    !hits.is_empty()
}

/// The contact of a ball.
pub fn voxel_contacts_sphere_voxel(
    v: &VoxelVolume,
    center: Vec3,
    radius: f32,
    skin: f32,
    out: &mut Vec<InteropContact>,
) -> bool {
    let d = voxel_sdf(v, center);
    let depth = radius - d;
    if !in_band(bits(depth), bits(skin)) {
        return false;
    }
    let n = voxel_gradient(v, center);
    out.push(InteropContact {
        point: center - n * ((radius + d) * 0.5),
        normal: n,
        depth,
        feature: 1,
    });
    true
}

/// The contact of a point.
pub fn voxel_contacts_point_voxel(
    v: &VoxelVolume,
    p: Vec3,
    skin: f32,
    out: &mut Vec<InteropContact>,
) -> bool {
    let d = voxel_sdf(v, p);
    if bits(d).lt(bits(skin)) {
        let n = voxel_gradient(v, p);
        out.push(InteropContact { point: p - n * d, normal: n, depth: -d, feature: 0 });
    }
    true
}

/// The squared distance of a point from a face of a cell.
fn voxel_face_distance2(v: &VoxelVolume, cell: (i32, i32, i32), face: u8, p: Vec3) -> f32 {
    let step = num(v.step());
    let lo = voxel_grid_center(v, cell) - Vec3::splat(step * 0.5);
    let hi = lo + Vec3::splat(step);
    let q = |a: usize| (lo.get(a) - p.get(a)).max(p.get(a) - hi.get(a)).max(0.0);
    let axis = (face / 2) as usize;
    let side = if face % 2 == 0 { lo } else { hi };
    let da = (side.get(axis) - p.get(axis)).abs();
    let (u, w) = match axis {
        0 => (q(1), q(2)),
        1 => (q(0), q(2)),
        _ => (q(0), q(1)),
    };
    da * da + u * u + w * w
}

/// The contact of a point that may lie deep inside: it leaves by the nearest face.
pub fn voxel_contacts_point_voxel_solid(
    v: &VoxelVolume,
    p: Vec3,
    skin: f32,
    out: &mut Vec<InteropContact>,
) -> bool {
    let Some(faces) = surface_faces(v, voxel_grid_of(v, p)) else {
        return voxel_contacts_point_voxel(v, p, skin, out);
    };
    let d2: Vec<f32> = faces.iter().map(|f| voxel_face_distance2(v, f.cell, f.face, p)).collect();
    let Some(k) = leaving_face(&faces, &all_bits(&d2)) else {
        return voxel_contacts_point_voxel(v, p, skin, out);
    };
    let n = Vec3::splat(1.0).signed(box_sample(faces[k].face as usize, 0));
    let dist = d2[k].sqrt();
    out.push(InteropContact { point: p + n * dist, normal: n, depth: skin + dist, feature: 0 });
    true
}

// ---- height fields

#[test]
fn flat_sample_normal_is_up() {
    let hf = hf_flat(-10.0, -10.0, 21, 21, 1.0, 0.0);
    let (h, n) = hf_sample(&hf, 3.3, -2.7).unwrap();
    assert!(h.abs() < 1e-6);
    assert!(n.y > 0.999);
}

#[test]
fn ramp_gradient_normal() {
    let mut hf = hf_flat(0.0, 0.0, 11, 11, 1.0, 0.0);
    for iz in 0..11 {
        for ix in 0..11 {
            hf.set_height(ix, iz, bits(ix as f32));
        }
    }
    let (h, n) = hf_sample(&hf, 5.5, 5.0).unwrap();
    assert!((h - 5.5).abs() < 1e-5);
    let inv = core::f32::consts::FRAC_1_SQRT_2;
    assert!((n.x + inv).abs() < 1e-4);
    assert!((n.y - inv).abs() < 1e-4);
}

#[test]
fn outside_is_none() {
    let hf = hf_flat(0.0, 0.0, 5, 5, 1.0, 0.0);
    assert!(hf_sample(&hf, 100.0, 0.0).is_none());
}

#[test]
fn flat_field_closest_point_and_box_contacts() {
    let hf = hf_flat(-10.0, -10.0, 21, 21, 1.0, 0.5);
    let hit = hf.closest_point(Vec3::new(0.25, 1.0, -0.25)).unwrap();
    assert!((hit.point.y - 0.5).abs() < 1e-6);
    assert!((hit.signed_dist - 0.5).abs() < 1e-6);
    assert!((hit.normal - Vec3::new(0.0, 1.0, 0.0)).length() < 1e-6);
    let mut out = Vec::new();
    let any = hf.contacts_box(
        Vec3::splat(0.5),
        Vec3::new(0.0, 0.9, 0.0),
        Quat::IDENTITY,
        0.02,
        &mut out,
    );
    assert!(any);
    assert_eq!(out.len(), 4);
    for c in &out {
        assert!((c.depth - 0.1).abs() < 1e-5, "depth={}", c.depth);
    }
    assert!(hf.closest_point(Vec3::new(99.0, 1.0, 0.0)).is_none());
}

#[test]
fn ramp_normal_points_downhill_outward() {
    let mut hf = hf_flat(-5.0, -5.0, 11, 11, 1.0, 0.0);
    for iz in 0..11u32 {
        for ix in 0..11u32 {
            hf.set_height(ix, iz, bits(ix as f32));
        }
    }
    let hit = hf.closest_point(Vec3::new(2.5, 3.0, 0.0)).unwrap();
    assert!(hit.normal.x < -0.5, "normal={:?}", hit.normal);
    assert!(hit.normal.y > 0.5);
}

#[test]
fn add_and_dig() {
    let mut t = TerrainSet::new();
    let id = t.add(hf_flat(0.0, 0.0, 5, 5, 1.0, 2.0));
    assert!(hf_dig(&mut t, id, 2.5, 2.5, 0.5));
    let hf = t.get(id).unwrap();
    assert!((num(hf.height_ix(2, 2)) - 1.5).abs() < 1e-6);
    assert!(!hf_dig(&mut t, id, 100.0, 100.0, 0.5));
}

#[test]
fn bounds_reflect_heights() {
    let mut t = TerrainSet::new();
    let id = t.add(hf_flat(0.0, 0.0, 5, 5, 1.0, 1.0));
    let b = hf_bounds(&t, id).unwrap();
    assert!((b.min.y - 1.0).abs() < 1e-6);
    assert!((b.max.x - 4.0).abs() < 1e-6);
}

/// The box of a field holds every height, and digging lowers it.
#[test]
fn digging_lowers_the_bounds() {
    let mut t = TerrainSet::new();
    assert!(t.is_empty());
    let id = t.add(hf_flat(0.0, 0.0, 4, 3, 2.0, 5.0));
    assert!(hf_dig(&mut t, id, 6.0, 4.0, 2.0));
    assert_eq!(num(t.get(id).unwrap().height_ix(3, 2)), 3.0);
    let b = hf_bounds(&t, id).unwrap();
    assert_eq!((b.min.y, b.max.y), (3.0, 5.0));
    for h in &t.get(id).unwrap().heights {
        assert!(b.min.y <= num(*h) && num(*h) <= b.max.y);
    }
    assert!(hf_bounds(&t, 7).is_none());
    assert!(!hf_dig(&mut t, 7, 1.0, 1.0, 1.0));
    assert_eq!((t.len(), t.slice().len()), (1, 1));
    t.get_mut(id).unwrap().set_height(0, 0, bits(-1.0));
    assert_eq!(hf_bounds(&t, id).unwrap().min.y, -1.0);
    assert!(t.get_mut(9).is_none());
}

/// Nodes around a cell, in order, without those outside the field.
#[test]
fn nodes_near_a_corner() {
    let hf = hf_flat(0.0, 0.0, 3, 3, 1.0, 0.0);
    assert_eq!(hf.nodes_near(0, 0), vec![(0, 0), (0, 1), (1, 0), (1, 1)]);
    assert_eq!(hf.nodes_near(1, 1).len(), 9);
    assert!(hf.nodes_near(-5, 0).is_empty());
}

/// A cell at the border is the last one inside.
#[test]
fn cells_are_clamped_to_the_field() {
    let hf = hf_flat(0.0, 0.0, 3, 4, 1.0, 7.0);
    assert_eq!(hf.sample_cell(-3, 9).0, (0, 2));
    assert_eq!(hf.sample_cell(1, 1).0, (1, 1));
    let lowest = HeightField::bounds(&hf);
    assert_eq!((num(lowest.0), num(lowest.1)), (7.0, 7.0));
}

// ---- meshes

/// A square of side two at height zero, facing up.
fn ground() -> TriMesh {
    mesh_quad(Vec3::ZERO, Vec3::X, Vec3::Z, Vec3::Y)
}

#[test]
fn point_query_depth_and_normal() {
    let mut m = ground();
    mesh_build_grid(&mut m);
    let mut out = Vec::new();
    assert!(m.contacts_point(0, Vec3::new(0.3, 0.0, -0.2), 0.05, &mut out));
    assert_eq!(out.len(), 1);
    assert!((out[0].depth - 0.05).abs() < 1e-5, "d={}", out[0].depth);
    assert!(out[0].normal.y > 0.99, "n={:?}", out[0].normal);
    out.clear();
    m.contacts_point(0, Vec3::new(0.0, 0.12, 0.0), 0.05, &mut out);
    assert!(out.is_empty());
    out.clear();
    m.contacts_point(0, Vec3::new(0.0, 0.02, 0.0), 0.05, &mut out);
    assert_eq!(out.len(), 1);
    assert!((out[0].depth - 0.03).abs() < 1e-5, "d={}", out[0].depth);
}

#[test]
fn grid_matches_brute_force_closest() {
    let mut verts = Vec::new();
    let mut tris = Vec::new();
    let n = 12u32;
    for iy in 0..=n {
        for ix in 0..=n {
            let x = ix as f32 * 0.2 - 1.2;
            let z = iy as f32 * 0.2 - 1.2;
            verts.push(Vec3::new(x, 0.15 * x + 0.1 * z, z));
        }
    }
    for iy in 0..n {
        for ix in 0..n {
            let i = iy * (n + 1) + ix;
            tris.push([i, i + 1, i + n + 1]);
            tris.push([i + 1, i + n + 2, i + n + 1]);
        }
    }
    let mut with_grid = mesh_new(&verts, tris.clone());
    mesh_build_grid(&mut with_grid);
    assert!(with_grid.grid.is_some());
    let brute = mesh_new(&verts, tris);
    let mut st: u32 = 0x2545_f491;
    for _ in 0..200 {
        st = st.wrapping_mul(1_664_525).wrapping_add(1_013_904_223);
        let t = (st >> 8) as f32 / (1u32 << 24) as f32;
        st = st.wrapping_mul(1_664_525).wrapping_add(1_013_904_223);
        let u = (st >> 8) as f32 / (1u32 << 24) as f32;
        let p = Vec3::new(t * 2.4 - 1.2, t * 0.6 - 0.2, u * 2.4 - 1.2);
        let (d1, q1, _, _) = mesh_closest(&with_grid, p, f32::INFINITY).unwrap();
        let (d2, q2, _, _) = mesh_closest(&brute, p, f32::INFINITY).unwrap();
        assert!((d1 - d2).abs() < 1e-4, "{d1} and {d2} at {p:?}");
        assert!((q1 - q2).length() < 1e-3, "different points at {p:?}");
    }
}

#[test]
fn sphere_query_on_slope() {
    let mut m = ground();
    mesh_build_grid(&mut m);
    let mut out = Vec::new();
    assert!(m.contacts_sphere(0, Vec3::new(0.2, 0.25, 0.2), 0.3, 0.05, &mut out));
    assert_eq!(out.len(), 1);
    assert!((out[0].depth - 0.05).abs() < 1e-5, "d={}", out[0].depth);
}

#[test]
fn box_query_box_query_four_corners() {
    let mut m = ground();
    mesh_build_grid(&mut m);
    let mut out = Vec::new();
    m.contacts_box(
        0,
        Vec3::splat(0.2),
        Vec3::new(0.0, 0.2, 0.0),
        Quat::IDENTITY,
        0.05,
        &mut out,
    );
    assert!(out.len() >= 4, "{} contacts", out.len());
    assert!(out.iter().all(|c| c.normal.y > 0.99));
}

#[test]
fn degenerate_triangle_is_skipped_not_panicking() {
    let m = mesh_new(&[Vec3::ZERO, Vec3::X, Vec3::X], vec![[0, 1, 2], [0, 1, 9]]);
    assert_eq!(m.tris().len(), 1);
    assert!(mesh_closest(&m, Vec3::Y, f32::INFINITY).is_some());
}

/// A point near a triangle of the grid has it among its candidates.
#[test]
fn candidates_hold_the_nearest_triangle() {
    let mut m = ground();
    mesh_build_grid(&mut m);
    let near = m.candidates(mesh_bin_query(&m, Vec3::new(0.9, 0.1, -0.9)), |_, _, _| true);
    assert!(near.contains(&0));
    let far = m.candidates(mesh_bin_query(&m, Vec3::new(-90.0, 0.0, 0.0)), |_, _, _| false);
    assert_eq!(far, vec![0, 1]);
    let cut = m.candidates(mesh_bin_query(&m, Vec3::ZERO), |_, _, _| false);
    assert!(cut.is_empty());
}

/// A mesh without triangles has neither grid nor candidates.
#[test]
fn an_empty_mesh_finds_nothing() {
    let mut m = mesh_new(&[], vec![]);
    mesh_build_grid(&mut m);
    assert!(m.is_empty() && m.grid.is_none() && m.verts().is_empty());
    assert!(mesh_closest(&m, Vec3::ZERO, 1.0).is_none());
    let b = mesh_world_bounds(&m);
    assert_eq!((b.min, b.max), (Vec3::ZERO, Vec3::ZERO));
    m.build_grid(Vec3::ZERO.into(), bits(1.0), (0, 1, 1), &[]);
    assert!(m.grid.is_none());
}

/// The nearest point of a triangle on its corners, edges and inside.
#[test]
fn regions_of_a_triangle() {
    let (a, b, c) = (Vec3::ZERO, Vec3::X, Vec3::Z);
    let near = |x: f32, z: f32| mesh_closest_on_tri(Vec3::new(x, 1.0, z), a, b, c);
    assert_eq!(near(-1.0, -1.0), a);
    assert_eq!(near(2.0, -0.5), b);
    assert_eq!(near(-0.5, 2.0), c);
    assert_eq!(near(0.5, -1.0), Vec3::new(0.5, 0.0, 0.0));
    assert_eq!(near(-1.0, 0.5), Vec3::new(0.0, 0.0, 0.5));
    assert!((near(1.0, 1.0) - Vec3::new(0.5, 0.0, 0.5)).length() < 1e-6);
    assert!((near(0.25, 0.25) - Vec3::new(0.25, 0.0, 0.25)).length() < 1e-6);
}

// ---- half spaces

/// The cube of half extent one about the origin.
fn unit_cube() -> HalfSpaceSet {
    let mut s =
        planes_new(Aabb { min: Vec3::new(-1.0, -1.0, -1.0), max: Vec3::new(1.0, 1.0, 1.0) });
    for (n, d) in [
        (Vec3::new(1.0, 0.0, 0.0), 1.0),
        (Vec3::new(-1.0, 0.0, 0.0), 1.0),
        (Vec3::new(0.0, 1.0, 0.0), 1.0),
        (Vec3::new(0.0, -1.0, 0.0), 1.0),
        (Vec3::new(0.0, 0.0, 1.0), 1.0),
        (Vec3::new(0.0, 0.0, -1.0), 1.0),
    ] {
        assert!(planes_push(&mut s, n, d));
    }
    s
}

#[test]
fn bounds_is_the_given_aabb() {
    let s = unit_cube();
    let b = ProviderColliders::bounds(&s, 7).expect("the set has bounds");
    assert_eq!((b.min.x, b.max.x), (-1.0, 1.0));
}

#[test]
fn normal_and_offset_are_normalized_on_push() {
    let mut s = planes_new(Aabb { min: Vec3::ZERO, max: Vec3::ZERO });
    assert!(planes_push(&mut s, Vec3::new(0.0, 3.0, 0.0), 3.0));
    let (n, d) = planes_plane(&s, 0);
    assert!((n.y - 1.0).abs() < 1e-6 && (d - 1.0).abs() < 1e-6);
    assert!(!planes_push(&mut s, Vec3::ZERO, 0.0));
    assert!(!planes_push(&mut s, Vec3::splat(f32::NAN), 0.0));
    assert!(!planes_push(&mut s, Vec3::splat(f32::INFINITY), 0.0));
    assert_eq!(s.len(), 1);
}

#[test]
fn outside_point_gives_negative_depth_and_outward_normal() {
    let s = unit_cube();
    let skin = 0.01f32;
    let mut out = Vec::new();
    assert!(s.contacts_point(0, Vec3::new(0.0, 1.5, 0.0), skin, &mut out));
    assert!(out.is_empty());
    let _ = s.contacts_point(0, Vec3::new(0.0, 1.005, 0.0), skin, &mut out);
    let c = out[out.len() - 1];
    assert!((c.depth + 0.005).abs() < 1e-5, "depth={}", c.depth);
    assert!((c.normal.y - 1.0).abs() < 1e-6);
    assert!((c.point.y - 1.0).abs() < 1e-5);
}

#[test]
fn inside_point_gives_positive_depth_of_nearest_face() {
    let s = unit_cube();
    let mut out = Vec::new();
    let _ = s.contacts_point(0, Vec3::new(0.0, 0.0, 0.9), 0.01, &mut out);
    let c = out[out.len() - 1];
    assert!((c.depth - 0.1).abs() < 1e-5, "depth={}", c.depth);
    assert!((c.normal.z - 1.0).abs() < 1e-6 && c.normal.x.abs() < 1e-6);
    assert!(c.point.z < c.depth + 1.0);
}

#[test]
fn sphere_depth_is_radius_minus_plane_distance() {
    let s = unit_cube();
    let mut out = Vec::new();
    assert!(s.contacts_sphere(0, Vec3::new(0.0, 1.3, 0.0), 0.5, 0.01, &mut out));
    let c = out[out.len() - 1];
    assert!((c.depth - 0.2).abs() < 1e-5, "depth={}", c.depth);
    assert!((c.normal.y - 1.0).abs() < 1e-6);
    let n0 = out.len();
    let _ = s.contacts_sphere(0, Vec3::new(0.0, 1.6, 0.0), 0.5, 0.01, &mut out);
    assert_eq!(out.len(), n0);
}

#[test]
fn box_face_contact_is_exact() {
    let s = unit_cube();
    let mut out = Vec::new();
    let half = Vec3::new(0.5, 0.5, 0.5);
    assert!(s.contacts_box(0, half, Vec3::new(0.0, 1.4, 0.0), Quat::IDENTITY, 0.01, &mut out));
    assert_eq!(out.len(), 1);
    let c = out[0];
    assert!((c.depth - 0.1).abs() < 1e-5, "depth={}", c.depth);
    assert!((c.normal.y - 1.0).abs() < 1e-6);
    assert!((c.point.y - 1.0).abs() < 1e-5);
}

#[test]
fn empty_set_produces_nothing_but_supports_point_queries() {
    let s = planes_new(Aabb { min: Vec3::ZERO, max: Vec3::ZERO });
    let mut out = Vec::new();
    assert!(s.is_empty());
    assert!(s.contacts_point(0, Vec3::ZERO, 0.01, &mut out));
    assert!(out.is_empty());
    assert!(!s.contacts_box(
        0,
        Vec3::splat(1.0),
        Vec3::ZERO,
        Quat::IDENTITY,
        0.01,
        &mut out
    ));
}

/// A box beyond two planes touches through neither, and of equal distances the
/// first plane decides.
#[test]
fn one_plane_decides() {
    let s = unit_cube();
    let mut out = Vec::new();
    assert!(!s.contacts_box(
        0,
        Vec3::splat(0.5),
        Vec3::new(1.4, 1.4, 0.0),
        Quat::IDENTITY,
        0.01,
        &mut out
    ));
    let (sd, k) = s.signed(&all_bits(&[-1.0, -0.5, -0.5, -2.0, -3.0, -0.5]));
    assert_eq!((num(sd), k), (-0.5, 1));
    assert_eq!(s.signed(&all_bits(&[f32::NAN; 6])).1, 0);
    assert_eq!(deepest_corner(&all_bits(&[0.5, -1.0, -1.0])), Some(1));
    assert_eq!(deepest_corner(&all_bits(&[f32::INFINITY, f32::NAN])), None);
    assert_eq!(corner_signs(0), (-1, -1, -1));
    assert_eq!(corner_signs(1), (-1, -1, 1));
    assert_eq!(corner_signs(6), (1, 1, -1));
}

// ---- voxels

/// A floor of eight by two by eight cells with its top at height one.
fn floor_volume() -> VoxelVolume {
    let mut v = voxel_new(Vec3::new(-2.0, 0.0, -2.0), 0.5, 8, 2, 8);
    voxel_fill_box(&mut v, Vec3::new(-2.0, 0.0, -2.0), Vec3::new(2.0, 1.0, 2.0));
    v
}

#[test]
fn sdf_signs_and_surface() {
    let v = floor_volume();
    let d = voxel_sdf(&v, Vec3::new(0.0, 1.25, 0.0));
    assert!((d - 0.25).abs() < 1e-5, "d={d}");
    let d = voxel_sdf(&v, Vec3::new(0.25, 0.75, 0.25));
    assert!(d < 0.0, "d={d}");
    assert!((d + 0.25).abs() < 1e-5, "d={d}");
    let hit = v.closest_point(Vec3::new(0.25, 1.25, 0.25)).unwrap();
    assert!((hit.point.y - 1.0).abs() < 1e-5, "py={}", hit.point.y);
    assert!((hit.normal - Vec3::new(0.0, 1.0, 0.0)).length() < 1e-4);
    assert!((hit.signed_dist - 0.25).abs() < 1e-5);
}

#[test]
fn dug_hole_reads_as_empty_with_walls() {
    let mut v = floor_volume();
    v.set(4, 0, 4, false);
    v.set(4, 1, 4, false);
    assert_eq!(v.filled_count(), 8 * 2 * 8 - 2);
    let d = voxel_sdf(&v, Vec3::new(0.25, 0.5, 0.25));
    assert!(d > 0.0, "d={d}");
    assert!(voxel_sdf(&v, Vec3::new(0.25, 0.1, 0.25)) > 0.0);
}

#[test]
fn box_contacts_on_voxel_floor() {
    let v = floor_volume();
    let mut out = Vec::new();
    let any = voxel_contacts_box_voxel(
        &v,
        Vec3::splat(0.5),
        Vec3::new(0.25, 1.4, 0.25),
        Quat::IDENTITY,
        0.02,
        &mut out,
    );
    assert!(any);
    let bottom: Vec<_> = out.iter().filter(|c| (48..53).contains(&c.feature)).collect();
    assert_eq!(bottom.len(), 5, "{} contacts", out.len());
    for c in &bottom {
        assert!((c.depth - 0.1).abs() < 1e-4, "depth={}", c.depth);
        assert!((c.normal.y - 1.0).abs() < 1e-4, "normal={:?}", c.normal);
    }
    for c in out.iter().filter(|c| !(48..53).contains(&c.feature)) {
        assert_ne!(c.feature % 16, 0, "feature={}", c.feature);
    }
    assert!(out.iter().any(|c| c.feature == 48));
    let mut out2 = Vec::new();
    assert!(!voxel_contacts_box_voxel(
        &v,
        Vec3::splat(0.5),
        Vec3::new(0.25, 2.5, 0.25),
        Quat::IDENTITY,
        0.02,
        &mut out2
    ));
}

#[test]
fn box_fully_embedded_reports_contact() {
    let v = floor_volume();
    let mut out = Vec::new();
    let any = voxel_contacts_box_voxel(
        &v,
        Vec3::splat(0.5),
        Vec3::new(0.25, 0.75, 0.25),
        Quat::IDENTITY,
        0.02,
        &mut out,
    );
    assert!(any, "{} contacts", out.len());
    assert!(!out.is_empty());
    assert!(out[0].depth > 0.0, "depth={}", out[0].depth);
}

#[test]
fn sphere_sdf_contact_depth_and_normal() {
    let v = floor_volume();
    let mut out = Vec::new();
    assert!(voxel_contacts_sphere_voxel(&v, Vec3::new(0.25, 1.3, 0.25), 0.4, 0.02, &mut out));
    assert_eq!(out.len(), 1);
    assert!((out[0].depth - 0.1).abs() < 1e-4, "depth={}", out[0].depth);
    assert!((out[0].normal - Vec3::new(0.0, 1.0, 0.0)).length() < 1e-4);
    let mut out2 = Vec::new();
    assert!(!voxel_contacts_sphere_voxel(&v, Vec3::new(0.25, 1.5, 0.25), 0.4, 0.02, &mut out2));
}

#[test]
fn sphere_extract_carves_crater() {
    let mut v = voxel_new(Vec3::ZERO, 0.5, 8, 8, 8);
    voxel_fill_box(&mut v, Vec3::ZERO, Vec3::new(4.0, 4.0, 4.0));
    let filled0 = v.filled_count();
    let boxes = voxel_extract_sphere(&mut v, Vec3::new(2.0, 2.0, 2.0), 1.0);
    let removed = filled0 - v.filled_count();
    assert!(!boxes.is_empty());
    let vol_cells = (4.0 / 3.0 * core::f32::consts::PI * 1.0f32.powi(3)) / 0.5f32.powi(3);
    assert!(
        (removed as f32) > vol_cells * 0.6 && (removed as f32) < vol_cells * 1.4,
        "{removed} cells for {vol_cells}"
    );
    assert!(!v.get(4, 4, 4));
    assert!(v.get(0, 0, 0));
    assert!(v.get(7, 7, 7));
}

#[test]
fn voronoi_fracture_tiles_region_exactly() {
    let mut v = voxel_new(Vec3::ZERO, 0.5, 8, 8, 8);
    voxel_fill_box(&mut v, Vec3::ZERO, Vec3::new(4.0, 4.0, 4.0));
    let filled0 = v.filled_count();
    let seeds =
        voxel_seeds_jittered(Vec3::new(0.5, 0.5, 0.5), Vec3::new(3.5, 3.5, 3.5), 8, 0.6);
    assert_eq!(seeds.len(), 8);
    let cells =
        voxel_fracture_voronoi(&mut v, Vec3::ZERO, Vec3::new(4.0, 4.0, 4.0), &seeds);
    assert!(!cells.is_empty());
    let mut removed = 0usize;
    for (_, boxes) in &cells {
        for (_, h) in boxes {
            removed += ((2.0 * h.x / 0.5).round()
                * (2.0 * h.y / 0.5).round()
                * (2.0 * h.z / 0.5).round()) as usize;
        }
    }
    assert_eq!(removed, filled0);
    assert_eq!(v.filled_count(), 0);
    assert!(cells.len() >= 2, "{} pieces", cells.len());
}

#[test]
fn bounds_track_occupied_cells() {
    let mut v = voxel_new(Vec3::ZERO, 1.0, 4, 4, 4);
    assert!(v.occupied_bounds().is_none());
    v.set(1, 0, 2, true);
    let b = voxel_occupied_bounds(&v).unwrap();
    assert!((b.min.x - 1.0).abs() < 1e-6 && (b.max.x - 2.0).abs() < 1e-6);
    assert!((b.min.y - 0.0).abs() < 1e-6 && (b.max.y - 1.0).abs() < 1e-6);
    assert!((b.min.z - 2.0).abs() < 1e-6 && (b.max.z - 3.0).abs() < 1e-6);
    let _ = CollisionProvider::bounds(&v);
}

/// The far side of a filled box is open: cells that begin there stay empty.
#[test]
fn filling_ends_at_the_far_side() {
    let mut v = voxel_new(Vec3::ZERO, 0.5, 8, 8, 8);
    voxel_fill_box(&mut v, Vec3::new(0.5, 0.0, 0.0), Vec3::new(1.5, 1.5, 0.5));
    assert_eq!(v.filled_count(), 2 * 3);
    assert!(v.get(2, 2, 0) && v.get(1, 0, 0));
    assert!(!v.get(3, 2, 0) && !v.get(2, 3, 0) && !v.get(0, 0, 0));
}

/// A box that cuts through cells fills only those that lie wholly in it.
#[test]
fn filling_takes_whole_cells() {
    let mut v = voxel_new(Vec3::ZERO, 0.5, 4, 4, 4);
    voxel_fill_box(&mut v, Vec3::new(0.25, 0.0, 0.5), Vec3::new(1.25, 0.75, 1.5));
    assert_eq!(v.occupied_cells((0, 0, 0), (3, 3, 3)), vec![(1, 0, 1), (1, 0, 2)]);
    voxel_fill_box(&mut v, Vec3::new(0.1, 0.1, 0.1), Vec3::new(0.4, 0.4, 0.4));
    assert_eq!(v.occupied_cells((0, 0, 0), (3, 3, 3)).len(), 2);
}

/// A box that is filled and taken out again comes out as one piece, once.
#[test]
fn extraction_takes_what_was_filled() {
    let mut v = voxel_new(Vec3::ZERO, 1.0, 6, 5, 4);
    v.fill_box((1, 1, 1), (4, 3, 3));
    assert_eq!(v.filled_count(), 3 * 2 * 2);
    let boxes = v.extract_boxes((0, 0, 0), (5, 4, 3));
    assert_eq!(boxes.len(), 1);
    assert_eq!((boxes[0].lo, boxes[0].hi), ((1, 1, 1), (3, 2, 2)));
    assert_eq!(v.filled_count(), 0);
    assert!(v.extract_boxes((0, 0, 0), (5, 4, 3)).is_empty());
    // the bounds only ever grow
    assert_eq!(v.occupied_bounds(), Some(((1, 1, 1), (3, 2, 2))));
    assert_eq!(v.dims(), (6, 5, 4));
    assert_eq!(num(v.step()), 1.0);
    assert_eq!(v.index(1, 2, 3), 1 + 6 * (2 + 5 * 3));
}

/// Cells outside the grid are empty and cannot be filled.
#[test]
fn cells_outside_are_ignored() {
    let mut v = voxel_new(Vec3::ZERO, 1.0, 2, 2, 2);
    v.set(5, 0, 0, true);
    assert_eq!(v.filled_count(), 0);
    assert!(!v.get(5, 0, 0) && !v.in_range(-1, 0, 0) && v.in_range(1, 1, 1));
    v.fill_box((-5, -5, -5), (1, 9, 1));
    assert_eq!(v.filled_count(), 2);
    v.set(0, 0, 0, true);
    assert_eq!(v.filled_count(), 2);
    assert!(voxel_extract_sphere(&mut v, Vec3::ZERO, 0.0).is_empty());
    assert_eq!(v.occupied_cells((0, 0, 0), (1, 1, 1)), vec![(0, 0, 0), (0, 1, 0)]);
}

/// An L-shaped solid is cut along the first axis first.
#[test]
fn extraction_is_greedy() {
    let mut v = voxel_new(Vec3::ZERO, 1.0, 3, 2, 1);
    v.fill_box((0, 0, 0), (3, 1, 1));
    v.fill_box((0, 1, 0), (1, 2, 1));
    let boxes = v.extract_boxes((0, 0, 0), (2, 1, 0));
    let spans: Vec<_> = boxes.iter().map(|b| (b.lo, b.hi)).collect();
    assert_eq!(spans, vec![((0, 0, 0), (2, 0, 0)), ((0, 1, 0), (0, 1, 0))]);
    let mut w = voxel_new(Vec3::ZERO, 1.0, 3, 2, 1);
    w.fill_box((0, 0, 0), (3, 1, 1));
    let some = w.extract_where((0, 0, 0), (2, 1, 0), |x, _, _| x != 1);
    assert_eq!(some.len(), 2);
    assert!(w.get(1, 0, 0));
}

/// Of two seeds at the same distance the first takes the cell.
#[test]
fn ties_go_to_the_first_seed() {
    let mut v = voxel_new(Vec3::ZERO, 1.0, 3, 1, 1);
    v.fill_box((0, 0, 0), (3, 1, 1));
    let d = [1.0f32, 1.0];
    let parts = v.fracture_voronoi((0, 0, 0), (2, 0, 0), 2, |s, _, _, _| bits(d[s.min(1)]));
    assert_eq!(parts.len(), 1);
    assert_eq!(parts[0].0, 0);
    assert!(v.fracture_voronoi((0, 0, 0), (2, 0, 0), 0, |_, _, _, _| bits(0.0)).is_empty());
    assert_eq!((seed_side(1), seed_side(8), seed_side(9), seed_side(27)), (1, 2, 3, 3));
    assert_eq!(jitter_cells(0).len(), 1);
    assert_eq!(jitter_cells(9).len(), 9);
    let c = jitter_cells(9)[4];
    assert_eq!((c.ix, c.iy, c.iz), (1, 1, 0));
}

/// A point in a wall leaves towards the open side, not out of the grid.
#[test]
fn points_inside_leave_by_the_open_face() {
    let v = floor_volume();
    let mut out = Vec::new();
    let p = Vec3::new(0.2, 0.8, 0.2);
    assert!(voxel_contacts_point_voxel_solid(&v, p, 0.05, &mut out));
    // the floor fills the grid, so its top is a face of the grid
    assert_eq!(out[0].normal, Vec3::Y);
    assert!((out[0].depth - 0.25).abs() < 1e-5);
    let mut w = voxel_new(Vec3::ZERO, 1.0, 3, 3, 3);
    w.fill_box((0, 0, 0), (1, 3, 3));
    out.clear();
    assert!(voxel_contacts_point_voxel_solid(&w, Vec3::new(0.1, 1.5, 1.5), 0.05, &mut out));
    assert_eq!(out[0].normal, Vec3::X);
    out.clear();
    assert!(voxel_contacts_point_voxel_solid(&w, Vec3::new(1.02, 1.5, 1.5), 0.05, &mut out));
    assert!((out[0].depth + 0.02).abs() < 1e-5);
    let none = surface_faces(&w, (2, 2, 2));
    assert!(none.is_none());
}

/// The samples of a face and their names.
#[test]
fn samples_of_a_box() {
    assert_eq!(box_sample(2, 0), (0, -1, 0));
    assert_eq!(box_sample(3, 0), (0, 1, 0));
    assert_eq!(box_sample(0, 1), (-1, -1, -1));
    assert_eq!(box_sample(4, 2), (-1, 1, -1));
    let mut d = vec![1.0f32; 30];
    d[10] = -0.5;
    d[12] = 0.01;
    let hits = box_hits(&all_bits(&d), bits(0.02));
    let names: Vec<u32> = hits.iter().map(|h| h.feature).collect();
    assert_eq!(names, vec![48, 50]);
}
