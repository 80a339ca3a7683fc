//! A field of Gaussian splats.

use crate::scalar::{Scalar, Vec3};
use vstd::prelude::*;

verus! {

/// One splat: where it is, how far it extends along its axes, and how it looks.
/// The axes are the columns of `rot`.
#[derive(Clone, Copy, Debug)]
pub struct Splat {
    pub center: Vec3,
    pub scale: Vec3,
    pub rot: [Vec3; 3],
    pub opacity: Scalar,
    pub color: [Scalar; 3],
}

impl Splat {
    /// A round splat, in the default colour.
    pub fn isotropic(center: Vec3, radius: Scalar, opacity: Scalar) -> (r: Splat)
        ensures
            r.center == center,
            r.scale == (Vec3 { x: radius, y: radius, z: radius }),
            r.opacity == opacity,
            r.rot@ == seq![
                Vec3 { x: Scalar { bits: 0x3f80_0000 }, ..Vec3::zero_spec() },
                Vec3 { y: Scalar { bits: 0x3f80_0000 }, ..Vec3::zero_spec() },
                Vec3 { z: Scalar { bits: 0x3f80_0000 }, ..Vec3::zero_spec() },
            ],
            r.color@ == seq![
                Scalar { bits: 0x3f4c_cccd },
                Scalar { bits: 0x3f59_999a },
                Scalar { bits: 0x3f73_3333 },
            ],
    {
        let one = Scalar { bits: 0x3f80_0000 };
        let zero = Scalar::zero();
        let rot: [Vec3; 3] = [
            Vec3 { x: one, y: zero, z: zero },
            Vec3 { x: zero, y: one, z: zero },
            Vec3 { x: zero, y: zero, z: one },
        ];
        let color: [Scalar; 3] = [
            Scalar { bits: 0x3f4c_cccd },
            Scalar { bits: 0x3f59_999a },
            Scalar { bits: 0x3f73_3333 },
        ];
        assert(rot@ =~= seq![
            Vec3 { x: Scalar { bits: 0x3f80_0000 }, ..Vec3::zero_spec() },
            Vec3 { y: Scalar { bits: 0x3f80_0000 }, ..Vec3::zero_spec() },
            Vec3 { z: Scalar { bits: 0x3f80_0000 }, ..Vec3::zero_spec() },
        ]);
        assert(color@ =~= seq![
            Scalar { bits: 0x3f4c_cccd },
            Scalar { bits: 0x3f59_999a },
            Scalar { bits: 0x3f73_3333 },
        ]);
        Splat { center, scale: Vec3 { x: radius, y: radius, z: radius }, rot, opacity, color }
    }
}

/// A field of splats. Its surface is where the density is `iso`; a splat counts
/// only up to the squared distance `cut`.
pub struct GaussianSplatField {
    pub splats: Vec<Splat>,
    pub iso: Scalar,
    pub cut: Scalar,
}

impl Default for GaussianSplatField {
    /// An empty field with its surface at half density.
    fn default() -> (r: GaussianSplatField)
        ensures
            r.splats@.len() == 0,
            r.iso == (Scalar { bits: 0x3f00_0000 }),
            r.cut == (Scalar { bits: 0x4110_0000 }),
    {
        GaussianSplatField::new(Scalar { bits: 0x3f00_0000 })
    }
}

impl GaussianSplatField {
    /// An empty field.
    pub fn new(iso: Scalar) -> (r: GaussianSplatField)
        ensures
            r.splats@.len() == 0,
            r.iso == iso,
            r.cut == (Scalar { bits: 0x4110_0000 }),
    {
        GaussianSplatField { splats: Vec::new(), iso, cut: Scalar { bits: 0x4110_0000 } }
    }

    /// Adds a splat.
    pub fn push(&mut self, s: Splat)
        ensures
            final(self).splats@ == old(self).splats@.push(s),
            final(self).iso == old(self).iso,
            final(self).cut == old(self).cut,
    {
        self.splats.push(s);
    }

    /// How many splats there are.
    pub fn len(&self) -> (n: usize)
        ensures
            n == self.splats@.len(),
    {
        self.splats.len()
    }

    /// Whether there is no splat.
    pub fn is_empty(&self) -> (r: bool)
        ensures
            r == (self.splats@.len() == 0),
    {
        self.splats.len() == 0
    }

    /// The splats, in the order they were added.
    pub fn splats(&self) -> (r: &[Splat])
        ensures
            r@ == self.splats@,
    {
        self.splats.as_slice()
    }
}

/// Copies the splats of a field into a list, in order.
pub fn export_splats(field: &GaussianSplatField, out: &mut Vec<Splat>)
    ensures
        final(out)@ == field.splats@,
{
    out.clear();
    let mut i: usize = 0;
    assert(out@ =~= field.splats@.take(0));
    while i < field.splats.len()
        invariant
            i <= field.splats@.len(),
            out@ == field.splats@.take(i as int),
        decreases field.splats@.len() - i,
    {
        out.push(field.splats[i]);
        i += 1;
        assert(out@ =~= field.splats@.take(i as int));
    }
    assert(out@ =~= field.splats@);
}

} // verus!
