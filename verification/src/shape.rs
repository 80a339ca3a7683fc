//! Collision shapes.

use crate::scalar::{Scalar, Vec3};
use vstd::prelude::*;

verus! {

/// A collision shape. Heights and radii are measured from the centre.
#[derive(Clone, Copy, Debug, PartialEq, Eq, Structural)]
pub enum Shape {
    Box { half: Vec3 },
    Sphere { radius: Scalar },
    Capsule { half_height: Scalar, radius: Scalar },
    Cylinder { half_height: Scalar, radius: Scalar },
    Cone { half_height: Scalar, radius: Scalar },
    /// A stored point cloud, with its bounding half extents.
    ConvexHull { hull: u32, half: Vec3 },
    /// A stored list of child shapes, with its bounding half extents.
    Compound { compound: u32, half: Vec3 },
    /// A stored height field.
    HeightField(u32),
    /// Geometry that another component answers for.
    Provider(u32),
}

/// Positive infinity.
pub open spec fn infinity_spec() -> Scalar {
    Scalar { bits: 0x7f80_0000 }
}

/// The smallest distance from the centre to a face of the shape.
pub open spec fn min_half_extent_spec(shape: Shape) -> Scalar {
    match shape {
        Shape::Box { half } => half.x.min_spec(half.y).min_spec(half.z),
        Shape::Sphere { radius } => radius,
        Shape::Cylinder { half_height, radius } => half_height.min_spec(radius),
        _ => infinity_spec(),
    }
}

/// Whether the smallest half extent of the shape is defined.
pub open spec fn has_min_half_extent(shape: Shape) -> bool {
    shape is Box || shape is Sphere || shape is Cylinder || shape is HeightField
        || shape is Provider
}

/// The smallest distance from the centre to a face of the shape; terrain, which
/// has none, counts as infinitely large.
pub fn min_half_extent(shape: &Shape) -> (r: Scalar)
    requires
        has_min_half_extent(*shape),
    ensures
        r == min_half_extent_spec(*shape),
{
    match *shape {
        Shape::Box { half } => half.x.min(half.y).min(half.z),
        Shape::Sphere { radius } => radius,
        Shape::Cylinder { half_height, radius } => half_height.min(radius),
        _ => Scalar { bits: 0x7f80_0000 },
    }
}

/// The placeholder shape that stands for height field `id` in the scene.
pub fn heightfield_marker_shape(id: u32) -> (r: Shape)
    ensures
        r == Shape::HeightField(id),
{
    Shape::HeightField(id)
}

} // verus!
