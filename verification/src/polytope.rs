//! Convex polytopes, with the vertices listed face by face.

use crate::scalar::{Quat, Scalar, Vec3};
use crate::shape::Shape;
use std::collections::HashMap;
use vstd::prelude::*;

verus! {

/// The corners of the faces of a box, round each face as seen from outside. The
/// number of a corner tells its sides: one for the first axis, two for the
/// second, four for the third.
pub open spec fn box_corner(face: int, i: int) -> int {
    if face == 0 {
        if i == 0 {
            1
        } else if i == 1 {
            3
        } else if i == 2 {
            7
        } else {
            5
        }
    } else if face == 1 {
        if i == 0 {
            0
        } else if i == 1 {
            4
        } else if i == 2 {
            6
        } else {
            2
        }
    } else if face == 2 {
        if i == 0 {
            2
        } else if i == 1 {
            6
        } else if i == 2 {
            7
        } else {
            3
        }
    } else if face == 3 {
        if i == 0 {
            0
        } else if i == 1 {
            1
        } else if i == 2 {
            5
        } else {
            4
        }
    } else if face == 4 {
        if i == 0 {
            4
        } else if i == 1 {
            5
        } else if i == 2 {
            7
        } else {
            6
        }
    } else {
        if i == 0 {
            0
        } else if i == 1 {
            2
        } else if i == 2 {
            3
        } else {
            1
        }
    }
}

/// The corner lies on the positive side of an axis.
pub open spec fn corner_positive(corner: int, axis: int) -> bool {
    if axis == 0 {
        corner % 2 == 1
    } else if axis == 1 {
        (corner / 2) % 2 == 1
    } else {
        corner / 4 == 1
    }
}

/// Plus or minus one: the side of an axis on which a corner lies.
pub open spec fn side(corner: int, axis: int) -> int {
    if corner_positive(corner, axis) {
        1
    } else {
        -1
    }
}

/// The outward normal of a face of a box: positive and negative side of each axis
/// in turn.
pub open spec fn box_normal(face: int, axis: int) -> int {
    if face / 2 == axis {
        if face % 2 == 0 {
            1
        } else {
            -1
        }
    } else {
        0
    }
}

/// Every corner of a face lies on it, neighbours on its edge differ along one
/// axis, and going round it is anticlockwise as seen from outside.
pub proof fn box_faces_are_rings(face: int, i: int)
    requires
        0 <= face < 6,
        0 <= i < 4,
    ensures
        ({
            let a = box_corner(face, i);
            let b = box_corner(face, (i + 1) % 4);
            let c = box_corner(face, (i + 2) % 4);
            &&& 0 <= a < 8
            &&& side(a, face / 2) == box_normal(face, face / 2)
            &&& forall|axis: int|
                0 <= axis < 3 && #[trigger] side(a, axis) != side(b, axis) ==> axis != face / 2
            &&& (side(a, 0) - side(b, 0)) * (side(a, 0) - side(b, 0)) + (side(a, 1) - side(b, 1)) * (
            side(a, 1) - side(b, 1)) + (side(a, 2) - side(b, 2)) * (side(a, 2) - side(b, 2)) == 4
            &&& (side(b, 1) - side(a, 1)) * (side(c, 2) - side(b, 2)) - (side(b, 2) - side(a, 2)) * (
            side(c, 1) - side(b, 1)) == 4 * box_normal(face, 0)
            &&& (side(b, 2) - side(a, 2)) * (side(c, 0) - side(b, 0)) - (side(b, 0) - side(a, 0)) * (
            side(c, 2) - side(b, 2)) == 4 * box_normal(face, 1)
            &&& (side(b, 0) - side(a, 0)) * (side(c, 1) - side(b, 1)) - (side(b, 1) - side(a, 1)) * (
            side(c, 0) - side(b, 0)) == 4 * box_normal(face, 2)
        }),
{
    lemma_sides();
    assert((0int + 1) % 4 == 1 && (1int + 1) % 4 == 2 && (2int + 1) % 4 == 3 && (3int + 1) % 4 == 0);
    assert((0int + 2) % 4 == 2 && (1int + 2) % 4 == 3 && (2int + 2) % 4 == 0 && (3int + 2) % 4 == 1);
    if face == 0 {
        if i == 0 {
            assert(box_corner(face, i) == 1 && box_corner(face, (i + 1) % 4) == 3 && box_corner(
                face,
                (i + 2) % 4,
            ) == 7);
        } else if i == 1 {
            assert(box_corner(face, i) == 3 && box_corner(face, (i + 1) % 4) == 7 && box_corner(
                face,
                (i + 2) % 4,
            ) == 5);
        } else if i == 2 {
            assert(box_corner(face, i) == 7 && box_corner(face, (i + 1) % 4) == 5 && box_corner(
                face,
                (i + 2) % 4,
            ) == 1);
        } else {
            assert(box_corner(face, i) == 5 && box_corner(face, (i + 1) % 4) == 1 && box_corner(
                face,
                (i + 2) % 4,
            ) == 3);
        }
    } else if face == 1 {
        if i == 0 {
            assert(box_corner(face, i) == 0 && box_corner(face, (i + 1) % 4) == 4 && box_corner(
                face,
                (i + 2) % 4,
            ) == 6);
        } else if i == 1 {
            assert(box_corner(face, i) == 4 && box_corner(face, (i + 1) % 4) == 6 && box_corner(
                face,
                (i + 2) % 4,
            ) == 2);
        } else if i == 2 {
            assert(box_corner(face, i) == 6 && box_corner(face, (i + 1) % 4) == 2 && box_corner(
                face,
                (i + 2) % 4,
            ) == 0);
        } else {
            assert(box_corner(face, i) == 2 && box_corner(face, (i + 1) % 4) == 0 && box_corner(
                face,
                (i + 2) % 4,
            ) == 4);
        }
    } else if face == 2 {
        if i == 0 {
            assert(box_corner(face, i) == 2 && box_corner(face, (i + 1) % 4) == 6 && box_corner(
                face,
                (i + 2) % 4,
            ) == 7);
        } else if i == 1 {
            assert(box_corner(face, i) == 6 && box_corner(face, (i + 1) % 4) == 7 && box_corner(
                face,
                (i + 2) % 4,
            ) == 3);
        } else if i == 2 {
            assert(box_corner(face, i) == 7 && box_corner(face, (i + 1) % 4) == 3 && box_corner(
                face,
                (i + 2) % 4,
            ) == 2);
        } else {
            assert(box_corner(face, i) == 3 && box_corner(face, (i + 1) % 4) == 2 && box_corner(
                face,
                (i + 2) % 4,
            ) == 6);
        }
    } else if face == 3 {
        if i == 0 {
            assert(box_corner(face, i) == 0 && box_corner(face, (i + 1) % 4) == 1 && box_corner(
                face,
                (i + 2) % 4,
            ) == 5);
        } else if i == 1 {
            assert(box_corner(face, i) == 1 && box_corner(face, (i + 1) % 4) == 5 && box_corner(
                face,
                (i + 2) % 4,
            ) == 4);
        } else if i == 2 {
            assert(box_corner(face, i) == 5 && box_corner(face, (i + 1) % 4) == 4 && box_corner(
                face,
                (i + 2) % 4,
            ) == 0);
        } else {
            assert(box_corner(face, i) == 4 && box_corner(face, (i + 1) % 4) == 0 && box_corner(
                face,
                (i + 2) % 4,
            ) == 1);
        }
    } else if face == 4 {
        if i == 0 {
            assert(box_corner(face, i) == 4 && box_corner(face, (i + 1) % 4) == 5 && box_corner(
                face,
                (i + 2) % 4,
            ) == 7);
        } else if i == 1 {
            assert(box_corner(face, i) == 5 && box_corner(face, (i + 1) % 4) == 7 && box_corner(
                face,
                (i + 2) % 4,
            ) == 6);
        } else if i == 2 {
            assert(box_corner(face, i) == 7 && box_corner(face, (i + 1) % 4) == 6 && box_corner(
                face,
                (i + 2) % 4,
            ) == 4);
        } else {
            assert(box_corner(face, i) == 6 && box_corner(face, (i + 1) % 4) == 4 && box_corner(
                face,
                (i + 2) % 4,
            ) == 5);
        }
    } else {
        if i == 0 {
            assert(box_corner(face, i) == 0 && box_corner(face, (i + 1) % 4) == 2 && box_corner(
                face,
                (i + 2) % 4,
            ) == 3);
        } else if i == 1 {
            assert(box_corner(face, i) == 2 && box_corner(face, (i + 1) % 4) == 3 && box_corner(
                face,
                (i + 2) % 4,
            ) == 1);
        } else if i == 2 {
            assert(box_corner(face, i) == 3 && box_corner(face, (i + 1) % 4) == 1 && box_corner(
                face,
                (i + 2) % 4,
            ) == 0);
        } else {
            assert(box_corner(face, i) == 1 && box_corner(face, (i + 1) % 4) == 0 && box_corner(
                face,
                (i + 2) % 4,
            ) == 2);
        }
    }
}

/// The sides of the eight corners.
proof fn lemma_sides()
    ensures
        side(0, 0) == -1 && side(0, 1) == -1 && side(0, 2) == -1,
        side(1, 0) == 1 && side(1, 1) == -1 && side(1, 2) == -1,
        side(2, 0) == -1 && side(2, 1) == 1 && side(2, 2) == -1,
        side(3, 0) == 1 && side(3, 1) == 1 && side(3, 2) == -1,
        side(4, 0) == -1 && side(4, 1) == -1 && side(4, 2) == 1,
        side(5, 0) == 1 && side(5, 1) == -1 && side(5, 2) == 1,
        side(6, 0) == -1 && side(6, 1) == 1 && side(6, 2) == 1,
        side(7, 0) == 1 && side(7, 1) == 1 && side(7, 2) == 1,
{
}

/// A component of a corner: the half extent with the sign of its side.
pub open spec fn signed_half(half: Scalar, positive: bool) -> Scalar {
    if positive {
        half
    } else {
        half.neg_spec()
    }
}

/// A corner of the box with the given half extents.
pub open spec fn corner_point(half: Vec3, corner: int) -> Vec3 {
    Vec3 {
        x: signed_half(half.x, corner_positive(corner, 0)),
        y: signed_half(half.y, corner_positive(corner, 1)),
        z: signed_half(half.z, corner_positive(corner, 2)),
    }
}

/// The value one.
pub open spec fn unit_spec() -> Scalar {
    Scalar { bits: 0x3f80_0000 }
}

/// A component of a unit vector along an axis; the other components of a negated
/// axis are negative zeros.
pub open spec fn axis_component(face: int, axis: int) -> Scalar {
    let v = if face / 2 == axis {
        unit_spec()
    } else {
        Scalar::zero_spec()
    };
    if face % 2 == 0 {
        v
    } else {
        v.neg_spec()
    }
}

/// The normal of a face of a box.
pub open spec fn face_normal_spec(face: int) -> Vec3 {
    Vec3 {
        x: axis_component(face, 0),
        y: axis_component(face, 1),
        z: axis_component(face, 2),
    }
}

/// The number of corner `i` of a face of a box.
pub fn box_face_corner(face: usize, i: usize) -> (c: u32)
    requires
        face < 6,
        i < 4,
    ensures
        c == box_corner(face as int, i as int),
        c < 8,
{
    let ring: [u32; 4] = if face == 0 {
        [1, 3, 7, 5]
    } else if face == 1 {
        [0, 4, 6, 2]
    } else if face == 2 {
        [2, 6, 7, 3]
    } else if face == 3 {
        [0, 1, 5, 4]
    } else if face == 4 {
        [4, 5, 7, 6]
    } else {
        [0, 2, 3, 1]
    };
    ring[i]
}

/// The sides of corner `i` of a face of a box, one for each axis.
pub fn box_sign(face: usize, i: usize) -> (r: (i8, i8, i8))
    requires
        face < 6,
        i < 4,
    ensures
        r.0 == side(box_corner(face as int, i as int), 0),
        r.1 == side(box_corner(face as int, i as int), 1),
        r.2 == side(box_corner(face as int, i as int), 2),
{
    let c: u32 = box_face_corner(face, i);
    (
        if c % 2 == 1 {
            1
        } else {
            -1
        },
        if (c / 2) % 2 == 1 {
            1
        } else {
            -1
        },
        if c / 4 == 1 {
            1
        } else {
            -1
        },
    )
}

/// The normal of a face of a box with the given axes: the axis of the face,
/// negated on the negative side.
pub fn face_normal_of(axes: &[Vec3; 3], face: usize) -> (n: Vec3)
    requires
        face < 6,
    ensures
        n == if face % 2 == 0 {
            axes@[face as int / 2]
        } else {
            axes@[face as int / 2].neg_spec()
        },
{
    let v: Vec3 = axes[face / 2];
    if face % 2 == 0 {
        v
    } else {
        v.neg()
    }
}

fn signed(half: Scalar, positive: bool) -> (r: Scalar)
    ensures
        r == signed_half(half, positive),
{
    if positive {
        half
    } else {
        half.neg()
    }
}

/// A corner of the box with the given half extents.
pub fn box_corner_point(half: Vec3, corner: u32) -> (p: Vec3)
    requires
        corner < 8,
    ensures
        p == corner_point(half, corner as int),
{
    Vec3 {
        x: signed(half.x, corner % 2 == 1),
        y: signed(half.y, (corner / 2) % 2 == 1),
        z: signed(half.z, corner / 4 == 1),
    }
}

/// A convex polytope. The vertices of face `f` are those from `face_start[f]` up
/// to `face_start[f + 1]`, round the face as seen from outside.
pub struct ConvexPolytope {
    pub verts: Vec<Vec3>,
    pub face_normal: Vec<Vec3>,
    pub face_start: Vec<u32>,
    /// The directions of the edges, each once.
    pub edge_dirs: Vec<Vec3>,
}

impl ConvexPolytope {
    /// The faces follow each other and use up the vertices.
    pub open spec fn wf(&self) -> bool {
        &&& self.verts@.len() <= u32::MAX
        &&& self.face_start@.len() == self.face_normal@.len() + 1
        &&& self.face_start@[0] == 0
        &&& self.face_start@[self.face_normal@.len() as int] == self.verts@.len()
        &&& forall|f: int|
            0 <= f < self.face_normal@.len() ==> #[trigger] self.face_start@[f]
                <= self.face_start@[f + 1]
    }

    /// No face starts beyond the vertices.
    proof fn lemma_starts(&self, f: int)
        requires
            self.wf(),
            0 <= f <= self.face_normal@.len(),
        ensures
            self.face_start@[f] <= self.verts@.len(),
        decreases self.face_normal@.len() - f,
    {
        if f < self.face_normal@.len() {
            self.lemma_starts(f + 1);
            assert(self.face_start@[f] <= self.face_start@[f + 1]);
        }
    }

    /// The box with the given half extents; its edge directions are `dirs`.
    pub fn box_polytope(half: Vec3, dirs: Vec<Vec3>) -> (p: ConvexPolytope)
        ensures
            p.wf(),
            p.edge_dirs@ == dirs@,
            p.face_normal@ == Seq::new(6, |f: int| face_normal_spec(f)),
            p.face_start@ == Seq::new(7, |f: int| (4 * f) as u32),
            p.verts@ == Seq::new(24, |v: int| corner_point(half, box_corner(v / 4, v % 4))),
    {
        let one = Scalar { bits: 0x3f80_0000 };
        let zero = Scalar::zero();
        let axes: [Vec3; 3] = [
            Vec3 { x: one, y: zero, z: zero },
            Vec3 { x: zero, y: one, z: zero },
            Vec3 { x: zero, y: zero, z: one },
        ];
        let mut verts: Vec<Vec3> = Vec::new();
        let mut normals: Vec<Vec3> = Vec::new();
        let mut starts: Vec<u32> = Vec::new();
        let mut f: usize = 0;
        while f < 6
            invariant
                f <= 6,
                axes@[0] == (Vec3 { x: unit_spec(), y: Scalar::zero_spec(), z: Scalar::zero_spec() }),
                axes@[1] == (Vec3 { x: Scalar::zero_spec(), y: unit_spec(), z: Scalar::zero_spec() }),
                axes@[2] == (Vec3 { x: Scalar::zero_spec(), y: Scalar::zero_spec(), z: unit_spec() }),
                normals@.len() == f,
                starts@.len() == f,
                verts@.len() == 4 * f,
                forall|g: int| 0 <= g < f ==> normals@[g] == face_normal_spec(g),
                forall|g: int| 0 <= g < f ==> starts@[g] == 4 * g,
                forall|v: int|
                    0 <= v < 4 * f ==> verts@[v] == corner_point(half, box_corner(v / 4, v % 4)),
            decreases 6 - f,
        {
            starts.push(4 * f as u32);
            normals.push(face_normal_of(&axes, f));
            let mut i: usize = 0;
            while i < 4
                invariant
                    i <= 4,
                    f < 6,
                    verts@.len() == 4 * f + i,
                    forall|v: int|
                        0 <= v < 4 * f + i ==> verts@[v] == corner_point(
                            half,
                            box_corner(v / 4, v % 4),
                        ),
                decreases 4 - i,
            {
                assert((4 * f + i) as int / 4 == f && (4 * f + i) as int % 4 == i);
                verts.push(box_corner_point(half, box_face_corner(f, i)));
                i += 1;
            }
            f += 1;
        }
        starts.push(24);
        assert(normals@ =~= Seq::new(6, |f: int| face_normal_spec(f)));
        assert(starts@ =~= Seq::new(7, |f: int| (4 * f) as u32));
        assert(verts@ =~= Seq::new(24, |v: int| corner_point(half, box_corner(v / 4, v % 4))));
        ConvexPolytope { verts, face_normal: normals, face_start: starts, edge_dirs: dirs }
    }

    /// The first vertex of a face and the one behind its last.
    pub fn face_range(&self, f: usize) -> (r: (usize, usize))
        requires
            self.wf(),
            f < self.face_normal@.len(),
        ensures
            r.0 == self.face_start@[f as int],
            r.1 == self.face_start@[f + 1],
            r.0 <= r.1 <= self.verts@.len(),
    {
        proof {
            self.lemma_starts(f + 1);
            assert(self.face_start@[f as int] <= self.face_start@[f + 1]);
        }
        let faces: usize = self.face_normal.len();
        assert(f < faces);
        (self.face_start[f] as usize, self.face_start[f + 1] as usize)
    }

    /// How many vertices a face has.
    pub fn face_vert_count(&self, f: usize) -> (n: usize)
        requires
            self.wf(),
            f < self.face_normal@.len(),
        ensures
            n == self.face_start@[f + 1] - self.face_start@[f as int],
    {
        let (s, e) = self.face_range(f);
        e - s
    }
}

/// How many corners the polygon has that stands for a circle: as many as asked,
/// but at least eight.
pub open spec fn ring_size_spec(segments: u32) -> u32 {
    if segments < 8 {
        8
    } else {
        segments
    }
}

/// How many corners the polygon has that stands for a circle.
pub fn ring_size(segments: u32) -> (n: u32)
    ensures
        n == ring_size_spec(segments),
{
    if segments < 8 {
        8
    } else {
        segments
    }
}

/// The vertices of a prism over rings of `n` corners: the lower ring, the upper
/// ring backwards from its first corner, and four for each side face.
pub open spec fn prism_vertex(bottom: Seq<Vec3>, top: Seq<Vec3>, v: int) -> Vec3 {
    let n = bottom.len() as int;
    if v < n {
        bottom[v]
    } else if v < 2 * n {
        if v == n {
            top[0]
        } else {
            top[2 * n - v]
        }
    } else {
        let i = (v - 2 * n) / 4;
        let j = if i + 1 == n {
            0
        } else {
            i + 1
        };
        let k = (v - 2 * n) % 4;
        if k == 0 {
            bottom[i]
        } else if k == 1 {
            top[i]
        } else if k == 2 {
            top[j]
        } else {
            bottom[j]
        }
    }
}

/// Where the faces of a prism start.
pub open spec fn prism_start(n: int, f: int) -> int {
    if f == 0 {
        0
    } else if f == 1 {
        n
    } else {
        2 * n + 4 * (f - 2)
    }
}

impl ConvexPolytope {
    /// The prism over two rings; the normals are those of the lower face, the
    /// upper face and the sides.
    pub fn cylinder_polytope(
        bottom: &Vec<Vec3>,
        top: &Vec<Vec3>,
        normals: Vec<Vec3>,
        dirs: Vec<Vec3>,
    ) -> (p: ConvexPolytope)
        requires
            bottom@.len() == top@.len(),
            bottom@.len() > 0,
            6 * bottom@.len() <= u32::MAX,
            normals@.len() == bottom@.len() + 2,
        ensures
            p.wf(),
            p.edge_dirs@ == dirs@,
            p.face_normal@ == normals@,
            p.face_start@ == Seq::new(
                (bottom@.len() + 3) as nat,
                |f: int| prism_start(bottom@.len() as int, f) as u32,
            ),
            p.verts@ == Seq::new(
                (6 * bottom@.len()) as nat,
                |v: int| prism_vertex(bottom@, top@, v),
            ),
    {
        let n: usize = bottom.len();
        let mut verts: Vec<Vec3> = Vec::new();
        let mut starts: Vec<u32> = Vec::new();
        starts.push(0);
        let mut k: usize = 0;
        while k < n
            invariant
                n == bottom@.len(),
                k <= n,
                verts@.len() == k,
                forall|v: int| 0 <= v < k ==> verts@[v] == prism_vertex(bottom@, top@, v),
            decreases n - k,
        {
            verts.push(bottom[k]);
            k += 1;
        }
        starts.push(n as u32);
        let mut k: usize = 0;
        while k < n
            invariant
                n == bottom@.len(),
                n == top@.len(),
                6 * n <= u32::MAX,
                k <= n,
                verts@.len() == n + k,
                forall|v: int| 0 <= v < n + k ==> verts@[v] == prism_vertex(bottom@, top@, v),
            decreases n - k,
        {
            let i: usize = if k == 0 {
                0
            } else {
                n - k
            };
            verts.push(top[i]);
            k += 1;
        }
        let mut i: usize = 0;
        while i < n
            invariant
                n == bottom@.len(),
                n == top@.len(),
                6 * n <= u32::MAX,
                i <= n,
                starts@.len() == i + 2,
                forall|f: int| 0 <= f < i + 2 ==> starts@[f] == prism_start(n as int, f),
                verts@.len() == 2 * n + 4 * i,
                forall|v: int|
                    0 <= v < 2 * n + 4 * i ==> verts@[v] == prism_vertex(bottom@, top@, v),
            decreases n - i,
        {
            let j: usize = if i + 1 == n {
                0
            } else {
                i + 1
            };
            starts.push((2 * n + 4 * i) as u32);
            verts.push(bottom[i]);
            verts.push(top[i]);
            verts.push(top[j]);
            verts.push(bottom[j]);
            i += 1;
        }
        starts.push((6 * n) as u32);
        proof {
            assert(starts@ =~= Seq::new(
                (n + 3) as nat,
                |f: int| prism_start(n as int, f) as u32,
            ));
            assert(verts@ =~= Seq::new((6 * n) as nat, |v: int| prism_vertex(bottom@, top@, v)));
        }
        ConvexPolytope { verts, face_normal: normals, face_start: starts, edge_dirs: dirs }
    }
}

/// The edge that starts at vertex `v` of the face from `s` up to `e`: it leads to
/// the next vertex of the face, or back to its first.
pub open spec fn edge_end(s: int, e: int, v: int) -> int {
    if v + 1 == e {
        s
    } else {
        v + 1
    }
}

/// The edges of the faces below `f`, face by face.
pub open spec fn edges_below(starts: Seq<u32>, f: int) -> Seq<(int, int)>
    decreases f,
{
    if f <= 0 {
        Seq::empty()
    } else {
        let s = starts[f - 1] as int;
        let e = starts[f] as int;
        edges_below(starts, f - 1) + Seq::new(
            (e - s) as nat,
            |i: int| (s + i, edge_end(s, e, s + i)),
        )
    }
}

impl ConvexPolytope {
    /// The edges of all faces as pairs of vertex numbers, face by face.
    pub fn edges(&self) -> (r: Vec<(usize, usize)>)
        requires
            self.wf(),
        ensures
            r@.map_values(|e: (usize, usize)| (e.0 as int, e.1 as int)) == edges_below(
                self.face_start@,
                self.face_normal@.len() as int,
            ),
            forall|k: int|
                0 <= k < r@.len() ==> (#[trigger] r@[k]).0 < self.verts@.len() && r@[k].1
                    < self.verts@.len(),
    {
        let ghost wide = |e: (usize, usize)| (e.0 as int, e.1 as int);
        let mut r: Vec<(usize, usize)> = Vec::new();
        let mut f: usize = 0;
        assert(r@.map_values(wide) =~= Seq::<(int, int)>::empty());
        while f < self.face_normal.len()
            invariant
                self.wf(),
                f <= self.face_normal@.len(),
                wide == (|e: (usize, usize)| (e.0 as int, e.1 as int)),
                r@.map_values(wide) == edges_below(self.face_start@, f as int),
                forall|k: int|
                    0 <= k < r@.len() ==> (#[trigger] r@[k]).0 < self.verts@.len() && r@[k].1
                        < self.verts@.len(),
            decreases self.face_normal@.len() - f,
        {
            let (s, e) = self.face_range(f);
            let ghost before = r@.map_values(wide);
            let mut v: usize = s;
            while v < e
                invariant
                    s <= v <= e <= self.verts@.len(),
                    wide == (|e: (usize, usize)| (e.0 as int, e.1 as int)),
                    r@.map_values(wide) == before + Seq::new(
                        (v - s) as nat,
                        |i: int| (s + i, edge_end(s as int, e as int, s + i)),
                    ),
                    forall|k: int|
                        0 <= k < r@.len() ==> (#[trigger] r@[k]).0 < self.verts@.len() && r@[k].1
                            < self.verts@.len(),
                decreases e - v,
            {
                let w: usize = if v + 1 == e {
                    s
                } else {
                    v + 1
                };
                let ghost old_r = r@;
                r.push((v, w));
                proof {
                    assert(r@.map_values(wide) =~= old_r.map_values(wide).push(
                        (v as int, w as int),
                    ));
                    assert(r@.map_values(wide) =~= before + Seq::new(
                        (v + 1 - s) as nat,
                        |i: int| (s + i, edge_end(s as int, e as int, s + i)),
                    ));
                }
                v += 1;
            }
            f += 1;
        }
        r
    }
}

/// The triangles of the fans of the faces below `f`: the first vertex of a face
/// with each two neighbours among the others.
pub open spec fn fans_below(starts: Seq<u32>, f: int) -> Seq<(int, int, int)>
    decreases f,
{
    if f <= 0 {
        Seq::empty()
    } else {
        let s = starts[f - 1] as int;
        let e = starts[f] as int;
        fans_below(starts, f - 1) + Seq::new(
            (if e - s >= 3 {
                e - s - 2
            } else {
                0
            }) as nat,
            |i: int| (s, s + 1 + i, s + 2 + i),
        )
    }
}

impl ConvexPolytope {
    /// The faces as triangles, by vertex numbers: for each face the fan from its
    /// first vertex.
    pub fn fan_triangles(&self) -> (r: Vec<(usize, usize, usize)>)
        requires
            self.wf(),
        ensures
            r@.map_values(|t: (usize, usize, usize)| (t.0 as int, t.1 as int, t.2 as int))
                == fans_below(self.face_start@, self.face_normal@.len() as int),
    {
        let ghost wide = |t: (usize, usize, usize)| (t.0 as int, t.1 as int, t.2 as int);
        let mut r: Vec<(usize, usize, usize)> = Vec::new();
        let mut f: usize = 0;
        assert(r@.map_values(wide) =~= Seq::<(int, int, int)>::empty());
        while f < self.face_normal.len()
            invariant
                self.wf(),
                f <= self.face_normal@.len(),
                wide == (|t: (usize, usize, usize)| (t.0 as int, t.1 as int, t.2 as int)),
                r@.map_values(wide) == fans_below(self.face_start@, f as int),
            decreases self.face_normal@.len() - f,
        {
            let (s, e) = self.face_range(f);
            let ghost before = r@.map_values(wide);
            if e - s >= 3 {
                let mut k: usize = s + 1;
                assert(r@.map_values(wide) =~= before + Seq::new(
                    0,
                    |i: int| (s as int, s + 1 + i, s + 2 + i),
                ));
                while k < e - 1
                    invariant
                        s + 1 <= k <= e - 1,
                        e <= self.verts@.len(),
                        self.verts@.len() <= u32::MAX,
                        wide == (|t: (usize, usize, usize)| (t.0 as int, t.1 as int, t.2 as int)),
                        r@.map_values(wide) == before + Seq::new(
                            (k - s - 1) as nat,
                            |i: int| (s as int, s + 1 + i, s + 2 + i),
                        ),
                    decreases e - 1 - k,
                {
                    let ghost old_r = r@;
                    r.push((s, k, k + 1));
                    proof {
                        assert(r@.map_values(wide) =~= old_r.map_values(wide).push(
                            (s as int, k as int, k + 1),
                        ));
                        assert(r@.map_values(wide) =~= before + Seq::new(
                            (k - s) as nat,
                            |i: int| (s as int, s + 1 + i, s + 2 + i),
                        ));
                    }
                    k += 1;
                }
            } else {
                assert(r@.map_values(wide) =~= before + Seq::new(
                    0,
                    |i: int| (s as int, s + 1 + i, s + 2 + i),
                ));
            }
            f += 1;
        }
        r
    }
}

/// The faces that a point does not lie outside of.
pub open spec fn not_outside(dists: Seq<Scalar>) -> spec_fn(int) -> bool {
    |f: int| !Scalar::zero_spec().lt_spec(dists[f])
}

/// How a point lies to the faces of a polytope: whether it is outside of none,
/// and the face it is nearest to from within, the first of the nearest.
pub open spec fn lies(dists: Seq<Scalar>, inside: bool, face: Option<int>) -> bool {
    let floor = Scalar { bits: 0xff7f_ffffu32 };
    &&& inside == (forall|f: int|
        0 <= f < dists.len() ==> !Scalar::zero_spec().lt_spec(#[trigger] dists[f]))
    &&& match face {
        Some(k) => {
            &&& 0 <= k < dists.len()
            &&& not_outside(dists)(k)
            &&& floor.lt_spec(dists[k])
            &&& forall|f: int|
                0 <= f < dists.len() && not_outside(dists)(f) ==> !dists[k].lt_spec(
                    #[trigger] dists[f],
                )
            &&& forall|f: int|
                0 <= f < k && not_outside(dists)(f) ==> !dists[k].le_spec(#[trigger] dists[f])
        },
        None => forall|f: int|
            0 <= f < dists.len() && not_outside(dists)(f) ==> !floor.lt_spec(#[trigger] dists[f]),
    }
}

/// Judges how a point lies to the faces of a polytope, given its distances from
/// their planes.
pub fn plane_scan(dists: &[Scalar]) -> (r: (bool, Option<usize>))
    ensures
        lies(
            dists@,
            r.0,
            match r.1 {
                Some(k) => Some(k as int),
                None => None,
            },
        ),
{
    let floor = Scalar { bits: 0xff7f_ffff };
    let mut inside: bool = true;
    let mut best: Scalar = floor;
    let mut face: Option<usize> = None;
    let mut f: usize = 0;
    while f < dists.len()
        invariant
            f <= dists@.len(),
            floor == (Scalar { bits: 0xff7f_ffffu32 }),
            inside == (forall|g: int|
                0 <= g < f ==> !Scalar::zero_spec().lt_spec(#[trigger] dists@[g])),
            match face {
                Some(k) => {
                    &&& k < f
                    &&& not_outside(dists@)(k as int)
                    &&& best == dists@[k as int]
                    &&& floor.lt_spec(best)
                    &&& forall|g: int|
                        0 <= g < f && not_outside(dists@)(g) ==> !best.lt_spec(#[trigger] dists@[g])
                    &&& forall|g: int|
                        0 <= g < k && not_outside(dists@)(g) ==> !best.le_spec(#[trigger] dists@[g])
                },
                None => {
                    &&& best == floor
                    &&& forall|g: int|
                        0 <= g < f && not_outside(dists@)(g) ==> !floor.lt_spec(
                            #[trigger] dists@[g],
                        )
                },
            },
        decreases dists@.len() - f,
    {
        let d: Scalar = dists[f];
        if Scalar::zero().lt(d) {
            inside = false;
            assert(Scalar::zero_spec().lt_spec(dists@[f as int]));
        } else if best.lt(d) {
            best = d;
            face = Some(f);
        }
        f += 1;
    }
    (inside, face)
}

/// A polytope in the world.
pub struct WorldPoly {
    pub verts: Vec<Vec3>,
    pub face_normal: Vec<Vec3>,
    pub face_start: Vec<u32>,
    pub edge_dirs: Vec<Vec3>,
}

/// Every vector of the second list comes from its counterpart by `f`.
pub open spec fn mapped<F: Fn(Vec3) -> Vec3>(f: F, from: Seq<Vec3>, to: Seq<Vec3>) -> bool {
    &&& to.len() == from.len()
    &&& forall|i: int| 0 <= i < to.len() ==> f.ensures((from[i],), #[trigger] to[i])
}

fn map_all<F: Fn(Vec3) -> Vec3>(f: &F, from: &Vec<Vec3>) -> (to: Vec<Vec3>)
    requires
        forall|v: Vec3| #[trigger] f.requires((v,)),
    ensures
        mapped(*f, from@, to@),
{
    let mut to: Vec<Vec3> = Vec::new();
    let mut i: usize = 0;
    while i < from.len()
        invariant
            i <= from@.len(),
            to@.len() == i,
            forall|v: Vec3| #[trigger] f.requires((v,)),
            forall|j: int| 0 <= j < i ==> f.ensures((from@[j],), #[trigger] to@[j]),
        decreases from@.len() - i,
    {
        to.push(f(from[i]));
        i += 1;
    }
    to
}

impl WorldPoly {
    /// An empty polytope.
    pub fn new() -> (r: WorldPoly)
        ensures
            r.verts@.len() == 0,
            r.face_normal@.len() == 0,
            r.face_start@.len() == 0,
            r.edge_dirs@.len() == 0,
    {
        WorldPoly {
            verts: Vec::new(),
            face_normal: Vec::new(),
            face_start: Vec::new(),
            edge_dirs: Vec::new(),
        }
    }

    /// Places a polytope in the world: vertices are moved by `place`, directions
    /// turned by `turn`, and the faces stay as they are.
    pub fn fill<P: Fn(Vec3) -> Vec3, T: Fn(Vec3) -> Vec3>(
        &mut self,
        poly: &ConvexPolytope,
        place: P,
        turn: T,
    )
        requires
            forall|v: Vec3| #[trigger] place.requires((v,)),
            forall|v: Vec3| #[trigger] turn.requires((v,)),
        ensures
            mapped(place, poly.verts@, final(self).verts@),
            mapped(turn, poly.face_normal@, final(self).face_normal@),
            mapped(turn, poly.edge_dirs@, final(self).edge_dirs@),
            final(self).face_start@ == poly.face_start@,
    {
        self.verts = map_all(&place, &poly.verts);
        self.face_normal = map_all(&turn, &poly.face_normal);
        self.edge_dirs = map_all(&turn, &poly.edge_dirs);
        let mut starts: Vec<u32> = Vec::new();
        let mut i: usize = 0;
        while i < poly.face_start.len()
            invariant
                i <= poly.face_start@.len(),
                starts@ == poly.face_start@.take(i as int),
            decreases poly.face_start@.len() - i,
        {
            starts.push(poly.face_start[i]);
            i += 1;
            assert(starts@ =~= poly.face_start@.take(i as int));
        }
        assert(starts@ =~= poly.face_start@);
        self.face_start = starts;
    }
}

/// The word turned left by thirteen bits.
pub open spec fn turned13(h: u64) -> u64 {
    (h << 13) | (h >> 51)
}

/// A number that tells rotations apart: the four components, one after the
/// other, each after a turn by thirteen bits.
pub open spec fn rot_fp_spec(rot: Quat) -> u64 {
    let h1 = rot.x.bits as u64;
    let h2 = turned13(h1) ^ (rot.y.bits as u64);
    let h3 = turned13(h2) ^ (rot.z.bits as u64);
    turned13(h3) ^ (rot.w.bits as u64)
}

/// A number that tells rotations apart.
pub fn rot_fp(rot: Quat) -> (h: u64)
    ensures
        h == rot_fp_spec(rot),
{
    let mut h: u64 = rot.x.bits as u64;
    h = ((h << 13) | (h >> 51)) ^ (rot.y.bits as u64);
    h = ((h << 13) | (h >> 51)) ^ (rot.z.bits as u64);
    h = ((h << 13) | (h >> 51)) ^ (rot.w.bits as u64);
    h
}

/// Rotations that differ in one component only are told apart.
pub proof fn fingerprint_tells_components_apart(a: Quat, b: Quat)
    requires
        rot_fp_spec(a) == rot_fp_spec(b),
    ensures
        a.x == b.x && a.y == b.y && a.z == b.z ==> a.w == b.w,
        a.x == b.x && a.y == b.y && a.w == b.w ==> a.z == b.z,
        a.x == b.x && a.z == b.z && a.w == b.w ==> a.y == b.y,
        a.y == b.y && a.z == b.z && a.w == b.w ==> a.x == b.x,
{
    let (ha, hb) = (rot_fp_spec(a), rot_fp_spec(b));
    let (a1, b1) = (a.x.bits as u64, b.x.bits as u64);
    let (a2, b2) = (turned13(a1) ^ (a.y.bits as u64), turned13(b1) ^ (b.y.bits as u64));
    let (a3, b3) = (turned13(a2) ^ (a.z.bits as u64), turned13(b2) ^ (b.z.bits as u64));
    lemma_step_injective(a3, b3, a.w.bits as u64, b.w.bits as u64);
    lemma_step_injective(a2, b2, a.z.bits as u64, b.z.bits as u64);
    lemma_step_injective(a1, b1, a.y.bits as u64, b.y.bits as u64);
}

/// Turning and mixing loses neither side.
proof fn lemma_step_injective(g: u64, h: u64, v: u64, w: u64)
    ensures
        turned13(g) ^ v == turned13(h) ^ w && g == h ==> v == w,
        turned13(g) ^ v == turned13(h) ^ w && v == w ==> g == h,
{
    assert(((g << 13) | (g >> 51)) ^ v == ((h << 13) | (h >> 51)) ^ w && g == h ==> v == w)
        by (bit_vector);
    assert(((g << 13) | (g >> 51)) ^ v == ((h << 13) | (h >> 51)) ^ w && v == w ==> g == h)
        by (bit_vector);
}

/// The low 64 bits.
pub open spec fn low_word(v: int) -> u64 {
    (v % 0x1_0000_0000_0000_0000) as u64
}

/// One value mixed into a key.
pub open spec fn mixed(h: u64, v: Scalar) -> u64 {
    low_word((h ^ low_word(v.bits * 0x9e37_79b9_7f4a_7c15)) * 0x100_0000_01b3)
}

/// The number of corners of the polygon that stands for a circle, as a value
/// (sixteen).
pub open spec fn segments_value() -> Scalar {
    Scalar { bits: 0x4180_0000 }
}

/// The key of three values under a tag.
pub open spec fn mixed_key(tag: u64, a: Scalar, b: Scalar, c: Scalar) -> u64 {
    mixed(mixed(mixed(0xcbf2_9ce4_8422_2325u64 ^ tag, a), b), c)
}

/// The key under which the polytope of a shape is kept; zero for shapes without
/// one.
pub open spec fn poly_key_spec(shape: Shape) -> u64 {
    match shape {
        Shape::Box { half } => mixed_key(1, half.x, half.y, half.z),
        Shape::Cylinder { half_height, radius } => mixed_key(
            2,
            half_height,
            radius,
            segments_value(),
        ),
        Shape::Cone { half_height, radius } => mixed_key(3, half_height, radius, segments_value()),
        _ => 0,
    }
}

fn mix(h: u64, v: Scalar) -> (r: u64)
    ensures
        r == mixed(h, v),
{
    (h ^ (v.bits as u64).wrapping_mul(0x9e37_79b9_7f4a_7c15)).wrapping_mul(0x100_0000_01b3)
}

fn mix_key(tag: u64, a: Scalar, b: Scalar, c: Scalar) -> (r: u64)
    ensures
        r == mixed_key(tag, a, b, c),
{
    mix(mix(mix(0xcbf2_9ce4_8422_2325u64 ^ tag, a), b), c)
}

/// The key under which the polytope of a shape is kept.
pub fn poly_key(shape: &Shape) -> (k: u64)
    ensures
        k == poly_key_spec(*shape),
{
    let segments = Scalar { bits: 0x4180_0000 };
    match *shape {
        Shape::Box { half } => mix_key(1, half.x, half.y, half.z),
        Shape::Cylinder { half_height, radius } => mix_key(2, half_height, radius, segments),
        Shape::Cone { half_height, radius } => mix_key(3, half_height, radius, segments),
        _ => 0,
    }
}

/// The polytopes of the shapes seen so far.
pub struct PolyCache {
    pub polys: Vec<ConvexPolytope>,
    pub index: HashMap<u64, usize>,
}

impl PolyCache {
    /// Every key leads to a polytope.
    pub open spec fn wf(&self) -> bool {
        forall|k: u64| #[trigger] self.index@.contains_key(k) ==> self.index@[k] < self.polys@.len()
    }

    /// No polytopes.
    pub fn new() -> (r: PolyCache)
        ensures
            r.wf(),
            r.polys@.len() == 0,
            r.index@ == Map::<u64, usize>::empty(),
    {
        PolyCache { polys: Vec::new(), index: HashMap::new() }
    }

    /// The number of the polytope of a shape. A shape without a key has none; a
    /// known key gives the polytope kept under it; otherwise `make` builds one.
    pub fn poly_for<F: Fn(Shape) -> ConvexPolytope>(&mut self, shape: &Shape, make: F) -> (r: Option<
        usize,
    >)
        requires
            old(self).wf(),
            forall|s: Shape| #[trigger] make.requires((s,)),
        ensures
            final(self).wf(),
            r is Some <==> poly_key_spec(*shape) != 0,
            poly_key_spec(*shape) == 0 ==> *final(self) == *old(self),
            r matches Some(i) ==> {
                &&& final(self).index@ == old(self).index@.insert(poly_key_spec(*shape), i)
                &&& if old(self).index@.contains_key(poly_key_spec(*shape)) {
                    i == old(self).index@[poly_key_spec(*shape)] && final(self).polys@ == old(
                        self).polys@
                } else {
                    &&& i == old(self).polys@.len()
                    &&& final(self).polys@.len() == i + 1
                    &&& final(self).polys@.drop_last() == old(self).polys@
                    &&& make.ensures((*shape,), final(self).polys@.last())
                }
            },
    {
        broadcast use vstd::std_specs::hash::group_hash_axioms;

        let key: u64 = poly_key(shape);
        if key == 0 {
            return None;
        }
        match self.index.get(&key) {
            Some(i) => {
                let i: usize = *i;
                assert(self.index@ =~= old(self).index@.insert(key, i));
                Some(i)
            },
            None => {
                let i: usize = self.polys.len();
                self.polys.push(make(*shape));
                self.index.insert(key, i);
                assert(self.polys@.drop_last() =~= old(self).polys@);
                Some(i)
            },
        }
    }
}

} // verus!
