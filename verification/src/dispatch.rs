//! Which test a pair of shapes gets, and how many pairs are spread over threads.

use crate::contact::{ContactPoint, ContactPoints, Touch};
use crate::scalar::{Scalar, Vec3};
use crate::shape::Shape;
use crate::store::HullStore;
use vstd::prelude::*;

verus! {

/// The test for a pair of shapes.
#[derive(Clone, Copy, Debug, PartialEq, Eq, Structural)]
pub enum Route {
    /// Each child of the first shape against the second.
    ExpandA(u32),
    /// The first shape against each child of the second.
    ExpandB(u32),
    /// A shape against geometry that another component answers for.
    Provider { id: u32, is_a: bool },
    /// A hull against something else.
    Hull { a_is_hull: bool },
    /// A shape against a height field.
    Terrain { id: u32, is_a: bool },
    SphereSphere,
    /// A sphere against a polytope.
    SpherePoly,
    /// A polytope against a sphere.
    PolySphere,
    BoxBox,
    /// Two polytopes, not both boxes.
    PolyPoly,
    /// The first shape is a capsule.
    CapsuleA,
    /// The second shape is a capsule.
    CapsuleB,
    /// No test.
    Nothing,
}

/// Whether the shape has a polytope.
pub open spec fn is_poly(s: Shape) -> bool {
    s is Box || s is Cylinder || s is Cone
}

/// The test for two shapes. Compounds are taken apart first; then come shapes
/// that another component answers for, hulls, terrain, and last the rest.
pub open spec fn route_spec(sa: Shape, sb: Shape) -> Route {
    if sa is Compound {
        Route::ExpandA(sa->compound)
    } else if sb is Compound {
        Route::ExpandB(sb->compound)
    } else if sa is Provider && sb is Provider {
        Route::Nothing
    } else if sa is Provider {
        Route::Provider { id: sa->Provider_0, is_a: true }
    } else if sb is Provider {
        Route::Provider { id: sb->Provider_0, is_a: false }
    } else if sa is ConvexHull || sb is ConvexHull {
        Route::Hull { a_is_hull: sa is ConvexHull }
    } else if sa is HeightField && sb is HeightField {
        Route::Nothing
    } else if sa is HeightField {
        Route::Terrain { id: sa->HeightField_0, is_a: true }
    } else if sb is HeightField {
        Route::Terrain { id: sb->HeightField_0, is_a: false }
    } else if sa is Sphere && sb is Sphere {
        Route::SphereSphere
    } else if sa is Sphere {
        Route::SpherePoly
    } else if sb is Sphere {
        Route::PolySphere
    } else if sa is Box && sb is Box {
        Route::BoxBox
    } else if is_poly(sa) && is_poly(sb) {
        Route::PolyPoly
    } else if sa is Capsule {
        Route::CapsuleA
    } else {
        Route::CapsuleB
    }
}

fn polytope(s: &Shape) -> (r: bool)
    ensures
        r == is_poly(*s),
{
    match s {
        Shape::Box { .. } | Shape::Cylinder { .. } | Shape::Cone { .. } => true,
        _ => false,
    }
}

/// Picks the test for two shapes.
pub fn route(sa: &Shape, sb: &Shape) -> (r: Route)
    ensures
        r == route_spec(*sa, *sb),
{
    if let Shape::Compound { compound, .. } = *sa {
        return Route::ExpandA(compound);
    }
    if let Shape::Compound { compound, .. } = *sb {
        return Route::ExpandB(compound);
    }
    match (*sa, *sb) {
        (Shape::Provider(_), Shape::Provider(_)) => Route::Nothing,
        (Shape::Provider(id), _) => Route::Provider { id, is_a: true },
        (_, Shape::Provider(id)) => Route::Provider { id, is_a: false },
        (Shape::ConvexHull { .. }, _) => Route::Hull { a_is_hull: true },
        (_, Shape::ConvexHull { .. }) => Route::Hull { a_is_hull: false },
        (Shape::HeightField(_), Shape::HeightField(_)) => Route::Nothing,
        (Shape::HeightField(id), _) => Route::Terrain { id, is_a: true },
        (_, Shape::HeightField(id)) => Route::Terrain { id, is_a: false },
        (Shape::Sphere { .. }, Shape::Sphere { .. }) => Route::SphereSphere,
        (Shape::Sphere { .. }, _) => Route::SpherePoly,
        (_, Shape::Sphere { .. }) => Route::PolySphere,
        (Shape::Box { .. }, Shape::Box { .. }) => Route::BoxBox,
        _ => {
            if polytope(sa) && polytope(sb) {
                Route::PolyPoly
            } else if let Shape::Capsule { .. } = *sa {
                Route::CapsuleA
            } else {
                Route::CapsuleB
            }
        },
    }
}

/// The test seen from the other side.
pub open spec fn mirrored(r: Route) -> Route {
    match r {
        Route::ExpandA(c) => Route::ExpandB(c),
        Route::ExpandB(c) => Route::ExpandA(c),
        Route::Provider { id, is_a } => Route::Provider { id, is_a: !is_a },
        Route::Hull { a_is_hull } => Route::Hull { a_is_hull: !a_is_hull },
        Route::Terrain { id, is_a } => Route::Terrain { id, is_a: !is_a },
        Route::SpherePoly => Route::PolySphere,
        Route::PolySphere => Route::SpherePoly,
        Route::CapsuleA => Route::CapsuleB,
        Route::CapsuleB => Route::CapsuleA,
        other => other,
    }
}

/// Swapping two shapes mirrors their test, unless both are compounds, hulls or
/// capsules: then the first one leads either way.
pub proof fn swapping_mirrors_the_test(sa: Shape, sb: Shape)
    requires
        !(sa is Compound && sb is Compound),
        !(sa is ConvexHull && sb is ConvexHull),
        !(sa is Capsule && sb is Capsule),
    ensures
        route_spec(sb, sa) == mirrored(route_spec(sa, sb)),
{
}

/// Once compounds are taken apart, every pair that has a shape with a surface of
/// its own gets a test; only two pieces of terrain of one kind get none.
pub proof fn every_pair_gets_a_test(sa: Shape, sb: Shape)
    ensures
        route_spec(sa, sb) == Route::Nothing ==> (sa is Provider && sb is Provider) || (
        sa is HeightField && sb is HeightField),
        route_spec(sa, sb) == Route::CapsuleB ==> sb is Capsule,
{
}

/// What a provider is asked about a shape.
#[derive(Clone, Copy, Debug, PartialEq, Eq, Structural)]
pub enum ProviderQuery {
    Box { half: Vec3 },
    Sphere { radius: Scalar },
    /// Each point of the hull.
    HullPoints { hull: u32 },
    /// Spheres along the axis of the capsule.
    CapsuleSpheres { half_height: Scalar, radius: Scalar },
    /// Nothing: the shape is not supported.
    Unsupported,
}

/// What a provider is asked about a shape.
pub fn provider_query(shape: &Shape) -> (r: ProviderQuery)
    ensures
        r == match *shape {
            Shape::Box { half } => ProviderQuery::Box { half },
            Shape::Sphere { radius } => ProviderQuery::Sphere { radius },
            Shape::ConvexHull { hull, half } => ProviderQuery::HullPoints { hull },
            Shape::Capsule { half_height, radius } => ProviderQuery::CapsuleSpheres {
                half_height,
                radius,
            },
            _ => ProviderQuery::Unsupported,
        },
{
    match *shape {
        Shape::Box { half } => ProviderQuery::Box { half },
        Shape::Sphere { radius } => ProviderQuery::Sphere { radius },
        Shape::ConvexHull { hull, .. } => ProviderQuery::HullPoints { hull },
        Shape::Capsule { half_height, radius } => ProviderQuery::CapsuleSpheres {
            half_height,
            radius,
        },
        _ => ProviderQuery::Unsupported,
    }
}

/// How a shape is tested against a height field.
#[derive(Clone, Copy, Debug, PartialEq, Eq, Structural)]
pub enum TerrainQuery {
    Sphere { radius: Scalar },
    /// Each vertex of the polytope.
    PolyVertices,
    /// Each point of the hull.
    HullPoints { hull: u32 },
    /// Spheres along the axis of the capsule.
    CapsuleSpheres { half_height: Scalar, radius: Scalar },
    /// Not at all.
    Unsupported,
}

/// How a shape is tested against a height field.
pub fn terrain_query(shape: &Shape) -> (r: TerrainQuery)
    ensures
        r == match *shape {
            Shape::Sphere { radius } => TerrainQuery::Sphere { radius },
            Shape::Box { half } => TerrainQuery::PolyVertices,
            Shape::Cylinder { half_height, radius } => TerrainQuery::PolyVertices,
            Shape::Cone { half_height, radius } => TerrainQuery::PolyVertices,
            Shape::ConvexHull { hull, half } => TerrainQuery::HullPoints { hull },
            Shape::Capsule { half_height, radius } => TerrainQuery::CapsuleSpheres {
                half_height,
                radius,
            },
            _ => TerrainQuery::Unsupported,
        },
{
    match *shape {
        Shape::Sphere { radius } => TerrainQuery::Sphere { radius },
        Shape::Box { .. } | Shape::Cylinder { .. } | Shape::Cone { .. }
        => TerrainQuery::PolyVertices,
        Shape::ConvexHull { hull, .. } => TerrainQuery::HullPoints { hull },
        Shape::Capsule { half_height, radius } => TerrainQuery::CapsuleSpheres {
            half_height,
            radius,
        },
        _ => TerrainQuery::Unsupported,
    }
}

/// The name of the first contact that a query gives: the points of a hull and the
/// spheres of a capsule are counted from one, since zero names nothing.
pub fn first_feature(query: &TerrainQuery) -> (f: u32)
    ensures
        f == match *query {
            TerrainQuery::HullPoints { hull } => 1u32,
            TerrainQuery::CapsuleSpheres { half_height, radius } => 1u32,
            _ => 0u32,
        },
{
    match *query {
        TerrainQuery::HullPoints { .. } => 1,
        TerrainQuery::CapsuleSpheres { .. } => 1,
        _ => 0,
    }
}

/// The solid that stands for a shape in a distance query.
#[derive(Clone, Copy, Debug, PartialEq, Eq, Structural)]
pub enum SolidKind {
    Hull { hull: u32 },
    Box { half: Vec3 },
    Sphere { radius: Scalar },
    Capsule { half_height: Scalar, radius: Scalar },
    /// A cylinder or cone with a polygon for its circle.
    Prism { half_height: Scalar, radius: Scalar, cone: bool },
}

/// The solid that stands for a shape; `None` for terrain, for compounds and for a
/// hull that is not stored.
pub fn solid_of(shape: &Shape, hulls: &HullStore) -> (r: Option<SolidKind>)
    ensures
        r == match *shape {
            Shape::ConvexHull { hull, half } => if hull < hulls.hulls@.len() {
                Some(SolidKind::Hull { hull })
            } else {
                None
            },
            Shape::Box { half } => Some(SolidKind::Box { half }),
            Shape::Sphere { radius } => Some(SolidKind::Sphere { radius }),
            Shape::Capsule { half_height, radius } => Some(
                SolidKind::Capsule { half_height, radius },
            ),
            Shape::Cylinder { half_height, radius } => Some(
                SolidKind::Prism { half_height, radius, cone: false },
            ),
            Shape::Cone { half_height, radius } => Some(
                SolidKind::Prism { half_height, radius, cone: true },
            ),
            _ => None,
        },
{
    match *shape {
        Shape::ConvexHull { hull, .. } => {
            if (hull as usize) < hulls.len() {
                Some(SolidKind::Hull { hull })
            } else {
                None
            }
        },
        Shape::Box { half } => Some(SolidKind::Box { half }),
        Shape::Sphere { radius } => Some(SolidKind::Sphere { radius }),
        Shape::Capsule { half_height, radius } => Some(SolidKind::Capsule { half_height, radius }),
        Shape::Cylinder { half_height, radius } => Some(
            SolidKind::Prism { half_height, radius, cone: false },
        ),
        Shape::Cone { half_height, radius } => Some(
            SolidKind::Prism { half_height, radius, cone: true },
        ),
        _ => None,
    }
}

/// The surface normal turned to point from the first body to the second: away
/// from the surface if it belongs to the first body, against it otherwise.
pub fn oriented_normal(surface_normal: Vec3, surface_is_a: bool) -> (n: Vec3)
    ensures
        n == if surface_is_a {
            surface_normal
        } else {
            surface_normal.neg_spec()
        },
{
    if surface_is_a {
        surface_normal
    } else {
        surface_normal.neg()
    }
}

/// Fewer pairs than this are tested on one thread; with more, every thread gets
/// about as many at least.
pub const CHUNK_PAIRS: usize = 2048;

/// The quotient, rounded up.
pub open spec fn ceil_div(a: int, b: int) -> int {
    (a + b - 1) / b
}

/// How many chunks the pairs are split into.
pub open spec fn chunk_count(threads: int, pairs: int) -> int {
    if threads <= 1 || pairs < CHUNK_PAIRS {
        1
    } else {
        let most = ceil_div(pairs, CHUNK_PAIRS as int);
        if threads < most {
            threads
        } else {
            most
        }
    }
}

/// How many pairs a chunk has; the last one may have fewer.
pub open spec fn chunk_size(threads: int, pairs: int) -> int {
    ceil_div(pairs, chunk_count(threads, pairs))
}

/// Every chunk starts within the pairs.
pub open spec fn chunks_fit(threads: int, pairs: int) -> bool {
    (chunk_count(threads, pairs) - 1) * chunk_size(threads, pairs) <= pairs
}

/// The smaller number.
pub open spec fn lesser(a: int, b: int) -> int {
    if a < b {
        a
    } else {
        b
    }
}

/// With no more threads than the square root of the number of pairs, every chunk
/// starts within the pairs.
pub proof fn few_threads_fit(threads: int, pairs: int)
    requires
        pairs >= 0,
        threads >= 0,
        (threads - 1) * (threads - 1) <= pairs || threads <= 1,
    ensures
        chunks_fit(threads, pairs),
{
    let n = chunk_count(threads, pairs);
    let c = chunk_size(threads, pairs);
    if threads <= 1 || pairs < CHUNK_PAIRS {
        assert(n == 1);
        assert((n - 1) * c == 0) by (nonlinear_arith)
            requires
                n == 1,
        ;
    } else {
        vstd::arithmetic::div_mod::lemma_fundamental_div_mod(
            pairs + CHUNK_PAIRS - 1,
            CHUNK_PAIRS as int,
        );
        assert(1 <= n <= threads);
        vstd::arithmetic::div_mod::lemma_fundamental_div_mod(pairs + n - 1, n);
        let r = (pairs + n - 1) % n;
        assert(n * c + r == pairs + n - 1);
        assert(0 <= r < n);
        assert((n - 1) * (n - 1) <= (threads - 1) * (threads - 1)) by (nonlinear_arith)
            requires
                1 <= n <= threads,
        ;
        assert((n - 1) * c <= pairs) by (nonlinear_arith)
            requires
                n >= 1,
                c >= 0,
                n * c <= pairs + n - 1,
                (n - 1) * (n - 1) <= pairs,
        ;
    }
}

/// Splits the pairs into chunks, one after the other. The chunks cover the pairs
/// without gap or overlap, so results put together chunk by chunk are in the
/// order of the pairs.
pub fn collide_chunks(threads: usize, pairs: usize) -> (r: Vec<(usize, usize)>)
    requires
        chunks_fit(threads as int, pairs as int),
        2 * pairs + CHUNK_PAIRS <= usize::MAX,
        pairs + threads <= usize::MAX,
    ensures
        r@.len() == chunk_count(threads as int, pairs as int),
        forall|k: int|
            0 <= k < r@.len() ==> (#[trigger] r@[k]).0 == k * chunk_size(
                threads as int,
                pairs as int,
            ) && r@[k].1 == lesser(
                (k + 1) * chunk_size(threads as int, pairs as int),
                pairs as int,
            ),
        r@[0].0 == 0,
        r@[r@.len() - 1].1 == pairs,
        forall|k: int|
            0 <= k < r@.len() - 1 ==> (#[trigger] r@[k]).0 <= r@[k].1 && r@[k].1 == r@[k + 1].0,
        r@[r@.len() - 1].0 <= pairs,
{
    let ghost gt = threads as int;
    let ghost gp = pairs as int;
    let n: usize = if threads <= 1 || pairs < CHUNK_PAIRS {
        1
    } else {
        let most: usize = (pairs + CHUNK_PAIRS - 1) / CHUNK_PAIRS;
        if threads < most {
            threads
        } else {
            most
        }
    };
    assert(n == chunk_count(gt, gp));
    proof {
        if threads > 1 && pairs >= CHUNK_PAIRS {
            assert((pairs + CHUNK_PAIRS - 1) / CHUNK_PAIRS as int >= 1);
        }
        assert(n >= 1);
        if threads > 1 && pairs >= CHUNK_PAIRS {
            assert(n <= threads);
        } else {
            assert(pairs + n - 1 == pairs);
        }
    }
    let c: usize = (pairs + (n - 1)) / n;
    assert(c == chunk_size(gt, gp));
    proof {
        let (gn, gc) = (n as int, c as int);
        vstd::arithmetic::div_mod::lemma_fundamental_div_mod(gp + gn - 1, gn);
        let rem = (gp + gn - 1) % gn;
        assert(gn * gc + rem == gp + gn - 1);
        assert(0 <= rem < gn);
        assert(gn * gc >= gp);
        assert(gn * gc <= gp + gn - 1);
        assert(gc <= gp + 1) by (nonlinear_arith)
            requires
                gn >= 1,
                gc >= 0,
                gn * gc <= gp + gn - 1,
                gp >= 0,
        ;
    }
    let mut r: Vec<(usize, usize)> = Vec::new();
    let mut k: usize = 0;
    while k < n
        invariant
            k <= n,
            n >= 1,
            n * c >= pairs,
            (n - 1) * c <= pairs,
            2 * pairs + CHUNK_PAIRS <= usize::MAX,
            c <= pairs + 1,
            r@.len() == k,
            forall|j: int|
                0 <= j < k ==> (#[trigger] r@[j]).0 == j * c && r@[j].1 == lesser(
                    (j + 1) * c,
                    pairs as int,
                ),
        decreases n - k,
    {
        proof {
            assert(k * c <= (n - 1) * c) by (nonlinear_arith)
                requires
                    k <= n - 1,
                    c >= 0,
            ;
            assert((k + 1) * c == k * c + c) by (nonlinear_arith);
        }
        let start: usize = k * c;
        let stop: usize = start + c;
        let end: usize = if stop < pairs {
            stop
        } else {
            pairs
        };
        r.push((start, end));
        k += 1;
    }
    proof {
        let (gn, gc) = (n as int, c as int);
        assert(0 * gc == 0) by (nonlinear_arith);
        assert(r@[gn - 1].1 == lesser(gn * gc, gp));
        assert forall|j: int| 0 <= j < r@.len() - 1 implies (#[trigger] r@[j]).0 <= r@[j].1 && r@[j].1
            == r@[j + 1].0 by {
            assert((j + 1) * gc <= (gn - 1) * gc) by (nonlinear_arith)
                requires
                    j + 1 <= gn - 1,
                    gc >= 0,
            ;
            assert(j * gc <= (j + 1) * gc) by (nonlinear_arith)
                requires
                    gc >= 0,
            ;
            assert(r@[j + 1].0 == (j + 1) * gc);
        }
        assert(r@[gn - 1].0 == (gn - 1) * gc);
    }
    r
}

/// Counters that describe the clipping of faces.
#[derive(Clone, Copy, Debug, PartialEq, Eq, Structural)]
pub struct ClipProbe {
    pub calls: u64,
    pub iters: u64,
    pub crossings: u64,
    pub candidates: u64,
    pub largest: u64,
}

/// A counter after something was added; it starts again after the largest value.
pub open spec fn added(counter: u64, n: u64) -> u64 {
    ((counter + n) % 0x1_0000_0000_0000_0000) as u64
}

impl ClipProbe {
    /// Nothing counted.
    pub fn new() -> (r: ClipProbe)
        ensures
            r == (ClipProbe { calls: 0, iters: 0, crossings: 0, candidates: 0, largest: 0 }),
    {
        ClipProbe { calls: 0, iters: 0, crossings: 0, candidates: 0, largest: 0 }
    }

    /// The counters after one clip by a side plane.
    pub open spec fn after_plane(self, vertices: u64, crossings: u64) -> ClipProbe {
        ClipProbe {
            iters: added(self.iters, vertices),
            crossings: added(self.crossings, crossings),
            largest: if vertices > self.largest {
                vertices
            } else {
                self.largest
            },
            ..self
        }
    }

    /// Counts one clip by a side plane: the vertices that went in and the
    /// crossings found.
    pub fn count_plane(&mut self, vertices: u64, crossings: u64)
        ensures
            *final(self) == old(self).after_plane(vertices, crossings),
    {
        self.iters = self.iters.wrapping_add(vertices);
        self.crossings = self.crossings.wrapping_add(crossings);
        if vertices > self.largest {
            self.largest = vertices;
        }
    }

    /// The counters after a pair of faces that gave candidates.
    pub open spec fn after_call(self, candidates: u64) -> ClipProbe {
        ClipProbe {
            calls: added(self.calls, 1),
            candidates: added(self.candidates, candidates),
            ..self
        }
    }

    /// Counts one pair of faces that gave candidates.
    pub fn count_call(&mut self, candidates: u64)
        ensures
            *final(self) == old(self).after_call(candidates),
    {
        self.calls = self.calls.wrapping_add(1);
        self.candidates = self.candidates.wrapping_add(candidates);
    }

    /// The counters: calls, vertices, crossings, candidates, largest polygon.
    pub fn probe_stats(&self) -> (r: (u64, u64, u64, u64, u64))
        ensures
            r == (self.calls, self.iters, self.crossings, self.candidates, self.largest),
    {
        (self.calls, self.iters, self.crossings, self.candidates, self.largest)
    }
}

/// How far ahead in time contacts are looked for: not at all unless the time is
/// positive.
pub fn predict_time(dt: Scalar) -> (r: Scalar)
    ensures
        r == if Scalar::zero_spec().lt_spec(dt) {
            dt
        } else {
            Scalar::zero_spec()
        },
{
    if Scalar::zero().lt(dt) {
        dt
    } else {
        Scalar::zero()
    }
}

/// How two spheres lie to each other.
#[derive(Clone, Copy, Debug, PartialEq, Eq, Structural)]
pub enum SphereCase {
    Apart,
    /// The centres coincide: there is no direction between them.
    Coincident,
    Touching,
}

/// How two spheres lie to each other, given the distance of their centres and the
/// sum of their radii and the skin: a gap no wider than the skin still counts as
/// touching. Centres closer than a billionth coincide.
pub fn sphere_case(dist: Scalar, reach: Scalar) -> (r: SphereCase)
    ensures
        r == if dist.lt_spec(Scalar { bits: 0x3089_705f }) {
            SphereCase::Coincident
        } else if reach.lt_spec(dist) {
            SphereCase::Apart
        } else {
            SphereCase::Touching
        },
{
    if dist.lt(Scalar { bits: 0x3089_705f }) {
        SphereCase::Coincident
    } else if reach.lt(dist) {
        SphereCase::Apart
    } else {
        SphereCase::Touching
    }
}

/// Two spheres as they were measured: the distance of their centres, how far they
/// reach together with the skin and without it, the place of the first, and what
/// touching in the direction between the centres gives.
#[derive(Clone, Copy, Debug, PartialEq, Eq, Structural)]
pub struct SphereGap {
    pub dist: Scalar,
    pub reach: Scalar,
    pub radii: Scalar,
    pub centre: Vec3,
    pub normal: Vec3,
    pub point: Vec3,
    pub depth: Scalar,
}

impl SphereGap {
    /// How the spheres lie to each other.
    pub open spec fn case_spec(self) -> SphereCase {
        if self.dist.lt_spec(Scalar { bits: 0x3089_705f }) {
            SphereCase::Coincident
        } else if self.reach.lt_spec(self.dist) {
            SphereCase::Apart
        } else {
            SphereCase::Touching
        }
    }

    /// What two spheres give: nothing if they are apart, else one point without a
    /// name; spheres in one place are pushed apart upwards.
    pub open spec fn touch_spec(self) -> Option<(Vec3, ContactPoint)> {
        match self.case_spec() {
            SphereCase::Apart => None,
            SphereCase::Coincident => Some(
                (
                    Vec3 {
                        x: Scalar::zero_spec(),
                        y: Scalar { bits: 0x3f80_0000 },
                        z: Scalar::zero_spec(),
                    },
                    ContactPoint { point: self.centre, depth: self.radii, feature: 0 },
                ),
            ),
            SphereCase::Touching => Some(
                (
                    self.normal,
                    ContactPoint { point: self.point, depth: self.depth, feature: 0 },
                ),
            ),
        }
    }

    /// The spheres give this.
    pub open spec fn gives(self, touch: Option<Touch>) -> bool {
        match self.touch_spec() {
            None => touch is None,
            Some((n, p)) => touch matches Some(t) && t.normal == n && t.points@ == seq![p]
                && t.points.space_spec() == 0,
        }
    }

    /// What the two spheres give.
    pub fn touch(&self) -> (r: Option<Touch>)
        ensures
            self.gives(r),
    {
        let (normal, p) = match sphere_case(self.dist, self.reach) {
            SphereCase::Apart => {
                return None;
            },
            SphereCase::Coincident => (
                Vec3 { x: Scalar::zero(), y: Scalar { bits: 0x3f80_0000 }, z: Scalar::zero() },
                ContactPoint { point: self.centre, depth: self.radii, feature: 0 },
            ),
            SphereCase::Touching => (
                self.normal,
                ContactPoint { point: self.point, depth: self.depth, feature: 0 },
            ),
        };
        let one: [ContactPoint; 1] = [p];
        let points = ContactPoints::from_slice(one.as_slice());
        assert(points@ =~= seq![p]);
        Some(Touch { normal, points })
    }
}

} // verus!
