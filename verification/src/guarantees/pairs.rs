//! What testing pairs of shapes promises.

use crate::contact::{manifold_of, tagged_manifold, ContactPoint, Manifold, Touch};
use crate::dispatch::{route, route_spec, Route, SphereGap};
use crate::narrow::{
    finds, joined, tagged_all, tested, DefaultNarrowPhase, PairTests, Placed,
};
use crate::scalar::{Scalar, Vec3};
use crate::shape::Shape;
use crate::store::CompoundChild;
use vstd::prelude::*;

verus! {

/// A shape with flat faces that is no stored hull.
pub open spec fn faceted(s: Shape) -> bool {
    s is Box || s is Cylinder || s is Cone
}

/// A shape that no component and no store has to answer for.
pub open spec fn plain(s: Shape) -> bool {
    faceted(s) || s is Sphere || s is Capsule
}

/// What the two shapes must be for a test to be theirs.
pub open spec fn fits(r: Route, a: Shape, b: Shape) -> bool {
    match r {
        Route::ExpandA(c) => a is Compound && a->compound == c,
        Route::ExpandB(c) => !(a is Compound) && b is Compound && b->compound == c,
        Route::Nothing => (a is Provider && b is Provider) || (a is HeightField && b is HeightField),
        Route::Provider { id, is_a: true } => a == Shape::Provider(id) && !(b is Provider)
            && !(b is Compound),
        Route::Provider { id, is_a: false } => b == Shape::Provider(id) && !(a is Provider)
            && !(a is Compound),
        Route::Hull { a_is_hull: true } => a is ConvexHull && (b is ConvexHull || b is HeightField
            || plain(b)),
        Route::Hull { a_is_hull: false } => b is ConvexHull && (a is HeightField || plain(a)),
        Route::Terrain { id, is_a: true } => a == Shape::HeightField(id) && plain(b),
        Route::Terrain { id, is_a: false } => b == Shape::HeightField(id) && plain(a),
        Route::SphereSphere => a is Sphere && b is Sphere,
        Route::SpherePoly => a is Sphere && (faceted(b) || b is Capsule),
        Route::PolySphere => b is Sphere && (faceted(a) || a is Capsule),
        Route::BoxBox => a is Box && b is Box,
        Route::PolyPoly => faceted(a) && faceted(b) && !(a is Box && b is Box),
        Route::CapsuleA => a is Capsule && (faceted(b) || b is Capsule),
        Route::CapsuleB => b is Capsule && faceted(a),
    }
}

/// Every pair of shapes gets the one test that is made for it: no test fits two
/// different pairs of kinds, and none but two pieces of terrain of one kind goes
/// without.
pub proof fn every_pair_gets_its_own_test(sa: &Shape, sb: &Shape, r: Route, s: Route)
    requires
        call_ensures(route, (sa, sb), r),
    ensures
        fits(r, *sa, *sb),
        fits(s, *sa, *sb) ==> s == r,
{
}

/// Two spheres as measured give one point, unless they are farther apart than they
/// reach; in one place they are pushed apart upwards by all of their radii.
pub open spec fn spheres_held(g: SphereGap, ids: (u32, u32), ms: Seq<Manifold>) -> bool {
    let together = g.dist.lt_spec(Scalar { bits: 0x3089_705f });
    &&& !together && g.reach.lt_spec(g.dist) ==> ms.len() == 0
    &&& together || !g.reach.lt_spec(g.dist) ==> {
        &&& ms.len() == 1
        &&& ms[0].a == ids.0
        &&& ms[0].b == ids.1
        &&& ms[0].points@.len() == 1
        &&& ms[0].points@[0].feature == 0
        &&& ms[0].points.space_spec() == 0
        &&& if together {
            &&& ms[0].normal.x.bits == 0
            &&& ms[0].normal.y.bits == 0x3f80_0000
            &&& ms[0].normal.z.bits == 0
            &&& ms[0].points@[0].point == g.centre
            &&& ms[0].points@[0].depth == g.radii
        } else {
            &&& ms[0].normal == g.normal
            &&& ms[0].points@[0].point == g.point
            &&& ms[0].points@[0].depth == g.depth
        }
    }
}

/// The test found points.
pub open spec fn found_points(o: Option<Touch>) -> bool {
    o is Some && o.unwrap().points@.len() > 0
}

/// The manifolds are what the test answered: one, of the two bodies, with its normal and
/// its points, if it found points, and none otherwise.
pub open spec fn answer_held(o: Option<Touch>, ids: (u32, u32), ms: Seq<Manifold>) -> bool {
    &&& !found_points(o) ==> ms.len() == 0
    &&& found_points(o) ==> {
        &&& ms.len() == 1
        &&& ms[0].a == ids.0
        &&& ms[0].b == ids.1
        &&& ms[0].normal == o.unwrap().normal
        &&& ms[0].points == o.unwrap().points
    }
}

/// What two shapes that are no compounds give.
pub open spec fn simple_held<
    Q: Fn(Scalar, Placed, Placed) -> SphereGap,
    L: Fn(Route, (u32, u32), Placed, Placed) -> Option<Touch>,
>(
    skin: Scalar,
    test: PairTests<Q, L>,
    ids: (u32, u32),
    a: Placed,
    b: Placed,
    ms: Seq<Manifold>,
) -> bool {
    let (x, y) = (a.shape, b.shape);
    if (x is Provider && y is Provider) || (x is HeightField && y is HeightField) {
        ms.len() == 0
    } else if x is Sphere && y is Sphere {
        exists|g: SphereGap| #[trigger]
            test.spheres.ensures((skin, a, b), g) && spheres_held(g, ids, ms)
    } else {
        exists|r: Route, o: Option<Touch>|
            fits(r, x, y) && #[trigger] test.shapes.ensures((r, ids, a, b), o) && answer_held(
                o,
                ids,
                ms,
            )
    }
}

proof fn lemma_tested<
    Q: Fn(Scalar, Placed, Placed) -> SphereGap,
    L: Fn(Route, (u32, u32), Placed, Placed) -> Option<Touch>,
>(
    skin: Scalar,
    test: PairTests<Q, L>,
    ids: (u32, u32),
    a: Placed,
    b: Placed,
    ms: Seq<Manifold>,
)
    requires
        tested(skin, test, ids, a, b, ms),
        !(a.shape is Compound),
        !(b.shape is Compound),
    ensures
        simple_held(skin, test, ids, a, b, ms),
{
    let r = route_spec(a.shape, b.shape);
    assert(fits(r, a.shape, b.shape));
    let o = choose|o: Option<Touch>| #[trigger]
        finds(skin, test, r, ids, a, b, o) && ms == match manifold_of(ids, o) {
            Some(m) => seq![m],
            None => Seq::<Manifold>::empty(),
        } && forall|k: int| 0 <= k < ms.len() ==> 1 <= (#[trigger] ms[k]).points@.len() <= 4;
    if r == Route::SphereSphere {
        let g = choose|g: SphereGap| #[trigger] test.spheres.ensures((skin, a, b), g) && g.gives(o);
        assert(spheres_held(g, ids, ms));
    } else if r != Route::Nothing {
        assert(answer_held(o, ids, ms));
        assert(test.shapes.ensures((r, ids, a, b), o));
    }
}

/// Testing a pair of shapes that are no compounds reports exactly what their test
/// answers: a manifold with that normal and those points whenever it found points, and
/// nothing otherwise. Only two pieces of terrain of one kind are not tested.
pub proof fn every_answer_is_reported<
    P: Fn(Placed, CompoundChild) -> Placed,
    Q: Fn(Scalar, Placed, Placed) -> SphereGap,
    L: Fn(Route, (u32, u32), Placed, Placed) -> Option<Touch>,
>(
    np: &DefaultNarrowPhase,
    place: &P,
    test: &PairTests<Q, L>,
    ids: (u32, u32),
    a: Placed,
    b: Placed,
    out: &mut Vec<Manifold>,
)
    requires
        call_ensures(
            DefaultNarrowPhase::process_pair_shaped::<P, Q, L>,
            (np, place, test, ids, a, b, out),
            (),
        ),
        !(a.shape is Compound),
        !(b.shape is Compound),
    ensures
        exists|ms: Seq<Manifold>| #[trigger]
            simple_held(np.skin, *test, ids, a, b, ms) && final(out)@ == old(out)@ + ms,
{
    let ms = choose|ms: Seq<Manifold>| #[trigger]
        np.pair_gives(*place, *test, ids, a, b, ms) && final(out)@ == old(out)@ + ms;
    assert(tested(np.skin, *test, ids, a, b, ms));
    lemma_tested(np.skin, *test, ids, a, b, ms);
}

/// The tests answer alike whichever shape comes first.
pub open spec fn even_tests<
    Q: Fn(Scalar, Placed, Placed) -> SphereGap,
    L: Fn(Route, (u32, u32), Placed, Placed) -> Option<Touch>,
>(skin: Scalar, test: PairTests<Q, L>, ids: (u32, u32), a: Placed, b: Placed) -> bool {
    &&& forall|r: Route, s: Route, o: Option<Touch>, u: Option<Touch>|
        #![trigger test.shapes.ensures((r, ids, a, b), o), test.shapes.ensures((s, (ids.1, ids.0), b, a), u)]
        test.shapes.ensures((r, ids, a, b), o) && test.shapes.ensures((s, (ids.1, ids.0), b, a), u)
            && fits(r, a.shape, b.shape) && fits(s, b.shape, a.shape) ==> found_points(o)
            == found_points(u)
    &&& forall|g: SphereGap, h: SphereGap|
        #![trigger test.spheres.ensures((skin, a, b), g), test.spheres.ensures((skin, b, a), h)]
        test.spheres.ensures((skin, a, b), g) && test.spheres.ensures((skin, b, a), h) ==> g.dist
            == h.dist && g.reach == h.reach
}

/// If the tests answer alike whichever shape comes first, a pair gives a manifold
/// exactly if the swapped pair does.
pub proof fn swapped_pairs_touch_alike<
    P: Fn(Placed, CompoundChild) -> Placed,
    Q: Fn(Scalar, Placed, Placed) -> SphereGap,
    L: Fn(Route, (u32, u32), Placed, Placed) -> Option<Touch>,
>(
    np: &DefaultNarrowPhase,
    place: &P,
    test: &PairTests<Q, L>,
    ids: (u32, u32),
    a: Placed,
    b: Placed,
    out: &mut Vec<Manifold>,
    other: &mut Vec<Manifold>,
)
    requires
        call_ensures(
            DefaultNarrowPhase::process_pair_shaped::<P, Q, L>,
            (np, place, test, ids, a, b, out),
            (),
        ),
        call_ensures(
            DefaultNarrowPhase::process_pair_shaped::<P, Q, L>,
            (np, place, test, (ids.1, ids.0), b, a, other),
            (),
        ),
        !(a.shape is Compound),
        !(b.shape is Compound),
        even_tests(np.skin, *test, ids, a, b),
    ensures
        final(out)@.len() - old(out)@.len() == final(other)@.len() - old(other)@.len(),
{
    let x = choose|ms: Seq<Manifold>| #[trigger]
        np.pair_gives(*place, *test, ids, a, b, ms) && final(out)@ == old(out)@ + ms;
    let y = choose|ms: Seq<Manifold>| #[trigger]
        np.pair_gives(*place, *test, (ids.1, ids.0), b, a, ms) && final(other)@ == old(other)@ + ms;
    assert(tested(np.skin, *test, ids, a, b, x));
    assert(tested(np.skin, *test, (ids.1, ids.0), b, a, y));
    lemma_tested(np.skin, *test, ids, a, b, x);
    lemma_tested(np.skin, *test, (ids.1, ids.0), b, a, y);
}

/// The manifolds of child `ci` of a compound: bodies, normal, places and depths are
/// those that its test gave, the features carry the child's tag, and the feature space
/// is one more than its index.
pub open spec fn child_held(raw: Seq<Manifold>, ms: Seq<Manifold>, ci: int) -> bool {
    &&& ms.len() == raw.len()
    &&& forall|k: int|
        #![trigger ms[k]]
        0 <= k < ms.len() ==> {
            &&& ms[k].a == raw[k].a
            &&& ms[k].b == raw[k].b
            &&& ms[k].normal == raw[k].normal
            &&& ms[k].points@.len() == raw[k].points@.len()
            &&& 0 <= ci < 0xffff ==> ms[k].points.space_spec() == ci + 1
            &&& forall|j: int|
                #![trigger ms[k].points@[j]]
                0 <= j < ms[k].points@.len() ==> {
                    let (p, q) = (raw[k].points@[j], ms[k].points@[j]);
                    &&& q.point == p.point
                    &&& q.depth == p.depth
                    &&& 0 <= ci < 0xffff ==> q.feature == p.feature | (((ci + 1) * 0x1_0000) as u32)
                }
        }
}

/// The children of a stored compound; an unknown one has none.
pub open spec fn kids(np: &DefaultNarrowPhase, id: u32) -> Seq<CompoundChild> {
    if id < np.compounds.items@.len() {
        np.compounds.items@[id as int]@
    } else {
        Seq::empty()
    }
}

/// What child `ci` of the second shape gives with a shape that is no compound.
pub open spec fn child_against<
    P: Fn(Placed, CompoundChild) -> Placed,
    Q: Fn(Scalar, Placed, Placed) -> SphereGap,
    L: Fn(Route, (u32, u32), Placed, Placed) -> Option<Touch>,
>(
    np: &DefaultNarrowPhase,
    place: P,
    test: PairTests<Q, L>,
    ids: (u32, u32),
    a: Placed,
    b: Placed,
    ci: int,
    ms: Seq<Manifold>,
) -> bool {
    exists|p: Placed, raw: Seq<Manifold>|
        #![trigger place.ensures((b, kids(np, b.shape->compound)[ci]), p), child_held(raw, ms, ci)]
        {
            &&& place.ensures((b, kids(np, b.shape->compound)[ci]), p)
            &&& !(p.shape is Compound) ==> simple_held(np.skin, test, ids, a, p, raw)
            &&& child_held(raw, ms, ci)
        }
}

/// What a shape that is no compound gives with the second one: a compound gives what its
/// children give, one after the other.
pub open spec fn single_held<
    P: Fn(Placed, CompoundChild) -> Placed,
    Q: Fn(Scalar, Placed, Placed) -> SphereGap,
    L: Fn(Route, (u32, u32), Placed, Placed) -> Option<Touch>,
>(
    np: &DefaultNarrowPhase,
    place: P,
    test: PairTests<Q, L>,
    ids: (u32, u32),
    a: Placed,
    b: Placed,
    ms: Seq<Manifold>,
) -> bool {
    if b.shape is Compound {
        exists|parts: Seq<Seq<Manifold>>|
            #![trigger parts.flatten()]
            {
                &&& parts.len() == kids(np, b.shape->compound).len()
                &&& forall|ci: int|
                    0 <= ci < parts.len() ==> child_against(
                        np,
                        place,
                        test,
                        ids,
                        a,
                        b,
                        ci,
                        #[trigger] parts[ci],
                    )
                &&& ms == parts.flatten()
            }
    } else {
        simple_held(np.skin, test, ids, a, b, ms)
    }
}

/// What child `ci` of the first shape gives with the second one.
pub open spec fn child_held_against<
    P: Fn(Placed, CompoundChild) -> Placed,
    Q: Fn(Scalar, Placed, Placed) -> SphereGap,
    L: Fn(Route, (u32, u32), Placed, Placed) -> Option<Touch>,
>(
    np: &DefaultNarrowPhase,
    place: P,
    test: PairTests<Q, L>,
    ids: (u32, u32),
    a: Placed,
    b: Placed,
    ci: int,
    ms: Seq<Manifold>,
) -> bool {
    exists|p: Placed, raw: Seq<Manifold>|
        #![trigger place.ensures((a, kids(np, a.shape->compound)[ci]), p), child_held(raw, ms, ci)]
        {
            &&& place.ensures((a, kids(np, a.shape->compound)[ci]), p)
            &&& !(p.shape is Compound) ==> single_held(np, place, test, ids, p, b, raw)
            &&& child_held(raw, ms, ci)
        }
}

/// What a pair of shapes gives.
pub open spec fn pair_held<
    P: Fn(Placed, CompoundChild) -> Placed,
    Q: Fn(Scalar, Placed, Placed) -> SphereGap,
    L: Fn(Route, (u32, u32), Placed, Placed) -> Option<Touch>,
>(
    np: &DefaultNarrowPhase,
    place: P,
    test: PairTests<Q, L>,
    ids: (u32, u32),
    a: Placed,
    b: Placed,
    ms: Seq<Manifold>,
) -> bool {
    if a.shape is Compound {
        exists|parts: Seq<Seq<Manifold>>|
            #![trigger parts.flatten()]
            {
                &&& parts.len() == kids(np, a.shape->compound).len()
                &&& forall|ci: int|
                    0 <= ci < parts.len() ==> child_held_against(
                        np,
                        place,
                        test,
                        ids,
                        a,
                        b,
                        ci,
                        #[trigger] parts[ci],
                    )
                &&& ms == parts.flatten()
            }
    } else {
        single_held(np, place, test, ids, a, b, ms)
    }
}

proof fn lemma_flat(parts: Seq<Seq<Manifold>>)
    ensures
        joined(parts) == parts.flatten(),
    decreases parts.len(),
{
    parts.lemma_flatten_and_flatten_alt_are_equivalent();
    if parts.len() > 0 {
        lemma_flat(parts.drop_last());
        parts.drop_last().lemma_flatten_and_flatten_alt_are_equivalent();
    }
}

proof fn lemma_child(raw: Seq<Manifold>, ms: Seq<Manifold>, ci: int)
    requires
        tagged_all(raw, ms, ci),
    ensures
        child_held(raw, ms, ci),
{
    assert forall|k: int|
        #![trigger ms[k]]
        0 <= k < ms.len() implies {
        &&& ms[k].a == raw[k].a
        &&& ms[k].b == raw[k].b
        &&& ms[k].normal == raw[k].normal
        &&& ms[k].points@.len() == raw[k].points@.len()
        &&& 0 <= ci < 0xffff ==> ms[k].points.space_spec() == ci + 1
        &&& forall|j: int|
            #![trigger ms[k].points@[j]]
            0 <= j < ms[k].points@.len() ==> {
                let (p, q) = (raw[k].points@[j], ms[k].points@[j]);
                &&& q.point == p.point
                &&& q.depth == p.depth
                &&& 0 <= ci < 0xffff ==> q.feature == p.feature | (((ci + 1) * 0x1_0000) as u32)
            }
    } by {
        assert(tagged_manifold(raw[k], ms[k], ci));
    }
}

proof fn lemma_single<
    P: Fn(Placed, CompoundChild) -> Placed,
    Q: Fn(Scalar, Placed, Placed) -> SphereGap,
    L: Fn(Route, (u32, u32), Placed, Placed) -> Option<Touch>,
>(
    np: &DefaultNarrowPhase,
    place: P,
    test: PairTests<Q, L>,
    ids: (u32, u32),
    a: Placed,
    b: Placed,
    ms: Seq<Manifold>,
)
    requires
        np.second_side(place, test, ids, a, b, ms),
        !(a.shape is Compound),
    ensures
        single_held(np, place, test, ids, a, b, ms),
{
    if b.shape is Compound {
        let id = b.shape->compound;
        let parts = choose|parts: Seq<Seq<Manifold>>|
            #![trigger joined(parts)]
            {
                &&& parts.len() == np.children(id).len()
                &&& forall|ci: int|
                    0 <= ci < parts.len() ==> np.second_child(
                        place,
                        test,
                        ids,
                        a,
                        b,
                        id,
                        ci,
                        #[trigger] parts[ci],
                    )
                &&& ms == joined(parts)
            };
        lemma_flat(parts);
        assert(np.children(id) == kids(np, id));
        assert forall|ci: int| 0 <= ci < parts.len() implies child_against(
            np,
            place,
            test,
            ids,
            a,
            b,
            ci,
            #[trigger] parts[ci],
        ) by {
            assert(np.second_child(place, test, ids, a, b, id, ci, parts[ci]));
            let (p, raw) = choose|p: Placed, raw: Seq<Manifold>| #[trigger]
                place.ensures((b, np.children(id)[ci]), p) && #[trigger] tested(
                    np.skin,
                    test,
                    ids,
                    a,
                    p,
                    raw,
                ) && tagged_all(raw, parts[ci], ci);
            lemma_child(raw, parts[ci], ci);
            if !(p.shape is Compound) {
                lemma_tested(np.skin, test, ids, a, p, raw);
            }
            assert(place.ensures((b, kids(np, b.shape->compound)[ci]), p));
        }
    } else {
        lemma_tested(np.skin, test, ids, a, b, ms);
    }
}

proof fn lemma_pair<
    P: Fn(Placed, CompoundChild) -> Placed,
    Q: Fn(Scalar, Placed, Placed) -> SphereGap,
    L: Fn(Route, (u32, u32), Placed, Placed) -> Option<Touch>,
>(
    np: &DefaultNarrowPhase,
    place: P,
    test: PairTests<Q, L>,
    ids: (u32, u32),
    a: Placed,
    b: Placed,
    ms: Seq<Manifold>,
)
    requires
        np.pair_gives(place, test, ids, a, b, ms),
    ensures
        pair_held(np, place, test, ids, a, b, ms),
{
    if a.shape is Compound {
        let id = a.shape->compound;
        let parts = choose|parts: Seq<Seq<Manifold>>|
            #![trigger joined(parts)]
            {
                &&& parts.len() == np.children(id).len()
                &&& forall|ci: int|
                    0 <= ci < parts.len() ==> np.first_child(
                        place,
                        test,
                        ids,
                        a,
                        b,
                        id,
                        ci,
                        #[trigger] parts[ci],
                    )
                &&& ms == joined(parts)
            };
        lemma_flat(parts);
        assert(np.children(id) == kids(np, id));
        assert forall|ci: int| 0 <= ci < parts.len() implies child_held_against(
            np,
            place,
            test,
            ids,
            a,
            b,
            ci,
            #[trigger] parts[ci],
        ) by {
            assert(np.first_child(place, test, ids, a, b, id, ci, parts[ci]));
            let (p, raw) = choose|p: Placed, raw: Seq<Manifold>| #[trigger]
                place.ensures((a, np.children(id)[ci]), p) && #[trigger] np.second_side(
                    place,
                    test,
                    ids,
                    p,
                    b,
                    raw,
                ) && tagged_all(raw, parts[ci], ci);
            lemma_child(raw, parts[ci], ci);
            if !(p.shape is Compound) {
                lemma_single(np, place, test, ids, p, b, raw);
            }
            assert(place.ensures((a, kids(np, a.shape->compound)[ci]), p));
        }
    } else {
        lemma_single(np, place, test, ids, a, b, ms);
    }
}

/// Colliding reports, pair after pair and nothing else, what each pair gives: for shapes
/// that are no compounds exactly what their test answers, for a compound what each of
/// its children gives, in their order, marked with the child.
pub proof fn collisions_are_what_the_tests_answer<
    P: Fn(Placed, CompoundChild) -> Placed,
    Q: Fn(Scalar, Placed, Placed) -> SphereGap,
    L: Fn(Route, (u32, u32), Placed, Placed) -> Option<Touch>,
>(
    np: &DefaultNarrowPhase,
    place: &P,
    test: &PairTests<Q, L>,
    bodies: &[Placed],
    pairs: &[(u32, u32)],
    out: &mut Vec<Manifold>,
)
    requires
        call_ensures(
            DefaultNarrowPhase::collide::<P, Q, L>,
            (np, place, test, bodies, pairs, out),
            (),
        ),
    ensures
        exists|parts: Seq<Seq<Manifold>>|
            #![trigger parts.flatten()]
            {
                &&& parts.len() == pairs@.len()
                &&& final(out)@ == parts.flatten()
                &&& forall|k: int|
                    0 <= k < parts.len() ==> pair_held(
                        np,
                        *place,
                        *test,
                        pairs@[k],
                        bodies@[pairs@[k].0 as int],
                        bodies@[pairs@[k].1 as int],
                        #[trigger] parts[k],
                    )
            },
{
    assert(np.collided(*place, *test, bodies@, pairs@, final(out)@));
    reveal(DefaultNarrowPhase::collided);
    let parts = choose|parts: Seq<Seq<Manifold>>|
        #![trigger joined(parts)]
        parts.len() == pairs@.len() && final(out)@ == joined(parts) && forall|k: int|
            0 <= k < parts.len() ==> np.gives(
                *place,
                *test,
                bodies@,
                pairs@,
                k,
                #[trigger] parts[k],
            );
    lemma_flat(parts);
    assert forall|k: int| 0 <= k < parts.len() implies pair_held(
        np,
        *place,
        *test,
        pairs@[k],
        bodies@[pairs@[k].0 as int],
        bodies@[pairs@[k].1 as int],
        #[trigger] parts[k],
    ) by {
        assert(np.gives(*place, *test, bodies@, pairs@, k, parts[k]));
        lemma_pair(
            np,
            *place,
            *test,
            pairs@[k],
            bodies@[pairs@[k].0 as int],
            bodies@[pairs@[k].1 as int],
            parts[k],
        );
    }
}

} // verus!
