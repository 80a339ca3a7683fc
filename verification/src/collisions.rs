//! What colliding gives as a whole: the pairs decide which bodies the manifolds
//! name, and pairs tested in pieces give what all pairs give at once.

use crate::contact::{manifold_of, tagged_manifold, Manifold, Touch};
use crate::dispatch::{route_spec, Route, SphereCase, SphereGap};
use crate::narrow::{finds, joined, tagged_all, tested, DefaultNarrowPhase, PairTests, Placed};
use crate::scalar::Scalar;
use crate::shape::Shape;
use crate::store::CompoundChild;
use vstd::prelude::*;

verus! {

/// All manifolds are of the pair, and each has one to four points.
pub open spec fn of_pair(ids: (u32, u32), ms: Seq<Manifold>) -> bool {
    forall|k: int|
        0 <= k < ms.len() ==> (#[trigger] ms[k]).a == ids.0 && ms[k].b == ids.1 && 1
            <= ms[k].points@.len() <= 4
}

/// The two lists hold the same manifolds in the same order.
pub open spec fn same_manifolds(x: Seq<Manifold>, y: Seq<Manifold>) -> bool {
    &&& x.len() == y.len()
    &&& forall|k: int| 0 <= k < x.len() ==> same_manifold(#[trigger] x[k], y[k])
}

/// The two manifolds name the same bodies, normal and points.
pub open spec fn same_manifold(x: Manifold, y: Manifold) -> bool {
    &&& x.a == y.a
    &&& x.b == y.b
    &&& x.normal == y.normal
    &&& x.points@ == y.points@
    &&& x.points.space_spec() == y.points.space_spec()
}

/// Placing a child and testing two shapes give one result for one question.
pub open spec fn steady_tests<
    P: Fn(Placed, CompoundChild) -> Placed,
    Q: Fn(Scalar, Placed, Placed) -> SphereGap,
    L: Fn(Route, (u32, u32), Placed, Placed) -> Option<Touch>,
>(place: P, test: PairTests<Q, L>) -> bool {
    &&& forall|x: Placed, c: CompoundChild, p: Placed, q: Placed|
        #![trigger place.ensures((x, c), p), place.ensures((x, c), q)]
        place.ensures((x, c), p) && place.ensures((x, c), q) ==> p == q
    &&& forall|r: Route, ids: (u32, u32), x: Placed, y: Placed, o: Option<Touch>, u: Option<Touch>|
        #![trigger test.shapes.ensures((r, ids, x, y), o), test.shapes.ensures((r, ids, x, y), u)]
        test.shapes.ensures((r, ids, x, y), o) && test.shapes.ensures((r, ids, x, y), u) ==> o == u
    &&& forall|s: Scalar, x: Placed, y: Placed, g: SphereGap, h: SphereGap|
        #![trigger test.spheres.ensures((s, x, y), g), test.spheres.ensures((s, x, y), h)]
        test.spheres.ensures((s, x, y), g) && test.spheres.ensures((s, x, y), h) ==> g == h
}

/// Pairs tested in pieces, one piece after the other, give the same manifolds in
/// the same order as all pairs at once.
pub proof fn pieces_join(x: Seq<Seq<Manifold>>, y: Seq<Seq<Manifold>>)
    ensures
        joined(x + y) == joined(x) + joined(y),
    decreases y.len(),
{
    if y.len() == 0 {
        assert(x + y =~= x);
        assert(joined(x) + joined(y) =~= joined(x));
    } else {
        pieces_join(x, y.drop_last());
        assert((x + y).drop_last() =~= x + y.drop_last());
        assert(joined(x + y) =~= joined(x) + joined(y));
    }
}

/// Lists that are all of one pair join to such a list.
proof fn lemma_join_of_pair(ids: (u32, u32), parts: Seq<Seq<Manifold>>)
    requires
        forall|k: int| 0 <= k < parts.len() ==> of_pair(ids, #[trigger] parts[k]),
    ensures
        of_pair(ids, joined(parts)),
    decreases parts.len(),
{
    if parts.len() > 0 {
        assert forall|k: int| 0 <= k < parts.drop_last().len() implies of_pair(
            ids,
            #[trigger] parts.drop_last()[k],
        ) by {
            assert(parts.drop_last()[k] == parts[k]);
        }
        lemma_join_of_pair(ids, parts.drop_last());
        assert(of_pair(ids, parts[parts.len() - 1]));
    }
}

/// Lists that are the same one by one join to the same list.
proof fn lemma_join_same(x: Seq<Seq<Manifold>>, y: Seq<Seq<Manifold>>)
    requires
        x.len() == y.len(),
        forall|k: int| 0 <= k < x.len() ==> same_manifolds(#[trigger] x[k], y[k]),
    ensures
        same_manifolds(joined(x), joined(y)),
    decreases x.len(),
{
    if x.len() > 0 {
        let n = x.len() - 1;
        assert forall|k: int| 0 <= k < n implies same_manifolds(
            #[trigger] x.drop_last()[k],
            y.drop_last()[k],
        ) by {
            assert(x.drop_last()[k] == x[k]);
        }
        lemma_join_same(x.drop_last(), y.drop_last());
        assert(same_manifolds(x[n], y[n]));
        let (h, t) = (joined(x.drop_last()), joined(y.drop_last()));
        assert forall|k: int| 0 <= k < joined(x).len() implies same_manifold(
            #[trigger] joined(x)[k],
            joined(y)[k],
        ) by {
            if k < h.len() {
                assert(joined(x)[k] == h[k]);
            } else {
                assert(joined(x)[k] == x[n][k - h.len()]);
            }
        }
    }
}

/// The tags keep what two lists have in common.
proof fn lemma_tags_same(
    x: Seq<Manifold>,
    y: Seq<Manifold>,
    tx: Seq<Manifold>,
    ty: Seq<Manifold>,
    ci: int,
)
    requires
        same_manifolds(x, y),
        tagged_all(x, tx, ci),
        tagged_all(y, ty, ci),
    ensures
        same_manifolds(tx, ty),
{
    assert forall|k: int| 0 <= k < tx.len() implies same_manifold(#[trigger] tx[k], ty[k]) by {
        assert(same_manifold(x[k], y[k]));
        assert(tagged_manifold(x[k], tx[k], ci));
        assert(tagged_manifold(y[k], ty[k], ci));
        assert(tx[k].points@ =~= ty[k].points@);
    }
}

/// What the second side gives is of the pair.
proof fn lemma_second_of_pair<
    P: Fn(Placed, CompoundChild) -> Placed,
    Q: Fn(Scalar, Placed, Placed) -> SphereGap,
    L: Fn(Route, (u32, u32), Placed, Placed) -> Option<Touch>,
>(
    np: &DefaultNarrowPhase,
    place: P,
    test: PairTests<Q, L>,
    ids: (u32, u32),
    a: Placed,
    b: Placed,
    ms: Seq<Manifold>,
)
    requires
        np.second_side(place, test, ids, a, b, ms),
    ensures
        of_pair(ids, ms),
{
    match b.shape {
        Shape::Compound { compound, half } => {
            let parts = choose|parts: Seq<Seq<Manifold>>|
                #![trigger joined(parts)]
                {
                    &&& parts.len() == np.children(compound).len()
                    &&& forall|ci: int|
                        0 <= ci < parts.len() ==> np.second_child(
                            place,
                            test,
                            ids,
                            a,
                            b,
                            compound,
                            ci,
                            #[trigger] parts[ci],
                        )
                    &&& ms == joined(parts)
                };
            assert forall|ci: int| 0 <= ci < parts.len() implies of_pair(
                ids,
                #[trigger] parts[ci],
            ) by {
                assert(np.second_child(place, test, ids, a, b, compound, ci, parts[ci]));
                let (p, raw) = choose|p: Placed, raw: Seq<Manifold>| #[trigger]
                    place.ensures((b, np.children(compound)[ci]), p) && #[trigger] tested(
                        np.skin,
                        test,
                        ids,
                        a,
                        p,
                        raw,
                    ) && tagged_all(raw, parts[ci], ci);
                assert(of_pair(ids, raw));
                assert forall|k: int| 0 <= k < parts[ci].len() implies (#[trigger] parts[ci][k]).a
                    == ids.0 && parts[ci][k].b == ids.1 && 1 <= parts[ci][k].points@.len()
                    <= 4 by {
                    assert(tagged_manifold(raw[k], parts[ci][k], ci));
                }
            }
            lemma_join_of_pair(ids, parts);
        },
        _ => {
            assert(of_pair(ids, ms));
        },
    }
}

/// What a pair of shapes gives names the two bodies of the pair, with one to four
/// points to each manifold, however many children the shapes have.
pub proof fn manifolds_are_of_their_pair<
    P: Fn(Placed, CompoundChild) -> Placed,
    Q: Fn(Scalar, Placed, Placed) -> SphereGap,
    L: Fn(Route, (u32, u32), Placed, Placed) -> Option<Touch>,
>(
    np: &DefaultNarrowPhase,
    place: P,
    test: PairTests<Q, L>,
    ids: (u32, u32),
    a: Placed,
    b: Placed,
    ms: Seq<Manifold>,
)
    requires
        np.pair_gives(place, test, ids, a, b, ms),
    ensures
        of_pair(ids, ms),
{
    match a.shape {
        Shape::Compound { compound, half } => {
            let parts = choose|parts: Seq<Seq<Manifold>>|
                #![trigger joined(parts)]
                {
                    &&& parts.len() == np.children(compound).len()
                    &&& forall|ci: int|
                        0 <= ci < parts.len() ==> np.first_child(
                            place,
                            test,
                            ids,
                            a,
                            b,
                            compound,
                            ci,
                            #[trigger] parts[ci],
                        )
                    &&& ms == joined(parts)
                };
            assert forall|ci: int| 0 <= ci < parts.len() implies of_pair(
                ids,
                #[trigger] parts[ci],
            ) by {
                assert(np.first_child(place, test, ids, a, b, compound, ci, parts[ci]));
                let (p, raw) = choose|p: Placed, raw: Seq<Manifold>| #[trigger]
                    place.ensures((a, np.children(compound)[ci]), p) && #[trigger] np.second_side(
                        place,
                        test,
                        ids,
                        p,
                        b,
                        raw,
                    ) && tagged_all(raw, parts[ci], ci);
                lemma_second_of_pair(np, place, test, ids, p, b, raw);
                assert forall|k: int| 0 <= k < parts[ci].len() implies (#[trigger] parts[ci][k]).a
                    == ids.0 && parts[ci][k].b == ids.1 && 1 <= parts[ci][k].points@.len()
                    <= 4 by {
                    assert(tagged_manifold(raw[k], parts[ci][k], ci));
                }
            }
            lemma_join_of_pair(ids, parts);
        },
        _ => {
            lemma_second_of_pair(np, place, test, ids, a, b, ms);
        },
    }
}

/// Colliding gives, pair by pair and in their order, manifolds that name the two
/// bodies of their pair and have one to four points each.
pub proof fn collisions_follow_the_pairs<
    P: Fn(Placed, CompoundChild) -> Placed,
    Q: Fn(Scalar, Placed, Placed) -> SphereGap,
    L: Fn(Route, (u32, u32), Placed, Placed) -> Option<Touch>,
>(
    np: &DefaultNarrowPhase,
    place: P,
    test: PairTests<Q, L>,
    bodies: Seq<Placed>,
    pairs: Seq<(u32, u32)>,
    ms: Seq<Manifold>,
)
    requires
        np.collided(place, test, bodies, pairs, ms),
    ensures
        exists|parts: Seq<Seq<Manifold>>|
            #![trigger joined(parts)]
            parts.len() == pairs.len() && ms == joined(parts) && forall|k: int|
                0 <= k < parts.len() ==> of_pair(pairs[k], #[trigger] parts[k]),
{
    reveal(DefaultNarrowPhase::collided);
    let parts = choose|parts: Seq<Seq<Manifold>>|
        #![trigger joined(parts)]
        parts.len() == pairs.len() && ms == joined(parts) && forall|k: int|
            0 <= k < parts.len() ==> np.gives(place, test, bodies, pairs, k, #[trigger] parts[k]);
    assert forall|k: int| 0 <= k < parts.len() implies of_pair(
        pairs[k],
        #[trigger] parts[k],
    ) by {
        assert(np.gives(place, test, bodies, pairs, k, parts[k]));
        manifolds_are_of_their_pair(
            np,
            place,
            test,
            pairs[k],
            bodies[pairs[k].0 as int],
            bodies[pairs[k].1 as int],
            parts[k],
        );
    }
}

/// Colliding two lists of pairs one after the other gives what their concatenation
/// gives.
pub proof fn collisions_concatenate<
    P: Fn(Placed, CompoundChild) -> Placed,
    Q: Fn(Scalar, Placed, Placed) -> SphereGap,
    L: Fn(Route, (u32, u32), Placed, Placed) -> Option<Touch>,
>(
    np: &DefaultNarrowPhase,
    place: P,
    test: PairTests<Q, L>,
    bodies: Seq<Placed>,
    p1: Seq<(u32, u32)>,
    m1: Seq<Manifold>,
    p2: Seq<(u32, u32)>,
    m2: Seq<Manifold>,
)
    requires
        np.collided(place, test, bodies, p1, m1),
        np.collided(place, test, bodies, p2, m2),
    ensures
        np.collided(place, test, bodies, p1 + p2, m1 + m2),
{
    reveal(DefaultNarrowPhase::collided);
    let x = choose|x: Seq<Seq<Manifold>>|
        #![trigger joined(x)]
        x.len() == p1.len() && m1 == joined(x) && forall|k: int|
            0 <= k < x.len() ==> np.gives(place, test, bodies, p1, k, #[trigger] x[k]);
    let y = choose|y: Seq<Seq<Manifold>>|
        #![trigger joined(y)]
        y.len() == p2.len() && m2 == joined(y) && forall|k: int|
            0 <= k < y.len() ==> np.gives(place, test, bodies, p2, k, #[trigger] y[k]);
    pieces_join(x, y);
    let parts = x + y;
    let pairs = p1 + p2;
    assert forall|k: int| 0 <= k < parts.len() implies np.gives(
        place,
        test,
        bodies,
        pairs,
        k,
        #[trigger] parts[k],
    ) by {
        if k < x.len() {
            assert(pairs[k] == p1[k]);
            assert(np.gives(place, test, bodies, p1, k, x[k]));
        } else {
            let q = k - x.len();
            assert(pairs[k] == p2[q]);
            assert(np.gives(place, test, bodies, p2, q, y[q]));
        }
    }
    assert(joined(parts) == m1 + m2);
}

/// The chunks lie one after the other and cover the pairs.
pub open spec fn chunks_cover(chunks: Seq<(usize, usize)>, pairs: int) -> bool {
    &&& chunks.len() >= 1
    &&& chunks[0].0 == 0
    &&& chunks.last().1 == pairs
    &&& forall|k: int| 0 <= k < chunks.len() ==> (#[trigger] chunks[k]).0 <= chunks[k].1 <= pairs
    &&& forall|k: int| 0 <= k < chunks.len() - 1 ==> (#[trigger] chunks[k]).1 == chunks[k + 1].0
}

/// Pairs collided chunk by chunk, whatever the chunks, give what all the pairs
/// give: the number of threads changes nothing.
pub proof fn chunks_give_the_whole<
    P: Fn(Placed, CompoundChild) -> Placed,
    Q: Fn(Scalar, Placed, Placed) -> SphereGap,
    L: Fn(Route, (u32, u32), Placed, Placed) -> Option<Touch>,
>(
    np: &DefaultNarrowPhase,
    place: P,
    test: PairTests<Q, L>,
    bodies: Seq<Placed>,
    pairs: Seq<(u32, u32)>,
    chunks: Seq<(usize, usize)>,
    parts: Seq<Seq<Manifold>>,
)
    requires
        chunks_cover(chunks, pairs.len() as int),
        parts.len() == chunks.len(),
        forall|k: int|
            0 <= k < chunks.len() ==> np.collided(
                place,
                test,
                bodies,
                pairs.subrange((#[trigger] chunks[k]).0 as int, chunks[k].1 as int),
                parts[k],
            ),
    ensures
        np.collided(place, test, bodies, pairs, joined(parts)),
{
    lemma_chunks_up_to(np, place, test, bodies, pairs, chunks, parts, chunks.len() as int);
    assert(pairs.take(pairs.len() as int) =~= pairs);
    assert(parts.take(chunks.len() as int) =~= parts);
}

proof fn lemma_chunks_up_to<
    P: Fn(Placed, CompoundChild) -> Placed,
    Q: Fn(Scalar, Placed, Placed) -> SphereGap,
    L: Fn(Route, (u32, u32), Placed, Placed) -> Option<Touch>,
>(
    np: &DefaultNarrowPhase,
    place: P,
    test: PairTests<Q, L>,
    bodies: Seq<Placed>,
    pairs: Seq<(u32, u32)>,
    chunks: Seq<(usize, usize)>,
    parts: Seq<Seq<Manifold>>,
    n: int,
)
    requires
        chunks_cover(chunks, pairs.len() as int),
        parts.len() == chunks.len(),
        forall|k: int|
            0 <= k < chunks.len() ==> np.collided(
                place,
                test,
                bodies,
                pairs.subrange((#[trigger] chunks[k]).0 as int, chunks[k].1 as int),
                parts[k],
            ),
        1 <= n <= chunks.len(),
    ensures
        np.collided(
            place,
            test,
            bodies,
            pairs.take(chunks[n - 1].1 as int),
            joined(parts.take(n)),
        ),
    decreases n,
{
    let (lo, hi) = (chunks[n - 1].0 as int, chunks[n - 1].1 as int);
    assert(parts.take(n).drop_last() =~= parts.take(n - 1));
    assert(parts.take(n).last() == parts[n - 1]);
    if n == 1 {
        assert(pairs.subrange(lo, hi) =~= pairs.take(hi));
        assert(joined(parts.take(0)) =~= Seq::<Manifold>::empty());
        assert(joined(parts.take(1)) =~= parts[0]);
    } else {
        assert(chunks[n - 2].1 == chunks[n - 2 + 1].0);
        lemma_chunks_up_to(np, place, test, bodies, pairs, chunks, parts, n - 1);
        collisions_concatenate(
            np,
            place,
            test,
            bodies,
            pairs.take(lo),
            joined(parts.take(n - 1)),
            pairs.subrange(lo, hi),
            parts[n - 1],
        );
        assert(pairs.take(lo) + pairs.subrange(lo, hi) =~= pairs.take(hi));
    }
}

proof fn lemma_second_determined<
    P: Fn(Placed, CompoundChild) -> Placed,
    Q: Fn(Scalar, Placed, Placed) -> SphereGap,
    L: Fn(Route, (u32, u32), Placed, Placed) -> Option<Touch>,
>(
    np: &DefaultNarrowPhase,
    place: P,
    test: PairTests<Q, L>,
    ids: (u32, u32),
    a: Placed,
    b: Placed,
    x: Seq<Manifold>,
    y: Seq<Manifold>,
)
    requires
        steady_tests(place, test),
        np.second_side(place, test, ids, a, b, x),
        np.second_side(place, test, ids, a, b, y),
    ensures
        same_manifolds(x, y),
{
    match b.shape {
        Shape::Compound { compound, half } => {
            let xs = choose|parts: Seq<Seq<Manifold>>|
                #![trigger joined(parts)]
                {
                    &&& parts.len() == np.children(compound).len()
                    &&& forall|ci: int|
                        0 <= ci < parts.len() ==> np.second_child(
                            place,
                            test,
                            ids,
                            a,
                            b,
                            compound,
                            ci,
                            #[trigger] parts[ci],
                        )
                    &&& x == joined(parts)
                };
            let ys = choose|parts: Seq<Seq<Manifold>>|
                #![trigger joined(parts)]
                {
                    &&& parts.len() == np.children(compound).len()
                    &&& forall|ci: int|
                        0 <= ci < parts.len() ==> np.second_child(
                            place,
                            test,
                            ids,
                            a,
                            b,
                            compound,
                            ci,
                            #[trigger] parts[ci],
                        )
                    &&& y == joined(parts)
                };
            assert forall|ci: int| 0 <= ci < xs.len() implies same_manifolds(
                #[trigger] xs[ci],
                ys[ci],
            ) by {
                assert(np.second_child(place, test, ids, a, b, compound, ci, xs[ci]));
                assert(np.second_child(place, test, ids, a, b, compound, ci, ys[ci]));
                let (p, rx) = choose|p: Placed, raw: Seq<Manifold>| #[trigger]
                    place.ensures((b, np.children(compound)[ci]), p) && #[trigger] tested(
                        np.skin,
                        test,
                        ids,
                        a,
                        p,
                        raw,
                    ) && tagged_all(raw, xs[ci], ci);
                let (q, ry) = choose|p: Placed, raw: Seq<Manifold>| #[trigger]
                    place.ensures((b, np.children(compound)[ci]), p) && #[trigger] tested(
                        np.skin,
                        test,
                        ids,
                        a,
                        p,
                        raw,
                    ) && tagged_all(raw, ys[ci], ci);
                lemma_tested_determined(np.skin, place, test, ids, a, p, rx, ry);
                lemma_tags_same(rx, ry, xs[ci], ys[ci], ci);
            }
            lemma_join_same(xs, ys);
        },
        _ => {
            lemma_tested_determined(np.skin, place, test, ids, a, b, x, y);
        },
    }
}

proof fn lemma_tested_determined<
    P: Fn(Placed, CompoundChild) -> Placed,
    Q: Fn(Scalar, Placed, Placed) -> SphereGap,
    L: Fn(Route, (u32, u32), Placed, Placed) -> Option<Touch>,
>(
    skin: Scalar,
    place: P,
    test: PairTests<Q, L>,
    ids: (u32, u32),
    a: Placed,
    b: Placed,
    x: Seq<Manifold>,
    y: Seq<Manifold>,
)
    requires
        steady_tests(place, test),
        tested(skin, test, ids, a, b, x),
        tested(skin, test, ids, a, b, y),
    ensures
        same_manifolds(x, y),
{
    let r = route_spec(a.shape, b.shape);
    let o = choose|o: Option<Touch>| #[trigger]
        finds(skin, test, r, ids, a, b, o) && x == match manifold_of(ids, o) {
            Some(m) => seq![m],
            None => Seq::<Manifold>::empty(),
        };
    let u = choose|o: Option<Touch>| #[trigger]
        finds(skin, test, r, ids, a, b, o) && y == match manifold_of(ids, o) {
            Some(m) => seq![m],
            None => Seq::<Manifold>::empty(),
        };
    if r == Route::SphereSphere {
        let g = choose|g: SphereGap| #[trigger]
            test.spheres.ensures((skin, a, b), g) && g.gives(o);
        let h = choose|g: SphereGap| #[trigger]
            test.spheres.ensures((skin, a, b), g) && g.gives(u);
        assert(g == h);
    } else {
        assert(o == u);
    }
}

proof fn lemma_pair_determined<
    P: Fn(Placed, CompoundChild) -> Placed,
    Q: Fn(Scalar, Placed, Placed) -> SphereGap,
    L: Fn(Route, (u32, u32), Placed, Placed) -> Option<Touch>,
>(
    np: &DefaultNarrowPhase,
    place: P,
    test: PairTests<Q, L>,
    ids: (u32, u32),
    a: Placed,
    b: Placed,
    x: Seq<Manifold>,
    y: Seq<Manifold>,
)
    requires
        steady_tests(place, test),
        np.pair_gives(place, test, ids, a, b, x),
        np.pair_gives(place, test, ids, a, b, y),
    ensures
        same_manifolds(x, y),
{
    match a.shape {
        Shape::Compound { compound, half } => {
            let xs = choose|parts: Seq<Seq<Manifold>>|
                #![trigger joined(parts)]
                {
                    &&& parts.len() == np.children(compound).len()
                    &&& forall|ci: int|
                        0 <= ci < parts.len() ==> np.first_child(
                            place,
                            test,
                            ids,
                            a,
                            b,
                            compound,
                            ci,
                            #[trigger] parts[ci],
                        )
                    &&& x == joined(parts)
                };
            let ys = choose|parts: Seq<Seq<Manifold>>|
                #![trigger joined(parts)]
                {
                    &&& parts.len() == np.children(compound).len()
                    &&& forall|ci: int|
                        0 <= ci < parts.len() ==> np.first_child(
                            place,
                            test,
                            ids,
                            a,
                            b,
                            compound,
                            ci,
                            #[trigger] parts[ci],
                        )
                    &&& y == joined(parts)
                };
            assert forall|ci: int| 0 <= ci < xs.len() implies same_manifolds(
                #[trigger] xs[ci],
                ys[ci],
            ) by {
                assert(np.first_child(place, test, ids, a, b, compound, ci, xs[ci]));
                assert(np.first_child(place, test, ids, a, b, compound, ci, ys[ci]));
                let (p, rx) = choose|p: Placed, raw: Seq<Manifold>| #[trigger]
                    place.ensures((a, np.children(compound)[ci]), p) && #[trigger] np.second_side(
                        place,
                        test,
                        ids,
                        p,
                        b,
                        raw,
                    ) && tagged_all(raw, xs[ci], ci);
                let (q, ry) = choose|p: Placed, raw: Seq<Manifold>| #[trigger]
                    place.ensures((a, np.children(compound)[ci]), p) && #[trigger] np.second_side(
                        place,
                        test,
                        ids,
                        p,
                        b,
                        raw,
                    ) && tagged_all(raw, ys[ci], ci);
                lemma_second_determined(np, place, test, ids, p, b, rx, ry);
                lemma_tags_same(rx, ry, xs[ci], ys[ci], ci);
            }
            lemma_join_same(xs, ys);
        },
        _ => {
            lemma_second_determined(np, place, test, ids, a, b, x, y);
        },
    }
}

/// Whenever tests answer one question in one way, the pairs and the places of the
/// bodies decide what colliding gives; with [`chunks_give_the_whole`], any two
/// numbers of threads give the same manifolds.
pub proof fn collisions_are_determined<
    P: Fn(Placed, CompoundChild) -> Placed,
    Q: Fn(Scalar, Placed, Placed) -> SphereGap,
    L: Fn(Route, (u32, u32), Placed, Placed) -> Option<Touch>,
>(
    np: &DefaultNarrowPhase,
    place: P,
    test: PairTests<Q, L>,
    bodies: Seq<Placed>,
    pairs: Seq<(u32, u32)>,
    x: Seq<Manifold>,
    y: Seq<Manifold>,
)
    requires
        steady_tests(place, test),
        np.collided(place, test, bodies, pairs, x),
        np.collided(place, test, bodies, pairs, y),
    ensures
        same_manifolds(x, y),
{
    reveal(DefaultNarrowPhase::collided);
    let xs = choose|parts: Seq<Seq<Manifold>>|
        #![trigger joined(parts)]
        parts.len() == pairs.len() && x == joined(parts) && forall|k: int|
            0 <= k < parts.len() ==> np.gives(place, test, bodies, pairs, k, #[trigger] parts[k]);
    let ys = choose|parts: Seq<Seq<Manifold>>|
        #![trigger joined(parts)]
        parts.len() == pairs.len() && y == joined(parts) && forall|k: int|
            0 <= k < parts.len() ==> np.gives(place, test, bodies, pairs, k, #[trigger] parts[k]);
    assert forall|k: int| 0 <= k < xs.len() implies same_manifolds(#[trigger] xs[k], ys[k]) by {
        assert(np.gives(place, test, bodies, pairs, k, xs[k]));
        assert(np.gives(place, test, bodies, pairs, k, ys[k]));
        lemma_pair_determined(
            np,
            place,
            test,
            pairs[k],
            bodies[pairs[k].0 as int],
            bodies[pairs[k].1 as int],
            xs[k],
            ys[k],
        );
    }
    lemma_join_same(xs, ys);
}

/// Colliding a concatenation gives the manifolds of the first part followed by those
/// of the second, point for point.
pub proof fn concatenations_give_both_parts<
    P: Fn(Placed, CompoundChild) -> Placed,
    Q: Fn(Scalar, Placed, Placed) -> SphereGap,
    L: Fn(Route, (u32, u32), Placed, Placed) -> Option<Touch>,
>(
    np: &DefaultNarrowPhase,
    place: P,
    test: PairTests<Q, L>,
    bodies: Seq<Placed>,
    p1: Seq<(u32, u32)>,
    m1: Seq<Manifold>,
    p2: Seq<(u32, u32)>,
    m2: Seq<Manifold>,
    both: Seq<Manifold>,
)
    requires
        steady_tests(place, test),
        np.collided(place, test, bodies, p1, m1),
        np.collided(place, test, bodies, p2, m2),
        np.collided(place, test, bodies, p1 + p2, both),
    ensures
        same_manifolds(both, m1 + m2),
{
    collisions_concatenate(np, place, test, bodies, p1, m1, p2, m2);
    collisions_are_determined(np, place, test, bodies, p1 + p2, both, m1 + m2);
}

/// Colliding chunk by chunk and joining the parts gives what colliding all the pairs
/// gives, point for point, whatever the chunks: the number of threads changes nothing.
pub proof fn threads_collide_alike<
    P: Fn(Placed, CompoundChild) -> Placed,
    Q: Fn(Scalar, Placed, Placed) -> SphereGap,
    L: Fn(Route, (u32, u32), Placed, Placed) -> Option<Touch>,
>(
    np: &DefaultNarrowPhase,
    place: P,
    test: PairTests<Q, L>,
    bodies: Seq<Placed>,
    pairs: Seq<(u32, u32)>,
    whole: Seq<Manifold>,
    chunks: Seq<(usize, usize)>,
    parts: Seq<Seq<Manifold>>,
)
    requires
        steady_tests(place, test),
        np.collided(place, test, bodies, pairs, whole),
        chunks_cover(chunks, pairs.len() as int),
        parts.len() == chunks.len(),
        forall|k: int|
            0 <= k < chunks.len() ==> np.collided(
                place,
                test,
                bodies,
                pairs.subrange((#[trigger] chunks[k]).0 as int, chunks[k].1 as int),
                parts[k],
            ),
    ensures
        same_manifolds(whole, joined(parts)),
{
    chunks_give_the_whole(np, place, test, bodies, pairs, chunks, parts);
    collisions_are_determined(np, place, test, bodies, pairs, whole, joined(parts));
}

/// Two spheres whose gap is not wider than the skin touch: colliding them gives one
/// manifold of the pair, with one point, in the direction between the centres.
pub proof fn spheres_within_the_skin_touch<
    P: Fn(Placed, CompoundChild) -> Placed,
    Q: Fn(Scalar, Placed, Placed) -> SphereGap,
    L: Fn(Route, (u32, u32), Placed, Placed) -> Option<Touch>,
>(
    np: &DefaultNarrowPhase,
    place: P,
    test: PairTests<Q, L>,
    ids: (u32, u32),
    a: Placed,
    b: Placed,
    g: SphereGap,
    ms: Seq<Manifold>,
)
    requires
        steady_tests(place, test),
        a.shape is Sphere,
        b.shape is Sphere,
        test.spheres.ensures((np.skin, a, b), g),
        g.case_spec() == SphereCase::Touching,
        np.pair_gives(place, test, ids, a, b, ms),
    ensures
        ms.len() == 1,
        ms[0].a == ids.0,
        ms[0].b == ids.1,
        ms[0].normal == g.normal,
        ms[0].points@.len() == 1,
        ms[0].points@[0].point == g.point,
        ms[0].points@[0].depth == g.depth,
{
    let r = route_spec(a.shape, b.shape);
    assert(r == Route::SphereSphere);
    assert(tested(np.skin, test, ids, a, b, ms));
    let o = choose|o: Option<Touch>| #[trigger]
        finds(np.skin, test, r, ids, a, b, o) && ms == match manifold_of(ids, o) {
            Some(m) => seq![m],
            None => Seq::<Manifold>::empty(),
        };
    let h = choose|h: SphereGap| #[trigger]
        test.spheres.ensures((np.skin, a, b), h) && h.gives(o);
    assert(h == g);
}

} // verus!
