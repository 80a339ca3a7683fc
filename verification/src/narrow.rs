//! The state of the narrow phase: stored geometry, cached polytopes and limits.

use crate::contact::{
    assemble, manifold_of, tag_child_features, tagged_manifold, Manifold, Touch,
};
use crate::cut::{cell_of, fracture_voronoi_hull};
use crate::dispatch::{predict_time, route, route_spec, ClipProbe, Route, SphereGap};
use crate::polytope::PolyCache;
use crate::scalar::{greatest_corner, least_corner, splat_spec, Quat, Scalar, Vec3};
use crate::select::indices_where;
use crate::shape::Shape;
use crate::store::{
    highs, lows, simple, spans_of, sums_of, CompoundChild, CompoundStore, HullStore,
};
use vstd::prelude::*;

verus! {

/// The default narrow phase.
pub struct DefaultNarrowPhase {
    pub hulls: HullStore,
    pub compounds: CompoundStore,
    pub polys: PolyCache,
    pub skin: Scalar,
    /// How far ahead in time contacts are looked for.
    pub predict_dt: Scalar,
    /// Contacts closer than this count as one.
    pub min_point_sep: Scalar,
    pub probe: ClipProbe,
}

/// The least distance of two contacts, if the skin does not ask for more (one
/// hundredth).
pub open spec fn least_sep_spec() -> Scalar {
    Scalar { bits: 0x3c23_d70a }
}

impl DefaultNarrowPhase {
    /// No compound contains a compound, and every cached key leads to a polytope.
    pub open spec fn wf(&self) -> bool {
        self.compounds.flat() && self.polys.wf()
    }

    /// An empty narrow phase. Contacts are kept twice the skin apart, or a
    /// hundredth if that is more.
    pub fn new(skin: Scalar, twice_skin: Scalar) -> (r: DefaultNarrowPhase)
        ensures
            r.wf(),
            r.hulls.hulls@.len() == 0,
            r.compounds.items@.len() == 0,
            r.polys.polys@.len() == 0,
            r.skin == skin,
            r.predict_dt == Scalar::zero_spec(),
            r.min_point_sep == twice_skin.max_spec(least_sep_spec()),
            r.probe == (ClipProbe { calls: 0, iters: 0, crossings: 0, candidates: 0, largest: 0 }),
    {
        DefaultNarrowPhase {
            hulls: HullStore::new(),
            compounds: CompoundStore::new(),
            polys: PolyCache::new(),
            skin,
            predict_dt: Scalar::zero(),
            min_point_sep: twice_skin.max(Scalar { bits: 0x3c23_d70a }),
            probe: ClipProbe::new(),
        }
    }

    /// Stores the hull of the points and returns its number.
    pub fn add_hull<A: Fn(Vec3, Vec3) -> Vec3, D: Fn(Vec3, usize) -> Vec3>(
        &mut self,
        points: Vec<Vec3>,
        plus: &A,
        over: &D,
    ) -> (id: u32)
        requires
            old(self).hulls.hulls@.len() < u32::MAX,
            forall|v: Vec3, w: Vec3| #[trigger] plus.requires((v, w)),
            forall|v: Vec3, n: usize| n > 0 ==> #[trigger] over.requires((v, n)),
        ensures
            id == old(self).hulls.hulls@.len(),
            final(self).hulls.hulls@.len() == id + 1,
            final(self).hulls.hulls@.drop_last() == old(self).hulls.hulls@,
            final(self).hulls.hulls@[id as int].points@ == points@,
            exists|sums: Seq<Vec3>| #[trigger]
                sums_of(*plus, points@, sums) && over.ensures(
                    (
                        sums[points@.len() as int],
                        if points@.len() == 0 {
                            1usize
                        } else {
                            points@.len() as usize
                        },
                    ),
                    final(self).hulls.hulls@[id as int].centroid,
                ),
            *final(self) == (DefaultNarrowPhase { hulls: final(self).hulls, ..*old(self) }),
    {
        self.hulls.add(points, plus, over)
    }

    /// The points of a stored hull; none if the number is unknown.
    pub fn hull_points(&self, id: u32) -> (r: &[Vec3])
        ensures
            r@ == if id < self.hulls.hulls@.len() {
                self.hulls.hulls@[id as int].points@
            } else {
                Seq::<Vec3>::empty()
            },
    {
        self.hulls.points(id)
    }

    /// The half extents of a stored hull.
    pub fn hull_half_extents<F: Fn(Vec3, Vec3) -> Vec3>(&self, id: u32, half_of: F) -> (r: Vec3)
        requires
            forall|lo: Vec3, hi: Vec3| #[trigger] half_of.requires((lo, hi)),
        ensures
            id < self.hulls.hulls@.len() && self.hulls.hulls@[id as int].points@.len() > 0
                ==> half_of.ensures(
                (
                    least_corner(
                        self.hulls.hulls@[id as int].points@,
                        splat_spec(Scalar { bits: 0x7f80_0000 }),
                    ),
                    greatest_corner(
                        self.hulls.hulls@[id as int].points@,
                        splat_spec(Scalar { bits: 0xff80_0000 }),
                    ),
                ),
                r,
            ),
            !(id < self.hulls.hulls@.len() && self.hulls.hulls@[id as int].points@.len() > 0) ==> r
                == Vec3::zero_spec(),
    {
        self.hulls.half_extents(id, half_of)
    }

    /// Stores a compound, without children that are compounds, and returns its
    /// number.
    pub fn add_compound(&mut self, children: Vec<CompoundChild>) -> (id: u32)
        requires
            old(self).compounds.items@.len() < u32::MAX,
            old(self).wf(),
        ensures
            final(self).wf(),
            id == old(self).compounds.items@.len(),
            final(self).compounds.items@.len() == id + 1,
            final(self).compounds.items@.drop_last() == old(self).compounds.items@,
            final(self).compounds.items@[id as int]@ == indices_where(
                simple(children@),
                children@.len(),
            ).map_values(|i: int| children@[i]),
            *final(self) == (DefaultNarrowPhase { compounds: final(self).compounds, ..*old(self) }),
    {
        self.compounds.add(children)
    }

    /// The children of a stored compound; none if the number is unknown.
    pub fn compound_children(&self, id: u32) -> (r: Vec<CompoundChild>)
        ensures
            r@ == if id < self.compounds.items@.len() {
                self.compounds.items@[id as int]@
            } else {
                Seq::<CompoundChild>::empty()
            },
    {
        let mut r: Vec<CompoundChild> = Vec::new();
        match self.compounds.get(id) {
            None => {
                assert(r@ =~= Seq::<CompoundChild>::empty());
            },
            Some(kids) => {
                let mut i: usize = 0;
                assert(r@ =~= kids@.take(0));
                while i < kids.len()
                    invariant
                        i <= kids@.len(),
                        r@ == kids@.take(i as int),
                    decreases kids@.len() - i,
                {
                    r.push(kids[i]);
                    i += 1;
                    assert(r@ =~= kids@.take(i as int));
                }
                assert(r@ =~= kids@);
            },
        }
        r
    }

    /// The half extents of a stored compound.
    pub fn compound_half_extents<
        S: Fn(CompoundChild) -> (Vec3, Vec3),
        F: Fn(Vec3, Vec3) -> Vec3,
    >(&self, id: u32, span: S, half_of: F) -> (r: Vec3)
        requires
            forall|c: CompoundChild| #[trigger] span.requires((c,)),
            forall|lo: Vec3, hi: Vec3| #[trigger] half_of.requires((lo, hi)),
        ensures
            !(id < self.compounds.items@.len() && self.compounds.items@[id as int]@.len() > 0) ==> r
                == Vec3::zero_spec(),
            id < self.compounds.items@.len() && self.compounds.items@[id as int]@.len() > 0
                ==> exists|spans: Seq<(Vec3, Vec3)>| #[trigger]
                spans_of(span, self.compounds.items@[id as int]@, spans) && half_of.ensures(
                    (
                        least_corner(lows(spans), splat_spec(Scalar { bits: 0x7f80_0000 })),
                        greatest_corner(highs(spans), splat_spec(Scalar { bits: 0xff80_0000 })),
                    ),
                    r,
                ),
    {
        self.compounds.half_extents(id, span, half_of)
    }

    /// Breaks a stored hull into the cells of the seeds; `None` if the number is
    /// unknown.
    pub fn fracture_hull<
        C: Fn(usize, usize) -> bool,
        K: Fn(Vec<Vec3>, usize, usize) -> Vec<Vec3>,
    >(&self, id: u32, seeds: usize, coincide: C, clip: K) -> (r: Option<Vec<Vec<Vec3>>>)
        requires
            forall|i: usize, j: usize| #[trigger] coincide.requires((i, j)),
            forall|v: Vec<Vec3>, i: usize, j: usize| #[trigger] clip.requires((v, i, j)),
        ensures
            r is Some <==> id < self.hulls.hulls@.len(),
            r matches Some(cells) ==> cells@.len() == seeds && forall|i: int|
                0 <= i < seeds ==> cell_of(
                    self.hulls.hulls@[id as int].points@,
                    coincide,
                    clip,
                    i as usize,
                    seeds,
                    (#[trigger] cells@[i])@,
                ),
    {
        match self.hulls.get(id) {
            None => None,
            Some(h) => Some(fracture_voronoi_hull(&h.points, seeds, coincide, clip)),
        }
    }

    /// Sets how far ahead in time contacts are looked for.
    pub fn set_predict_dt(&mut self, dt: Scalar)
        ensures
            final(self).predict_dt == if Scalar::zero_spec().lt_spec(dt) {
                dt
            } else {
                Scalar::zero_spec()
            },
            *final(self) == (DefaultNarrowPhase {
                predict_dt: final(self).predict_dt,
                ..*old(self)
            }),
    {
        self.predict_dt = predict_time(dt);
    }

    /// How much farther contacts are looked for along the normal: nothing unless
    /// prediction is on, else what `travel` gives for the closing speed.
    pub fn predict_inflate(&self, travel: Scalar) -> (r: Scalar)
        ensures
            r == if self.predict_dt.le_spec(Scalar::zero_spec()) {
                Scalar::zero_spec()
            } else {
                travel
            },
    {
        if self.predict_dt.le(Scalar::zero()) {
            Scalar::zero()
        } else {
            travel
        }
    }

    /// How far apart two polytopes may be along an axis before they are given up:
    /// the skin, but any distance while prediction is on, since how fast they close
    /// in is only known once the axis is found.
    pub fn sat_limit(&self) -> (r: Scalar)
        ensures
            r == if self.predict_dt.le_spec(Scalar::zero_spec()) {
                self.skin
            } else {
                Scalar { bits: 0x7f80_0000 }
            },
    {
        if self.predict_dt.le(Scalar::zero()) {
            self.skin
        } else {
            Scalar { bits: 0x7f80_0000 }
        }
    }

    /// The counters of the clipping of faces.
    pub fn probe_stats(&self) -> (r: (u64, u64, u64, u64, u64))
        ensures
            r == (
                self.probe.calls,
                self.probe.iters,
                self.probe.crossings,
                self.probe.candidates,
                self.probe.largest,
            ),
    {
        self.probe.probe_stats()
    }
}

/// A shape at its place in the world.
#[derive(Clone, Copy, Debug, PartialEq, Eq, Structural)]
pub struct Placed {
    pub shape: Shape,
    pub pos: Vec3,
    pub rot: Quat,
}

/// The lists one after the other.
pub open spec fn joined(parts: Seq<Seq<Manifold>>) -> Seq<Manifold>
    decreases parts.len(),
{
    if parts.len() == 0 {
        Seq::empty()
    } else {
        joined(parts.drop_last()) + parts.last()
    }
}

/// The manifolds as child `ci` of a compound gives them.
pub open spec fn tagged_all(raw: Seq<Manifold>, tagged: Seq<Manifold>, ci: int) -> bool {
    &&& tagged.len() == raw.len()
    &&& forall|k: int|
        0 <= k < raw.len() ==> tagged_manifold(raw[k], #[trigger] tagged[k], ci)
}

/// The tests of two shapes: `spheres` measures two spheres, given the skin, and
/// `shapes` tests any other two.
pub struct PairTests<Q, L> {
    pub spheres: Q,
    pub shapes: L,
}

/// The tests can be asked for anything.
pub open spec fn total_tests<
    Q: Fn(Scalar, Placed, Placed) -> SphereGap,
    L: Fn(Route, (u32, u32), Placed, Placed) -> Option<Touch>,
>(test: PairTests<Q, L>) -> bool {
    &&& forall|s: Scalar, x: Placed, y: Placed| #[trigger] test.spheres.requires((s, x, y))
    &&& forall|r: Route, q: (u32, u32), x: Placed, y: Placed| #[trigger]
        test.shapes.requires((r, q, x, y))
}

/// What the test that the route names finds.
pub open spec fn finds<
    Q: Fn(Scalar, Placed, Placed) -> SphereGap,
    L: Fn(Route, (u32, u32), Placed, Placed) -> Option<Touch>,
>(
    skin: Scalar,
    test: PairTests<Q, L>,
    r: Route,
    ids: (u32, u32),
    a: Placed,
    b: Placed,
    o: Option<Touch>,
) -> bool {
    match r {
        Route::Nothing => o is None,
        Route::SphereSphere => exists|g: SphereGap| #[trigger]
            test.spheres.ensures((skin, a, b), g) && g.gives(o),
        _ => test.shapes.ensures((r, ids, a, b), o),
    }
}

/// What a test of two shapes gives: at most one manifold, of the two bodies and with
/// at most four points, and none if there is no test for them.
pub open spec fn tested<
    Q: Fn(Scalar, Placed, Placed) -> SphereGap,
    L: Fn(Route, (u32, u32), Placed, Placed) -> Option<Touch>,
>(
    skin: Scalar,
    test: PairTests<Q, L>,
    ids: (u32, u32),
    a: Placed,
    b: Placed,
    ms: Seq<Manifold>,
) -> bool {
    exists|o: Option<Touch>| #[trigger]
        finds(skin, test, route_spec(a.shape, b.shape), ids, a, b, o) && ms == match manifold_of(
            ids,
            o,
        ) {
            Some(m) => seq![m],
            None => Seq::<Manifold>::empty(),
        } && forall|k: int| 0 <= k < ms.len() ==> 1 <= (#[trigger] ms[k]).points@.len() <= 4
}

impl DefaultNarrowPhase {
    /// The children of a compound; none if the number is unknown.
    pub open spec fn children(&self, id: u32) -> Seq<CompoundChild> {
        if id < self.compounds.items@.len() {
            self.compounds.items@[id as int]@
        } else {
            Seq::empty()
        }
    }

    /// What child `ci` of the second shape gives.
    pub open spec fn second_child<
        P: Fn(Placed, CompoundChild) -> Placed,
        Q: Fn(Scalar, Placed, Placed) -> SphereGap,
        L: Fn(Route, (u32, u32), Placed, Placed) -> Option<Touch>,
    >(
        &self,
        place: P,
        test: PairTests<Q, L>,
        ids: (u32, u32),
        a: Placed,
        b: Placed,
        id: u32,
        ci: int,
        ms: Seq<Manifold>,
    ) -> bool {
        exists|p: Placed, raw: Seq<Manifold>| #[trigger]
            place.ensures((b, self.children(id)[ci]), p) && #[trigger] tested(
                self.skin,
                test,
                ids,
                a,
                p,
                raw,
            ) && tagged_all(raw, ms, ci)
    }

    /// What a shape that is no compound gives with the second one: a compound is
    /// tested child by child.
    pub open spec fn second_side<
        P: Fn(Placed, CompoundChild) -> Placed,
        Q: Fn(Scalar, Placed, Placed) -> SphereGap,
        L: Fn(Route, (u32, u32), Placed, Placed) -> Option<Touch>,
    >(
        &self,
        place: P,
        test: PairTests<Q, L>,
        ids: (u32, u32),
        a: Placed,
        b: Placed,
        ms: Seq<Manifold>,
    ) -> bool {
        match b.shape {
            Shape::Compound { compound, half } => exists|parts: Seq<Seq<Manifold>>|
                #![trigger joined(parts)]
                {
                    &&& parts.len() == self.children(compound).len()
                    &&& forall|ci: int|
                        0 <= ci < parts.len() ==> self.second_child(
                            place,
                            test,
                            ids,
                            a,
                            b,
                            compound,
                            ci,
                            #[trigger] parts[ci],
                        )
                    &&& ms == joined(parts)
                },
            _ => tested(self.skin, test, ids, a, b, ms),
        }
    }

    /// What child `ci` of the first shape gives.
    pub open spec fn first_child<
        P: Fn(Placed, CompoundChild) -> Placed,
        Q: Fn(Scalar, Placed, Placed) -> SphereGap,
        L: Fn(Route, (u32, u32), Placed, Placed) -> Option<Touch>,
    >(
        &self,
        place: P,
        test: PairTests<Q, L>,
        ids: (u32, u32),
        a: Placed,
        b: Placed,
        id: u32,
        ci: int,
        ms: Seq<Manifold>,
    ) -> bool {
        exists|p: Placed, raw: Seq<Manifold>| #[trigger]
            place.ensures((a, self.children(id)[ci]), p) && #[trigger] self.second_side(
                place,
                test,
                ids,
                p,
                b,
                raw,
            ) && tagged_all(raw, ms, ci)
    }

    /// What a pair of shapes gives: compounds are tested child by child, the first
    /// one first, and every manifold carries the tag of its child.
    pub open spec fn pair_gives<
        P: Fn(Placed, CompoundChild) -> Placed,
        Q: Fn(Scalar, Placed, Placed) -> SphereGap,
        L: Fn(Route, (u32, u32), Placed, Placed) -> Option<Touch>,
    >(
        &self,
        place: P,
        test: PairTests<Q, L>,
        ids: (u32, u32),
        a: Placed,
        b: Placed,
        ms: Seq<Manifold>,
    ) -> bool {
        match a.shape {
            Shape::Compound { compound, half } => exists|parts: Seq<Seq<Manifold>>|
                #![trigger joined(parts)]
                {
                    &&& parts.len() == self.children(compound).len()
                    &&& forall|ci: int|
                        0 <= ci < parts.len() ==> self.first_child(
                            place,
                            test,
                            ids,
                            a,
                            b,
                            compound,
                            ci,
                            #[trigger] parts[ci],
                        )
                    &&& ms == joined(parts)
                },
            _ => self.second_side(place, test, ids, a, b, ms),
        }
    }

    /// The children can be numbered.
    pub open spec fn numbered(&self) -> bool {
        forall|id: int|
            0 <= id < self.compounds.items@.len() ==> (#[trigger] self.compounds.items@[id])@.len()
                <= u32::MAX
    }

    fn test_simple<
        Q: Fn(Scalar, Placed, Placed) -> SphereGap,
        L: Fn(Route, (u32, u32), Placed, Placed) -> Option<Touch>,
    >(
        &self,
        test: &PairTests<Q, L>,
        ids: (u32, u32),
        a: Placed,
        b: Placed,
    ) -> (ms: Vec<Manifold>)
        requires
            total_tests(*test),
        ensures
            tested(self.skin, *test, ids, a, b, ms@),
    {
        let mut ms: Vec<Manifold> = Vec::new();
        let r = route(&a.shape, &b.shape);
        let o = match r {
            Route::Nothing => None,
            Route::SphereSphere => {
                let g = (test.spheres)(self.skin, a, b);
                let o = g.touch();
                assert(test.spheres.ensures((self.skin, a, b), g) && g.gives(o));
                o
            },
            _ => (test.shapes)(r, ids, a, b),
        };
        assert(finds(self.skin, *test, r, ids, a, b, o));
        match assemble(ids, o) {
            Some(m) => {
                ms.push(m);
                assert(ms@ =~= seq![m]);
            },
            None => {
                assert(ms@ =~= Seq::<Manifold>::empty());
            },
        }
        ms
    }

    fn second_side_of<
        P: Fn(Placed, CompoundChild) -> Placed,
        Q: Fn(Scalar, Placed, Placed) -> SphereGap,
        L: Fn(Route, (u32, u32), Placed, Placed) -> Option<Touch>,
    >(
        &self,
        place: &P,
        test: &PairTests<Q, L>,
        ids: (u32, u32),
        a: Placed,
        b: Placed,
    ) -> (ms: Vec<Manifold>)
        requires
            self.numbered(),
            forall|x: Placed, c: CompoundChild| #[trigger] place.requires((x, c)),
            total_tests(*test),
        ensures
            self.second_side(*place, *test, ids, a, b, ms@),
    {
        let id = match b.shape {
            Shape::Compound { compound, .. } => compound,
            _ => {
                return self.test_simple(test, ids, a, b);
            },
        };
        let kids = self.compound_children(id);
        let mut ms: Vec<Manifold> = Vec::new();
        let ghost mut parts: Seq<Seq<Manifold>> = Seq::empty();
        assert(ms@ =~= joined(parts));
        assert(kids@.len() <= u32::MAX);
        let mut ci: usize = 0;
        while ci < kids.len()
            invariant
                ci <= kids@.len(),
                kids@.len() <= u32::MAX,
                kids@ == self.children(id),
                forall|x: Placed, c: CompoundChild| #[trigger] place.requires((x, c)),
                total_tests(*test),
                parts.len() == ci,
                forall|k: int|
                    0 <= k < parts.len() ==> self.second_child(
                        *place,
                        *test,
                        ids,
                        a,
                        b,
                        id,
                        k,
                        #[trigger] parts[k],
                    ),
                ms@ == joined(parts),
            decreases kids@.len() - ci,
        {
            let p = place(b, kids[ci]);
            let mut part = self.test_simple(test, ids, a, p);
            let ghost raw = part@;
            tag_child_features(&mut part, 0, ci);
            proof {
                let ghost old_parts = parts;
                parts = parts.push(part@);
                assert(parts.drop_last() =~= old_parts);
                assert(tagged_all(raw, part@, ci as int));
                assert(place.ensures((b, self.children(id)[ci as int]), p));
                assert(tested(self.skin, *test, ids, a, p, raw));
                assert(self.second_child(*place, *test, ids, a, b, id, ci as int, part@));
            }
            ms.append(&mut part);
            ci += 1;
        }
        ms
    }

    /// Tests a pair of shapes and adds what it gives. `place` puts a child of a
    /// compound into the world, `test` holds the tests of shapes that are no compounds.
    pub fn process_pair_shaped<
        P: Fn(Placed, CompoundChild) -> Placed,
        Q: Fn(Scalar, Placed, Placed) -> SphereGap,
        L: Fn(Route, (u32, u32), Placed, Placed) -> Option<Touch>,
    >(
        &self,
        place: &P,
        test: &PairTests<Q, L>,
        ids: (u32, u32),
        a: Placed,
        b: Placed,
        out: &mut Vec<Manifold>,
    )
        requires
            self.numbered(),
            forall|x: Placed, c: CompoundChild| #[trigger] place.requires((x, c)),
            total_tests(*test),
        ensures
            exists|ms: Seq<Manifold>| #[trigger]
                self.pair_gives(*place, *test, ids, a, b, ms) && final(out)@ == old(out)@ + ms,
    {
        let ghost before = out@;
        let id = match a.shape {
            Shape::Compound { compound, .. } => compound,
            _ => {
                let mut ms = self.second_side_of(place, test, ids, a, b);
                assert(self.pair_gives(*place, *test, ids, a, b, ms@));
                out.append(&mut ms);
                return;
            },
        };
        let kids = self.compound_children(id);
        let ghost mut parts: Seq<Seq<Manifold>> = Seq::empty();
        assert(out@ =~= before + joined(parts));
        assert(kids@.len() <= u32::MAX);
        let mut ci: usize = 0;
        while ci < kids.len()
            invariant
                ci <= kids@.len(),
                kids@.len() <= u32::MAX,
                kids@ == self.children(id),
                self.numbered(),
                forall|x: Placed, c: CompoundChild| #[trigger] place.requires((x, c)),
                total_tests(*test),
                parts.len() == ci,
                forall|k: int|
                    0 <= k < parts.len() ==> self.first_child(
                        *place,
                        *test,
                        ids,
                        a,
                        b,
                        id,
                        k,
                        #[trigger] parts[k],
                    ),
                out@ == before + joined(parts),
            decreases kids@.len() - ci,
        {
            let p = place(a, kids[ci]);
            let mut part = self.second_side_of(place, test, ids, p, b);
            let ghost raw = part@;
            tag_child_features(&mut part, 0, ci);
            let ghost old_parts = parts;
            let ghost added = part@;
            proof {
                parts = parts.push(added);
                assert(parts.drop_last() =~= old_parts);
                assert(tagged_all(raw, added, ci as int));
                assert(place.ensures((a, self.children(id)[ci as int]), p));
                assert(self.second_side(*place, *test, ids, p, b, raw));
                assert(self.first_child(*place, *test, ids, a, b, id, ci as int, added));
            }
            out.append(&mut part);
            assert(out@ =~= before + joined(parts));
            ci += 1;
        }
        assert(self.pair_gives(*place, *test, ids, a, b, joined(parts)));
    }

    /// What pair `k` gives.
    pub open spec fn gives<
        P: Fn(Placed, CompoundChild) -> Placed,
        Q: Fn(Scalar, Placed, Placed) -> SphereGap,
        L: Fn(Route, (u32, u32), Placed, Placed) -> Option<Touch>,
    >(
        &self,
        place: P,
        test: PairTests<Q, L>,
        bodies: Seq<Placed>,
        pairs: Seq<(u32, u32)>,
        k: int,
        ms: Seq<Manifold>,
    ) -> bool {
        self.pair_gives(
            place,
            test,
            pairs[k],
            bodies[pairs[k].0 as int],
            bodies[pairs[k].1 as int],
            ms,
        )
    }

    /// What the pairs give: what each of them gives, in their order.
    #[verifier::opaque]
    pub open spec fn collided<
        P: Fn(Placed, CompoundChild) -> Placed,
        Q: Fn(Scalar, Placed, Placed) -> SphereGap,
        L: Fn(Route, (u32, u32), Placed, Placed) -> Option<Touch>,
    >(
        &self,
        place: P,
        test: PairTests<Q, L>,
        bodies: Seq<Placed>,
        pairs: Seq<(u32, u32)>,
        ms: Seq<Manifold>,
    ) -> bool {
        exists|parts: Seq<Seq<Manifold>>|
            #![trigger joined(parts)]
            parts.len() == pairs.len() && ms == joined(parts) && forall|k: int|
                0 <= k < parts.len() ==> self.gives(
                    place,
                    test,
                    bodies,
                    pairs,
                    k,
                    #[trigger] parts[k],
                )
    }

    /// Tests the pairs in order and replaces what was found before.
    pub fn collide<
        P: Fn(Placed, CompoundChild) -> Placed,
        Q: Fn(Scalar, Placed, Placed) -> SphereGap,
        L: Fn(Route, (u32, u32), Placed, Placed) -> Option<Touch>,
    >(
        &self,
        place: &P,
        test: &PairTests<Q, L>,
        bodies: &[Placed],
        pairs: &[(u32, u32)],
        out: &mut Vec<Manifold>,
    )
        requires
            self.numbered(),
            forall|k: int|
                0 <= k < pairs@.len() ==> (#[trigger] pairs@[k]).0 < bodies@.len() && pairs@[k].1
                    < bodies@.len(),
            forall|x: Placed, c: CompoundChild| #[trigger] place.requires((x, c)),
            total_tests(*test),
        ensures
            self.collided(*place, *test, bodies@, pairs@, final(out)@),
    {
        out.clear();
        let ghost mut parts: Seq<Seq<Manifold>> = Seq::empty();
        assert(out@ =~= joined(parts));
        let mut k: usize = 0;
        while k < pairs.len()
            invariant
                k <= pairs@.len(),
                self.numbered(),
                forall|k: int|
                    0 <= k < pairs@.len() ==> (#[trigger] pairs@[k]).0 < bodies@.len() && pairs@[k].1
                        < bodies@.len(),
                forall|x: Placed, c: CompoundChild| #[trigger] place.requires((x, c)),
                total_tests(*test),
                parts.len() == k,
                out@ == joined(parts),
                forall|j: int|
                    0 <= j < parts.len() ==> self.gives(
                        *place,
                        *test,
                        bodies@,
                        pairs@,
                        j,
                        #[trigger] parts[j],
                    ),
            decreases pairs@.len() - k,
        {
            let ids = pairs[k];
            let ghost before = out@;
            assert(pairs@[k as int].0 < bodies@.len());
            self.process_pair_shaped(
                place,
                test,
                ids,
                bodies[ids.0 as usize],
                bodies[ids.1 as usize],
                out,
            );
            proof {
                let ms = choose|ms: Seq<Manifold>| #[trigger]
                    self.pair_gives(
                        *place,
                        *test,
                        ids,
                        bodies@[ids.0 as int],
                        bodies@[ids.1 as int],
                        ms,
                    ) && out@ == before + ms;
                let old_parts = parts;
                parts = parts.push(ms);
                assert(parts.drop_last() =~= old_parts);
                assert(self.gives(*place, *test, bodies@, pairs@, k as int, ms));
            }
            k += 1;
        }
        proof {
            reveal(DefaultNarrowPhase::collided);
        }
    }
}

/// How often the nearest point of a capsule's axis is improved.
pub const REACH_ROUNDS: usize = 4;

/// The points of an approach: each follows from the one before it, and none but the
/// last two may be as good as alike.
pub open spec fn approach<N: Fn(Vec3) -> Vec3, D: Fn(Vec3, Vec3) -> bool>(
    next: N,
    alike: D,
    points: Seq<Vec3>,
) -> bool {
    forall|k: int|
        0 <= k < points.len() - 1 ==> {
            &&& next.ensures((#[trigger] points[k],), points[k + 1])
            &&& k < points.len() - 2 ==> alike.ensures((points[k], points[k + 1]), false)
        }
}

/// The approach ended: its last two points are alike, or all rounds were used.
pub open spec fn approach_ends<D: Fn(Vec3, Vec3) -> bool>(alike: D, points: Seq<Vec3>) -> bool {
    let n = points.len() as int;
    &&& 2 <= n <= REACH_ROUNDS + 1
    &&& alike.ensures((points[n - 2], points[n - 1]), true) || (n == REACH_ROUNDS + 1
        && alike.ensures((points[n - 2], points[n - 1]), false))
}

/// Approaches the point of a capsule's axis nearest to a solid. `next` goes from a
/// point to the nearest one of the solid and back to the axis.
pub fn axis_reach<N: Fn(Vec3) -> Vec3, D: Fn(Vec3, Vec3) -> bool>(
    start: Vec3,
    next: &N,
    alike: &D,
) -> (p: Vec3)
    requires
        forall|v: Vec3| #[trigger] next.requires((v,)),
        forall|u: Vec3, v: Vec3| #[trigger] alike.requires((u, v)),
    ensures
        exists|points: Seq<Vec3>| #[trigger]
            approach(*next, *alike, points) && approach_ends(*alike, points) && points[0] == start
                && points.last() == p,
{
    let mut p: Vec3 = start;
    let ghost mut points: Seq<Vec3> = seq![start];
    let mut n: usize = 0;
    loop
        invariant
            n < REACH_ROUNDS,
            points.len() == n + 1,
            points[0] == start,
            points.last() == p,
            approach(*next, *alike, points),
            n > 0 ==> alike.ensures((points[n - 1], points[n as int]), false),
            forall|v: Vec3| #[trigger] next.requires((v,)),
            forall|u: Vec3, v: Vec3| #[trigger] alike.requires((u, v)),
        decreases REACH_ROUNDS - n,
    {
        let q = next(p);
        let done = alike(p, q);
        let ghost old_points = points;
        proof {
            points = points.push(q);
            assert forall|k: int| 0 <= k < points.len() - 1 implies {
                &&& next.ensures((#[trigger] points[k],), points[k + 1])
                &&& k < points.len() - 2 ==> alike.ensures((points[k], points[k + 1]), false)
            } by {
                if k < n {
                    assert(points[k] == old_points[k] && points[k + 1] == old_points[k + 1]);
                    assert(next.ensures((old_points[k],), old_points[k + 1]));
                }
            }
        }
        p = q;
        n += 1;
        if done || n == REACH_ROUNDS {
            assert(approach(*next, *alike, points));
            assert(approach_ends(*alike, points));
            return p;
        }
    }
}

} // verus!
