//! What cutting clouds of points and faces promises.

use crate::contact::ContactPoint;
use crate::cut::{
    all_straddling, cell_chain, cell_of, cell_step, clip_halfspace, corners_lost, corners_of,
    crossings_of, cut_cloud, fracture_voronoi_hull, hull_2d_on_plane, hull_corners, located,
    plane_keys, side_chain, straddling, straddling_pairs, trimmed, turns_by, wide_pairs,
};
use crate::dispatch::ClipProbe;
use crate::guarantees::choosing::no_later;
use crate::order::{goes_before, stable_order_of};
use crate::poly_pair::{
    after, clip, clip_gives, cut_by_edge, cut_by_ring, dots_of, faces_meet, heights_measured,
    incident_ring, sides_measured, ClipArith, ClipState,
};
use crate::polytope::WorldPoly;
use crate::sat::{clipped, crossings, within_limit, ClipSide, ClipVertex};
use crate::scalar::{Scalar, Vec3};
use crate::select::{alike_by, distinct_of, indices_where, ints_usize, lemma_indices_where};
use vstd::prelude::*;

verus! {

proof fn lemma_straddling(beyond: Seq<bool>, i: int, j: int, p: (int, int))
    requires
        -1 <= i < beyond.len(),
        0 <= j <= beyond.len(),
    ensures
        straddling(beyond, i, j).contains(p) <==> 0 <= p.0 < p.1 < beyond.len() && beyond[p.0]
            != beyond[p.1] && (p.0 < i || (p.0 == i && p.1 < j)),
    decreases i + 1, j,
{
    let all = straddling(beyond, i, j);
    if i < 0 {
    } else if j <= i + 1 {
        lemma_straddling(beyond, i - 1, beyond.len() as int, p);
    } else {
        lemma_straddling(beyond, i, j - 1, p);
        let before = straddling(beyond, i, j - 1);
        if beyond[i] != beyond[j - 1] {
            assert(all == before.push((i, j - 1)));
            if all.contains(p) {
                let k = choose|k: int| 0 <= k < all.len() && all[k] == p;
                if k < before.len() {
                    assert(before[k] == p);
                    assert(before.contains(p));
                }
            }
            if before.contains(p) {
                let k = choose|k: int| 0 <= k < before.len() && before[k] == p;
                assert(all[k] == p);
            }
            if p == (i, j - 1) {
                assert(all[all.len() - 1] == p);
            }
        }
    }
}

/// The pairs to cut between are exactly those of a point beyond the plane and one that is
/// not, the lower number first.
pub proof fn cuts_lie_between_the_two_sides(beyond: &[bool], r: Vec<(usize, usize)>, i: usize, j: usize)
    requires
        call_ensures(straddling_pairs, (beyond,), r),
    ensures
        r@.contains((i, j)) <==> i < j && j < beyond@.len() && beyond@[i as int] != beyond@[j as int],
{
    let all = all_straddling(beyond@);
    lemma_straddling(beyond@, beyond@.len() - 1, beyond@.len() as int, (i as int, j as int));
    let wide = wide_pairs(r@);
    assert(wide == all);
    if r@.contains((i, j)) {
        let k = choose|k: int| 0 <= k < r@.len() && r@[k] == (i, j);
        assert(wide[k] == (i as int, j as int));
    }
    if all.contains((i as int, j as int)) {
        let k = choose|k: int| 0 <= k < wide.len() && wide[k] == (i as int, j as int);
        assert(r@[k] == (i, j));
    }
}

/// Three neighbours of the chain, from place `k` on, turn left.
pub open spec fn left_at(chain: Seq<int>, not_left: spec_fn(int, int, int) -> bool, k: int) -> bool {
    !not_left(chain[k], chain[k + 1], chain[k + 2])
}

/// Every three neighbours of the chain turn left.
pub open spec fn turns_left(chain: Seq<int>, not_left: spec_fn(int, int, int) -> bool) -> bool {
    forall|k: int| 0 <= k < chain.len() - 2 ==> #[trigger] left_at(chain, not_left, k)
}

proof fn lemma_trimmed(chain: Seq<int>, p: int, not_left: spec_fn(int, int, int) -> bool)
    requires
        turns_left(chain, not_left),
    ensures
        ({
            let t = trimmed(chain, p, not_left);
            &&& turns_left(t.push(p), not_left)
            &&& t.len() <= chain.len()
            &&& t == chain.take(t.len() as int)
            &&& chain.len() > 0 ==> t.len() > 0
        }),
    decreases chain.len(),
{
    let t = trimmed(chain, p, not_left);
    if chain.len() >= 2 && not_left(chain[chain.len() - 2], chain[chain.len() - 1], p) {
        let d = chain.drop_last();
        assert(turns_left(d, not_left)) by {
            assert forall|k: int| 0 <= k < d.len() - 2 implies #[trigger] left_at(d, not_left, k) by {
                assert(left_at(chain, not_left, k));
            }
        }
        lemma_trimmed(d, p, not_left);
        assert(d.take(t.len() as int) =~= chain.take(t.len() as int));
    } else {
        assert(t == chain);
        assert(chain.take(chain.len() as int) =~= chain);
        let c = t.push(p);
        assert forall|k: int| 0 <= k < c.len() - 2 implies #[trigger] left_at(c, not_left, k) by {
            assert(c[k] == chain[k] && c[k + 1] == chain[k + 1]);
            if k < chain.len() - 2 {
                assert(left_at(chain, not_left, k));
                assert(c[k + 2] == chain[k + 2]);
            }
        }
    }
}

proof fn lemma_chain(order: Seq<int>, not_left: spec_fn(int, int, int) -> bool, k: int)
    requires
        0 <= k <= order.len(),
    ensures
        ({
            let c = side_chain(order, not_left, k);
            &&& turns_left(c, not_left)
            &&& k > 0 ==> c.len() > 0 && c[0] == order[0] && c.last() == order[k - 1]
            &&& forall|x: int| 0 <= x < c.len() ==> order.contains(#[trigger] c[x])
        }),
    decreases k,
{
    if k > 0 {
        lemma_chain(order, not_left, k - 1);
        let before = side_chain(order, not_left, k - 1);
        lemma_trimmed(before, order[k - 1], not_left);
        let t = trimmed(before, order[k - 1], not_left);
        let c = side_chain(order, not_left, k);
        assert(c == t.push(order[k - 1]));
        if k > 1 {
            assert(t[0] == before[0]);
        }
        assert forall|x: int| 0 <= x < c.len() implies order.contains(#[trigger] c[x]) by {
            if x < t.len() {
                assert(c[x] == before[x]);
            } else {
                assert(order[k - 1] == c[x]);
            }
        }
    }
}

/// At place `k` of the chain the points do not turn anything but left.
pub open spec fn keeps_left<F: Fn((Scalar, Scalar), (Scalar, Scalar), (Scalar, Scalar)) -> bool>(
    coords: Seq<(Scalar, Scalar)>,
    not_left: F,
    chain: Seq<int>,
    k: int,
) -> bool {
    !not_left.ensures((coords[chain[k]], coords[chain[k + 1]], coords[chain[k + 2]]), true)
}

/// The corners are those of two chains, each without its end, that turn left throughout:
/// one from the first point to the last, one back.
pub open spec fn outlines<F: Fn((Scalar, Scalar), (Scalar, Scalar), (Scalar, Scalar)) -> bool>(
    coords: Seq<(Scalar, Scalar)>,
    not_left: F,
    r: Seq<usize>,
    lower: Seq<int>,
    upper: Seq<int>,
) -> bool {
    &&& lower.len() > 0 && upper.len() > 0
    &&& r.len() == lower.len() + upper.len() - 2
    &&& forall|x: int| 0 <= x < lower.len() - 1 ==> #[trigger] r[x] == lower[x]
    &&& forall|x: int|
        0 <= x < upper.len() - 1 ==> #[trigger] upper[x] == r[lower.len() - 1 + x]
    &&& lower[0] == upper.last() && upper[0] == lower.last()
    &&& forall|k: int|
        0 <= k < lower.len() - 2 ==> #[trigger] keeps_left(coords, not_left, lower, k)
    &&& forall|k: int|
        0 <= k < upper.len() - 2 ==> #[trigger] keeps_left(coords, not_left, upper, k)
    &&& forall|i: int|
        #![trigger coords[i]]
        0 <= i < coords.len() ==> coords[lower[0]].0.rank() <= coords[i].0.rank()
            && coords[i].0.rank() <= coords[upper[0]].0.rank()
}

/// The outline of points in a plane: from the first of the sorted points to the last and
/// back, each way turning left at every point between, each way without its end.
pub proof fn outlines_turn_left<F: Fn((Scalar, Scalar), (Scalar, Scalar), (Scalar, Scalar)) -> bool>(
    coords: &[(Scalar, Scalar)],
    not_left: &F,
    r: Vec<usize>,
)
    requires
        call_ensures(hull_2d_on_plane::<F>, (coords, not_left), r),
        coords@.len() > 0,
    ensures
        exists|lower: Seq<int>, upper: Seq<int>| #[trigger]
            outlines(coords@, *not_left, r@, lower, upper),
{
    let order = choose|order: Seq<int>| #[trigger]
        stable_order_of(plane_keys(coords@), order) && ints_usize(r@) == hull_corners(
            order,
            turns_by(*not_left, coords@),
        );
    lemma_outline(coords@, *not_left, r@, order);
}

proof fn lemma_outline<F: Fn((Scalar, Scalar), (Scalar, Scalar), (Scalar, Scalar)) -> bool>(
    coords: Seq<(Scalar, Scalar)>,
    not_left: F,
    r: Seq<usize>,
    order: Seq<int>,
)
    requires
        coords.len() > 0,
        stable_order_of(plane_keys(coords), order),
        ints_usize(r) == hull_corners(order, turns_by(not_left, coords)),
    ensures
        exists|lower: Seq<int>, upper: Seq<int>| #[trigger]
            outlines(coords, not_left, r, lower, upper),
{
    let turn = turns_by(not_left, coords);
    let n = order.len() as int;
    let back = order.reverse();
    lemma_chain(order, turn, n);
    lemma_chain(back, turn, n);
    let lower = side_chain(order, turn, n);
    let upper = side_chain(back, turn, n);
    let all = hull_corners(order, turn);
    let ints = ints_usize(r);
    assert(all == lower.drop_last() + upper.drop_last());
    assert(ints.len() == r.len());
    assert forall|x: int| 0 <= x < lower.len() - 1 implies #[trigger] r[x] == lower[x] by {
        assert(ints[x] == r[x]);
        assert(all[x] == lower.drop_last()[x]);
    }
    assert forall|x: int| 0 <= x < upper.len() - 1 implies #[trigger] upper[x] == r[lower.len() - 1
        + x] by {
        let y = lower.len() - 1 + x;
        assert(ints[y] == r[y]);
        assert(all[y] == upper.drop_last()[x]);
    }
    assert(back[0] == order[n - 1] && back[n - 1] == order[0]);
    assert forall|k: int| 0 <= k < lower.len() - 2 implies #[trigger] keeps_left(
        coords,
        not_left,
        lower,
        k,
    ) by {
        assert(left_at(lower, turn, k));
    }
    assert forall|k: int| 0 <= k < upper.len() - 2 implies #[trigger] keeps_left(
        coords,
        not_left,
        upper,
        k,
    ) by {
        assert(left_at(upper, turn, k));
    }
    let keys = plane_keys(coords);
    assert forall|i: int| #![trigger coords[i]] 0 <= i < coords.len() implies coords[lower[0]].0.rank()
        <= coords[i].0.rank() && coords[i].0.rank() <= coords[upper[0]].0.rank() by {
        assert(order.contains(i));
        let q = choose|q: int| 0 <= q < order.len() && order[q] == i;
        if q > 0 {
            assert(goes_before(keys, order[0], order[q]));
        }
        if q < n - 1 {
            assert(goes_before(keys, order[q], order[n - 1]));
        }
        assert(0 <= order[0] < keys.len() && 0 <= order[n - 1] < keys.len());
    }
    assert(outlines(coords, not_left, r, lower, upper));
}

/// Cutting a cloud by a plane keeps one of each kind of the points inside and of the cuts
/// between its two sides: what is left is from them, no two of it are alike, and every
/// point inside is left or alike to one that is; with at most three cuts so is every cut.
pub proof fn cut_clouds_keep_what_is_inside<
    X: Fn(Vec3, Vec3) -> Vec3,
    P: Fn(Vec3) -> (Scalar, Scalar),
    L: Fn((Scalar, Scalar), (Scalar, Scalar), (Scalar, Scalar)) -> bool,
    F: Fn(Vec3, Vec3) -> bool,
>(
    points: &[Vec3],
    inside: &[bool],
    beyond: &[bool],
    crossing: &X,
    plane: &P,
    not_left: &L,
    alike: F,
    r: Option<Vec<Vec3>>,
    i: int,
)
    requires
        call_ensures(
            clip_halfspace::<X, P, L, F>,
            (points, inside, beyond, crossing, plane, not_left, alike),
            r,
        ),
        inside@.len() == points@.len(),
        r is Some,
    ensures
        forall|x: int, y: int|
            #![trigger r.unwrap()@[x], r.unwrap()@[y]]
            0 <= x < y < r.unwrap()@.len() ==> !alike.ensures(
                (r.unwrap()@[x], r.unwrap()@[y]),
                true,
            ),
        0 <= i < points@.len() && inside@[i] ==> exists|x: int|
            #![trigger r.unwrap()@[x]]
            0 <= x < r.unwrap()@.len() && near_through(alike, r.unwrap()@[x], points@[i]),
        exists|cross: Seq<Vec3>|
            #![trigger cross.len()]
            {
                &&& cross.len() == all_straddling(beyond@).len()
                &&& forall|k: int|
                    #![trigger cross[k]]
                    0 <= k < cross.len() ==> crossing.ensures(
                        (
                            points@[all_straddling(beyond@)[k].0],
                            points@[all_straddling(beyond@)[k].1],
                        ),
                        cross[k],
                    )
                &&& cross.len() <= 3 ==> forall|k: int|
                    #![trigger cross[k]]
                    0 <= k < cross.len() ==> exists|x: int|
                        #![trigger r.unwrap()@[x]]
                        0 <= x < r.unwrap()@.len() && (r.unwrap()@[x] == cross[k] || alike.ensures(
                            (r.unwrap()@[x], cross[k]),
                            true,
                        ))
                &&& forall|x: int|
                    #![trigger r.unwrap()@[x]]
                    0 <= x < r.unwrap()@.len() ==> (exists|j: int|
                        #![trigger points@[j]]
                        0 <= j < points@.len() && inside@[j] && points@[j] == r.unwrap()@[x])
                        || cross.contains(r.unwrap()@[x])
            },
{
    let cloud = r.unwrap()@;
    let f = alike_by(alike);
    let cross = choose|cross: Seq<Vec3>|
        {
            &&& #[trigger] crossings_of(*crossing, points@, all_straddling(beyond@), cross)
            &&& exists|corners: Seq<Vec3>| #[trigger]
                corners_of(*plane, *not_left, cross, corners) && cloud == cut_cloud(
                    points@,
                    inside@,
                    corners,
                    f,
                )
        };
    let corners = choose|corners: Seq<Vec3>| #[trigger]
        corners_of(*plane, *not_left, cross, corners) && cloud == cut_cloud(
            points@,
            inside@,
            corners,
            f,
        );
    assert(cross.len() == all_straddling(beyond@).len());
    let kept = distinct_of(points@, inside@, f, points@.len() as int);
    let both = kept + corners;
    let every = Seq::new(both.len(), |i: int| true);
    crate::guarantees::choosing::lemma_distinct(points@, inside@, f, points@.len() as int);
    crate::guarantees::choosing::lemma_distinct(both, every, f, both.len() as int);
    lemma_corners(*plane, *not_left, cross, corners);
    assert forall|x: int, y: int|
        #![trigger cloud[x], cloud[y]]
        0 <= x < y < cloud.len() implies !alike.ensures((cloud[x], cloud[y]), true) by {
        assert(!f(cloud[x], cloud[y]));
    }
    if 0 <= i < points@.len() && inside@[i] {
        assert(points@[i] == points@[i]);
        let k = choose|k: int|
            0 <= k < kept.len() && ((#[trigger] kept[k]) == points@[i] || f(kept[k], points@[i]));
        assert(both[k] == kept[k]);
        assert(every[k]);
        let x = choose|x: int|
            0 <= x < cloud.len() && ((#[trigger] cloud[x]) == both[k] || f(cloud[x], both[k]));
        assert(linked(alike, cloud[x], kept[k], points@[i]));
    }
    assert forall|k: int|
        #![trigger cross[k]]
        0 <= k < cross.len() && cross.len() <= 3 implies exists|x: int|
        #![trigger cloud[x]]
        0 <= x < cloud.len() && (cloud[x] == cross[k] || alike.ensures((cloud[x], cross[k]), true)) by {
        let q = kept.len() + k;
        assert(both[q] == corners[k]);
        assert(every[q]);
        let x = choose|x: int|
            0 <= x < cloud.len() && ((#[trigger] cloud[x]) == both[q] || f(cloud[x], both[q]));
        assert(cloud[x] == cross[k] || alike.ensures((cloud[x], cross[k]), true));
    }
    assert forall|x: int| #![trigger cloud[x]] 0 <= x < cloud.len() implies (exists|j: int|
        #![trigger points@[j]]
        0 <= j < points@.len() && inside@[j] && points@[j] == cloud[x]) || cross.contains(cloud[x]) by {
        let q = choose|q: int| 0 <= q < both.len() && every[q] && #[trigger] both[q] == cloud[x];
        if q < kept.len() {
            assert(kept[q] == cloud[x]);
            let j = choose|j: int|
                0 <= j < points@.len() && inside@[j] && #[trigger] points@[j] == kept[q];
            assert(points@[j] == cloud[x]);
        } else {
            assert(corners[q - kept.len()] == cloud[x]);
        }
    }
}

/// The first is the same as or alike to the middle one, and that to the last.
pub open spec fn linked<F: Fn(Vec3, Vec3) -> bool>(alike: F, a: Vec3, m: Vec3, b: Vec3) -> bool {
    (a == m || alike.ensures((a, m), true)) && (m == b || alike.ensures((m, b), true))
}

/// The two are the same, alike, or alike to something between.
pub open spec fn near_through<F: Fn(Vec3, Vec3) -> bool>(alike: F, a: Vec3, b: Vec3) -> bool {
    exists|m: Vec3| #[trigger] linked(alike, a, m, b)
}

proof fn lemma_corners<
    P: Fn(Vec3) -> (Scalar, Scalar),
    L: Fn((Scalar, Scalar), (Scalar, Scalar), (Scalar, Scalar)) -> bool,
>(plane: P, not_left: L, cross: Seq<Vec3>, corners: Seq<Vec3>)
    requires
        corners_of(plane, not_left, cross, corners),
    ensures
        cross.len() <= 3 ==> corners == cross,
        forall|x: int| #![trigger corners[x]] 0 <= x < corners.len() ==> cross.contains(corners[x]),
{
    if cross.len() > 3 {
        let (coords, order) = choose|coords: Seq<(Scalar, Scalar)>, order: Seq<int>|
            {
                &&& #[trigger] located(plane, cross, coords)
                &&& #[trigger] stable_order_of(plane_keys(coords), order)
                &&& corners == hull_corners(order, turns_by(not_left, coords)).map_values(
                    |i: int| cross[i],
                )
            };
        let turn = turns_by(not_left, coords);
        let all = hull_corners(order, turn);
        let n = order.len() as int;
        lemma_chain(order, turn, n);
        lemma_chain(order.reverse(), turn, n);
        let lower = side_chain(order, turn, n);
        let upper = side_chain(order.reverse(), turn, n);
        assert forall|x: int| #![trigger corners[x]] 0 <= x < corners.len() implies cross.contains(
            corners[x],
        ) by {
            let c = all[x];
            if x < lower.len() - 1 {
                assert(c == lower[x]);
                assert(order.contains(c));
            } else {
                let y = x - (lower.len() - 1);
                assert(c == upper[y]);
                assert(order.reverse().contains(c));
                let q = choose|q: int| 0 <= q < order.len() && order.reverse()[q] == c;
                assert(order[n - 1 - q] == c);
            }
            let q = choose|q: int| 0 <= q < order.len() && order[q] == c;
            assert(0 <= order[q] < plane_keys(coords).len());
            assert(cross[c] == corners[x]);
        }
    } else {
        assert forall|x: int| #![trigger corners[x]] 0 <= x < corners.len() implies cross.contains(
            corners[x],
        ) by {
            assert(cross[x] == corners[x]);
        }
    }
}

/// The cell of a seed in a hull: all points of the hull, cut once for every other seed in
/// turn that does not coincide with it, until nothing is left.
pub proof fn cells_are_cut_by_every_other_seed<
    C: Fn(usize, usize) -> bool,
    K: Fn(Vec<Vec3>, usize, usize) -> Vec<Vec3>,
>(points: &Vec<Vec3>, seeds: usize, coincide: C, clip: K, out: Vec<Vec<Vec3>>, i: int)
    requires
        call_ensures(fracture_voronoi_hull::<C, K>, (points, seeds, coincide, clip), out),
        0 <= i < seeds,
    ensures
        out@.len() == seeds,
        exists|steps: Seq<Seq<Vec3>>|
            #![trigger steps.len()]
            {
                &&& steps.len() == seeds + 1
                &&& steps[0] == points@
                &&& steps.last() == out@[i]@
                &&& forall|j: int|
                    #![trigger steps[j]]
                    0 <= j < seeds ==> {
                        &&& j == i || steps[j].len() == 0 ==> steps[j + 1] == steps[j]
                        &&& j != i && steps[j].len() > 0 ==> cut_once(
                            coincide,
                            clip,
                            i as usize,
                            j as usize,
                            steps[j],
                            steps[j + 1],
                        )
                    }
            },
{
    assert(cell_of(points@, coincide, clip, i as usize, seeds, out@[i]@));
    let chain = choose|chain: Seq<Seq<Vec3>>| #[trigger]
        cell_chain(points@, coincide, clip, i as usize, seeds, chain) && out@[i]@
            == chain[seeds as int];
    assert(chain.len() == seeds + 1);
    assert forall|j: int| #![trigger chain[j]] 0 <= j < seeds implies {
        &&& j == i || chain[j].len() == 0 ==> chain[j + 1] == chain[j]
        &&& j != i && chain[j].len() > 0 ==> cut_once(
            coincide,
            clip,
            i as usize,
            j as usize,
            chain[j],
            chain[j + 1],
        )
    } by {
        assert(cell_step(chain[j], chain[j + 1], coincide, clip, i as usize, j as usize));
    }
}

/// One other seed: it coincides and nothing is cut, or it does not and `clip` cut what was
/// there.
pub open spec fn cut_once<C: Fn(usize, usize) -> bool, K: Fn(Vec<Vec3>, usize, usize) -> Vec<Vec3>>(
    coincide: C,
    clip: K,
    i: usize,
    j: usize,
    before: Seq<Vec3>,
    after: Seq<Vec3>,
) -> bool {
    ||| coincide.ensures((i, j), true) && after == before
    ||| coincide.ensures((i, j), false) && exists|v: Vec<Vec3>, w: Vec<Vec3>|
        v@ == before && w@ == after && #[trigger] clip.ensures((v, i, j), w)
}

/// The contacts are exactly the vertices of what is left of the incident face that are no
/// higher above the reference face `rf` than the limit, as deep as they are below it.
pub open spec fn below_face<
    D: Fn(Vec3, Vec3) -> Scalar,
    M: Fn(&Vec<Vec3>) -> Vec3,
    P: Fn(Vec3, Vec3, Vec3, Vec3) -> Option<Vec3>,
    C: Fn(Vec3, Vec3, Vec3, Vec3) -> ClipSide,
    H: Fn(Vec3, Vec3, Vec3) -> Scalar,
>(
    arith: ClipArith<D, M, P, C, H>,
    reference: &WorldPoly,
    limit: Scalar,
    r: Seq<ContactPoint>,
    rf: int,
    left: Seq<ClipVertex>,
    heights: Seq<Scalar>,
    from: Seq<int>,
) -> bool {
    &&& 0 <= rf < reference.face_normal@.len()
    &&& heights.len() == left.len()
    &&& forall|i: int|
        #![trigger heights[i]]
        0 <= i < left.len() ==> arith.height.ensures(
            (
                left[i].point,
                reference.verts@[reference.face_start@[rf] as int],
                reference.face_normal@[rf],
            ),
            heights[i],
        )
    &&& from.len() == r.len()
    &&& forall|x: int, y: int|
        #![trigger from[x], from[y]]
        0 <= x < y < from.len() ==> from[x] < from[y]
    &&& forall|x: int|
        #![trigger from[x]]
        0 <= x < from.len() ==> 0 <= from[x] < left.len() && r[x].point == left[from[x]].point
            && r[x].depth == heights[from[x]].neg_spec() && r[x].feature == left[from[x]].feature
    &&& forall|i: int|
        #![trigger heights[i]]
        0 <= i < left.len() ==> (from.contains(i) <==> heights[i].le_spec(limit))
}

/// The contacts of two faces are the vertices of what is left of the one that are no
/// higher above the other than the limit, each as deep as it is below it.
pub proof fn contacts_lie_below_the_reference_face<
    D: Fn(Vec3, Vec3) -> Scalar,
    M: Fn(&Vec<Vec3>) -> Vec3,
    P: Fn(Vec3, Vec3, Vec3, Vec3) -> Option<Vec3>,
    C: Fn(Vec3, Vec3, Vec3, Vec3) -> ClipSide,
    H: Fn(Vec3, Vec3, Vec3) -> Scalar,
>(
    arith: &ClipArith<D, M, P, C, H>,
    reference: &WorldPoly,
    incident: &WorldPoly,
    ref_is_a: bool,
    dir: Vec3,
    limit: Scalar,
    probe: &mut ClipProbe,
    r: Vec<ContactPoint>,
)
    requires
        call_ensures(
            clip::<D, M, P, C, H>,
            (arith, reference, incident, ref_is_a, dir, limit, probe),
            r,
        ),
        reference.wf(),
        incident.wf(),
    ensures
        exists|rf: int, left: Seq<ClipVertex>, heights: Seq<Scalar>, from: Seq<int>| #[trigger]
            below_face(*arith, reference, limit, r@, rf, left, heights, from),
{
    let (rf, f) = choose|rf: int, f: int|
        {
            &&& #[trigger] faces_meet(arith.dot, reference, incident, dir, rf, f)
            &&& clip_gives(
                *arith,
                reference,
                incident,
                ref_is_a,
                limit,
                rf,
                f,
                r@,
                *old(probe),
                *final(probe),
            )
        };
    let ring = reference.face(rf);
    let normal = reference.face_normal@[rf];
    let (v, mid, polys, dists) = choose|
        v: Vec<Vec3>,
        mid: Vec3,
        polys: Seq<ClipState>,
        dists: Seq<Scalar>,
    |
        {
            &&& v@ == ring
            &&& #[trigger] arith.middle.ensures((&v,), mid)
            &&& #[trigger] cut_by_ring(
                *arith,
                ring,
                normal,
                mid,
                reference.face_start@[rf] as int,
                polys,
            )
            &&& #[trigger] heights_measured(
                arith.height,
                polys.last().poly,
                ring[0],
                normal,
                dists,
            )
            &&& r@ == crate::poly_pair::low_contacts(polys.last().poly, dists, limit)
        };
    let left = polys.last().poly;
    lemma_first_vertex(reference, rf);
    let from = lemma_low(left, dists, limit, r@);
    assert(below_face(*arith, reference, limit, r@, rf, left, dists, from));
}

proof fn lemma_first_vertex(p: &WorldPoly, f: int)
    requires
        p.wf(),
        0 <= f < p.face_normal@.len(),
    ensures
        p.face(f)[0] == p.verts@[p.face_start@[f] as int],
{
    assert(p.face_start@[f] < p.face_start@[f + 1]);
    lemma_face_ends(p, f + 1);
}

proof fn lemma_low(
    left: Seq<ClipVertex>,
    dists: Seq<Scalar>,
    limit: Scalar,
    r: Seq<ContactPoint>,
) -> (from: Seq<int>)
    requires
        dists.len() == left.len(),
        r == crate::poly_pair::low_contacts(left, dists, limit),
    ensures
        from.len() == r.len(),
        forall|x: int, y: int|
            #![trigger from[x], from[y]]
            0 <= x < y < from.len() ==> from[x] < from[y],
        forall|x: int|
            #![trigger from[x]]
            0 <= x < from.len() ==> 0 <= from[x] < left.len() && r[x].point == left[from[x]].point
                && r[x].depth == dists[from[x]].neg_spec() && r[x].feature == left[from[x]].feature,
        forall|i: int|
            #![trigger dists[i]]
            0 <= i < left.len() ==> (from.contains(i) <==> dists[i].le_spec(limit)),
{
    let p = within_limit(dists, limit);
    let from = indices_where(p, left.len());
    lemma_indices_where(p, left.len());
    assert forall|i: int| #![trigger dists[i]] 0 <= i < left.len() implies (from.contains(i)
        <==> dists[i].le_spec(limit)) by {
        crate::select::lemma_indices_where_contains(p, left.len(), i);
        assert(p(i) == dists[i].le_spec(limit));
    }
    from
}

proof fn lemma_face_ends(p: &WorldPoly, g: int)
    requires
        p.wf(),
        0 <= g <= p.face_normal@.len(),
    ensures
        p.face_start@[g] <= p.verts@.len(),
    decreases p.face_normal@.len() - g,
{
    if g < p.face_normal@.len() {
        lemma_face_ends(p, g + 1);
        assert(p.face_start@[g] < p.face_start@[g + 1]);
    }
}

/// Every edge of the polygon was held against the plane at `w` that looks along `s`.
pub open spec fn edges_tried<C: Fn(Vec3, Vec3, Vec3, Vec3) -> ClipSide>(
    cut: C,
    poly: Seq<ClipVertex>,
    w: Vec3,
    s: Vec3,
    sides: Seq<ClipSide>,
) -> bool {
    &&& sides.len() == poly.len()
    &&& forall|i: int|
        0 <= i < poly.len() ==> cut.ensures(
            (
                poly[i].point,
                poly[if i + 1 == poly.len() {
                    0
                } else {
                    i + 1
                }].point,
                w,
                s,
            ),
            #[trigger] sides[i],
        )
}

/// The plane through the edge from `from` to `end` cut the polygon; it is left if there is no
/// such plane.
pub open spec fn plane_cuts<
    D: Fn(Vec3, Vec3) -> Scalar,
    M: Fn(&Vec<Vec3>) -> Vec3,
    P: Fn(Vec3, Vec3, Vec3, Vec3) -> Option<Vec3>,
    C: Fn(Vec3, Vec3, Vec3, Vec3) -> ClipSide,
    H: Fn(Vec3, Vec3, Vec3) -> Scalar,
>(
    arith: ClipArith<D, M, P, C, H>,
    from: Vec3,
    end: Vec3,
    normal: Vec3,
    mid: Vec3,
    place: u32,
    st: ClipState,
    next: ClipState,
) -> bool {
    exists|o: Option<Vec3>|
        {
            &&& #[trigger] arith.side.ensures((from, end, normal, mid), o)
            &&& o is None ==> next.poly == st.poly && next.probe == st.probe
            &&& o is Some ==> exists|sides: Seq<ClipSide>| #[trigger]
                edges_tried(arith.cut, st.poly, from, o.unwrap(), sides) && next.poly == clipped(
                    st.poly,
                    sides,
                    place,
                    st.poly.len() as int,
                )
        }
}

/// Edge `k` of the ring cut the polygon.
pub open spec fn edge_cuts<
    D: Fn(Vec3, Vec3) -> Scalar,
    M: Fn(&Vec<Vec3>) -> Vec3,
    P: Fn(Vec3, Vec3, Vec3, Vec3) -> Option<Vec3>,
    C: Fn(Vec3, Vec3, Vec3, Vec3) -> ClipSide,
    H: Fn(Vec3, Vec3, Vec3) -> Scalar,
>(
    arith: ClipArith<D, M, P, C, H>,
    ring: Seq<Vec3>,
    normal: Vec3,
    mid: Vec3,
    base: int,
    k: int,
    st: ClipState,
    next: ClipState,
) -> bool {
    plane_cuts(
        arith,
        ring[k],
        if k + 1 == ring.len() {
            ring[0]
        } else {
            ring[k + 1]
        },
        normal,
        mid,
        (base + k) as u32,
        st,
        next,
    )
}

/// What is left of incident face `f` after the edges of reference face `rf` cut it, one
/// after the other, until nothing is left.
pub open spec fn cut_in_turn<
    D: Fn(Vec3, Vec3) -> Scalar,
    M: Fn(&Vec<Vec3>) -> Vec3,
    P: Fn(Vec3, Vec3, Vec3, Vec3) -> Option<Vec3>,
    C: Fn(Vec3, Vec3, Vec3, Vec3) -> ClipSide,
    H: Fn(Vec3, Vec3, Vec3) -> Scalar,
>(
    arith: ClipArith<D, M, P, C, H>,
    reference: &WorldPoly,
    incident: &WorldPoly,
    rf: int,
    f: int,
    mid: Vec3,
    polys: Seq<ClipState>,
) -> bool {
    let n = reference.face_start@[rf + 1] - reference.face_start@[rf];
    &&& 0 <= f < incident.face_normal@.len()
    &&& 1 <= polys.len() <= n + 1
    &&& polys.len() < n + 1 ==> polys.last().poly.len() == 0
    &&& polys[0].poly.len() == incident.face_start@[f + 1] - incident.face_start@[f]
    &&& forall|i: int|
        0 <= i < polys[0].poly.len() ==> (#[trigger] polys[0].poly[i]).point
            == incident.verts@[incident.face_start@[f] + i]
    &&& forall|k: int|
        0 <= k < polys.len() - 1 ==> #[trigger] edge_cuts(
            arith,
            reference.face(rf),
            reference.face_normal@[rf],
            mid,
            reference.face_start@[rf] as int,
            k,
            polys[k],
            polys[k + 1],
        )
}

proof fn lemma_edge_cuts<
    D: Fn(Vec3, Vec3) -> Scalar,
    M: Fn(&Vec<Vec3>) -> Vec3,
    P: Fn(Vec3, Vec3, Vec3, Vec3) -> Option<Vec3>,
    C: Fn(Vec3, Vec3, Vec3, Vec3) -> ClipSide,
    H: Fn(Vec3, Vec3, Vec3) -> Scalar,
>(
    arith: ClipArith<D, M, P, C, H>,
    ring: Seq<Vec3>,
    normal: Vec3,
    mid: Vec3,
    base: int,
    k: int,
    st: ClipState,
    next: ClipState,
)
    requires
        cut_by_edge(arith, ring, normal, mid, base, k, st, next),
    ensures
        edge_cuts(arith, ring, normal, mid, base, k, st, next),
{
    let end = after(ring, k);
    let o = choose|o: Option<Vec3>| #[trigger]
        arith.side.ensures((ring[k], end, normal, mid), o) && match o {
            None => next == st,
            Some(s) => exists|sides: Seq<ClipSide>| #[trigger]
                sides_measured(arith.cut, st.poly, ring[k], s, sides) && next == (ClipState {
                    poly: clipped(st.poly, sides, (base + k) as u32, st.poly.len() as int),
                    probe: st.probe.after_plane(
                        st.poly.len() as u64,
                        crossings(sides, sides.len() as int) as u64,
                    ),
                }),
        };
    let next_corner = if k + 1 == ring.len() {
        ring[0]
    } else {
        ring[k + 1]
    };
    assert(next_corner == end);
    assert(arith.side.ensures((ring[k], next_corner, normal, mid), o));
    if o is Some {
        let s = o.unwrap();
        let sides = choose|sides: Seq<ClipSide>| #[trigger]
            sides_measured(arith.cut, st.poly, ring[k], s, sides) && next == (ClipState {
                poly: clipped(st.poly, sides, (base + k) as u32, st.poly.len() as int),
                probe: st.probe.after_plane(
                    st.poly.len() as u64,
                    crossings(sides, sides.len() as int) as u64,
                ),
            });
        assert(edges_tried(arith.cut, st.poly, ring[k], s, sides));
    }
    assert(plane_cuts(arith, ring[k], end, normal, mid, (base + k) as u32, st, next));
}

/// The contacts of two faces come from the incident face cut by every edge of the
/// reference face in turn; an edge without a plane leaves it as it is.
pub proof fn every_edge_cuts_the_incident_face<
    D: Fn(Vec3, Vec3) -> Scalar,
    M: Fn(&Vec<Vec3>) -> Vec3,
    P: Fn(Vec3, Vec3, Vec3, Vec3) -> Option<Vec3>,
    C: Fn(Vec3, Vec3, Vec3, Vec3) -> ClipSide,
    H: Fn(Vec3, Vec3, Vec3) -> Scalar,
>(
    arith: &ClipArith<D, M, P, C, H>,
    reference: &WorldPoly,
    incident: &WorldPoly,
    ref_is_a: bool,
    dir: Vec3,
    limit: Scalar,
    probe: &mut ClipProbe,
    r: Vec<ContactPoint>,
)
    requires
        call_ensures(
            clip::<D, M, P, C, H>,
            (arith, reference, incident, ref_is_a, dir, limit, probe),
            r,
        ),
        reference.wf(),
        incident.wf(),
    ensures
        exists|
            rf: int,
            f: int,
            mid: Vec3,
            polys: Seq<ClipState>,
            heights: Seq<Scalar>,
            from: Seq<int>,
        |
            #[trigger] cut_in_turn(*arith, reference, incident, rf, f, mid, polys) && #[trigger]
            below_face(*arith, reference, limit, r@, rf, polys.last().poly, heights, from),
{
    let (rf, f) = choose|rf: int, f: int|
        {
            &&& #[trigger] faces_meet(arith.dot, reference, incident, dir, rf, f)
            &&& clip_gives(
                *arith,
                reference,
                incident,
                ref_is_a,
                limit,
                rf,
                f,
                r@,
                *old(probe),
                *final(probe),
            )
        };
    let ring = reference.face(rf);
    let normal = reference.face_normal@[rf];
    let base = reference.face_start@[rf] as int;
    let (v, mid, polys, dists) = choose|
        v: Vec<Vec3>,
        mid: Vec3,
        polys: Seq<ClipState>,
        dists: Seq<Scalar>,
    |
        {
            &&& v@ == ring
            &&& #[trigger] arith.middle.ensures((&v,), mid)
            &&& #[trigger] cut_by_ring(*arith, ring, normal, mid, base, polys)
            &&& polys[0] == (ClipState {
                poly: incident_ring(incident, f, ref_is_a),
                probe: *old(probe),
            })
            &&& #[trigger] heights_measured(
                arith.height,
                polys.last().poly,
                ring[0],
                normal,
                dists,
            )
            &&& r@ == crate::poly_pair::low_contacts(polys.last().poly, dists, limit)
        };
    let left = polys.last().poly;
    lemma_first_vertex(reference, rf);
    let from = lemma_low(left, dists, limit, r@);
    assert(below_face(*arith, reference, limit, r@, rf, left, dists, from));
    assert forall|k: int| 0 <= k < polys.len() - 1 implies #[trigger] edge_cuts(
        *arith,
        ring,
        normal,
        mid,
        base,
        k,
        polys[k],
        polys[k + 1],
    ) by {
        assert(cut_by_edge(*arith, ring, normal, mid, base, k, polys[k], polys[k + 1]));
        lemma_edge_cuts(*arith, ring, normal, mid, base, k, polys[k], polys[k + 1]);
    }
    lemma_ring_bounds(reference, rf);
    lemma_ring_bounds(incident, f);
    assert(cut_in_turn(*arith, reference, incident, rf, f, mid, polys));
}

proof fn lemma_ring_bounds(p: &WorldPoly, f: int)
    requires
        p.wf(),
        0 <= f < p.face_normal@.len(),
    ensures
        p.face_start@[f] <= p.face_start@[f + 1] <= p.verts@.len(),
        p.face(f).len() == p.face_start@[f + 1] - p.face_start@[f],
        forall|i: int|
            0 <= i < p.face(f).len() ==> #[trigger] p.face(f)[i] == p.verts@[p.face_start@[f] + i],
{
    p.lemma_face(f);
}

} // verus!
