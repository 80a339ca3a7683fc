//! Cutting convex point clouds by planes.

use crate::order::{as_indices, stable_order, stable_order_of, SortKey};
use crate::scalar::{Scalar, Vec3};
use crate::select::{alike_by, distinct_of, ints_usize, keep_distinct};
use vstd::prelude::*;

verus! {

/// The pairs (`i`, `j`) with `i < j` and `j` below `n` for the last `i`: all
/// pairs of the rows below `i`, then the first ones of row `i`, as far as the two
/// points lie on different sides.
pub open spec fn straddling(beyond: Seq<bool>, i: int, j: int) -> Seq<(int, int)>
    decreases i + 1, j,
{
    if i < 0 {
        Seq::empty()
    } else if j <= i + 1 {
        straddling(beyond, i - 1, beyond.len() as int)
    } else if beyond[i] != beyond[j - 1] {
        straddling(beyond, i, j - 1).push((i, j - 1))
    } else {
        straddling(beyond, i, j - 1)
    }
}

/// All pairs of points on different sides, in order.
pub open spec fn all_straddling(beyond: Seq<bool>) -> Seq<(int, int)> {
    straddling(beyond, beyond.len() - 1, beyond.len() as int)
}

/// A list of pairs by its contents.
pub open spec fn wide_pairs(r: Seq<(usize, usize)>) -> Seq<(int, int)> {
    r.map_values(|p: (usize, usize)| (p.0 as int, p.1 as int))
}

/// The pairs of points on different sides of a plane, in order.
pub fn straddling_pairs(beyond: &[bool]) -> (r: Vec<(usize, usize)>)
    ensures
        wide_pairs(r@) == all_straddling(beyond@),
        forall|k: int|
            0 <= k < r@.len() ==> (#[trigger] r@[k]).0 < r@[k].1 && r@[k].1 < beyond@.len(),
{
    let m: usize = beyond.len();
    let mut r: Vec<(usize, usize)> = Vec::new();
    let mut i: usize = 0;
    assert(wide_pairs(r@) =~= Seq::<(int, int)>::empty());
    while i < m
        invariant
            m == beyond@.len(),
            i <= m,
            wide_pairs(r@) == straddling(beyond@, i - 1, m as int),
            forall|k: int| 0 <= k < r@.len() ==> (#[trigger] r@[k]).0 < r@[k].1 && r@[k].1 < m,
        decreases m - i,
    {
        let mut j: usize = i + 1;
        assert(straddling(beyond@, i as int, i + 1) == straddling(beyond@, i - 1, m as int));
        while j < m
            invariant
                m == beyond@.len(),
                i < m,
                i + 1 <= j <= m,
                wide_pairs(r@) == straddling(beyond@, i as int, j as int),
                forall|k: int| 0 <= k < r@.len() ==> (#[trigger] r@[k]).0 < r@[k].1 && r@[k].1 < m,
            decreases m - j,
        {
            let ghost before = r@;
            if beyond[i] != beyond[j] {
                r.push((i, j));
                assert(wide_pairs(r@) =~= wide_pairs(before).push((i as int, j as int)));
            }
            j += 1;
        }
        i += 1;
    }
    r
}

/// Every listed pair lies on different sides, and every such pair is listed.
pub proof fn straddling_pairs_are_complete(beyond: Seq<bool>, a: int, b: int)
    ensures
        all_straddling(beyond).contains((a, b)) <==> 0 <= a < b < beyond.len() && beyond[a]
            != beyond[b],
{
    lemma_straddling(beyond, beyond.len() - 1, beyond.len() as int, a, b);
}

proof fn lemma_straddling(beyond: Seq<bool>, i: int, j: int, a: int, b: int)
    requires
        -1 <= i < beyond.len(),
        j <= beyond.len(),
    ensures
        straddling(beyond, i, j).contains((a, b)) <==> 0 <= a < b < beyond.len() && beyond[a]
            != beyond[b] && (a < i || (a == i && b < j)),
    decreases i + 1, j,
{
    if i >= 0 {
        if j <= i + 1 {
            lemma_straddling(beyond, i - 1, beyond.len() as int, a, b);
        } else {
            lemma_straddling(beyond, i, j - 1, a, b);
            let before = straddling(beyond, i, j - 1);
            let now = straddling(beyond, i, j);
            if beyond[i] != beyond[j - 1] {
                if before.contains((a, b)) {
                    let k = choose|k: int| 0 <= k < before.len() && before[k] == (a, b);
                    assert(now[k] == (a, b));
                }
                if now.contains((a, b)) {
                    let k = choose|k: int| 0 <= k < now.len() && now[k] == (a, b);
                    if k < before.len() {
                        assert(before[k] == (a, b));
                    }
                }
                if (a, b) == (i, j - 1) {
                    assert(now[before.len() as int] == (a, b));
                }
            }
        }
    }
}

/// The cloud after a cut: the points on the kept side, each once, followed by
/// those of the cut that are unlike all before.
pub open spec fn cut_cloud(
    points: Seq<Vec3>,
    inside: Seq<bool>,
    cross: Seq<Vec3>,
    alike: spec_fn(Vec3, Vec3) -> bool,
) -> Seq<Vec3> {
    let kept = distinct_of(points, inside, alike, points.len() as int);
    let both = kept + cross;
    distinct_of(both, Seq::new(both.len(), |i: int| true), alike, both.len() as int)
}

/// Puts together the cloud after a cut: `inside` tells which points stay, `cross`
/// are the corners of the cut.
fn join_cut<F: Fn(Vec3, Vec3) -> bool>(
    points: &[Vec3],
    inside: &[bool],
    cross: &[Vec3],
    alike: F,
) -> (r: Vec<Vec3>)
    requires
        inside@.len() == points@.len(),
        forall|a: Vec3, b: Vec3| #[trigger] alike.requires((a, b)),
        forall|a: Vec3, b: Vec3|
            !(#[trigger] alike.ensures((a, b), true) && alike.ensures((a, b), false)),
    ensures
        r@ == cut_cloud(points@, inside@, cross@, alike_by(alike)),
{
    let mut kept: Vec<Vec3> = keep_distinct(points, inside, &alike);
    proof {
        lemma_alike_ref(alike);
    }
    let ghost kept0 = kept@;
    let mut i: usize = 0;
    while i < cross.len()
        invariant
            i <= cross@.len(),
            kept@ == kept0 + cross@.take(i as int),
        decreases cross@.len() - i,
    {
        kept.push(cross[i]);
        i += 1;
        assert(kept@ =~= kept0 + cross@.take(i as int));
    }
    assert(cross@.take(i as int) =~= cross@);
    let mut flags: Vec<bool> = Vec::new();
    let mut k: usize = 0;
    while k < kept.len()
        invariant
            k <= kept@.len(),
            flags@.len() == k,
            forall|j: int| 0 <= j < k ==> flags@[j],
        decreases kept@.len() - k,
    {
        flags.push(true);
        k += 1;
    }
    assert(flags@ =~= Seq::new(kept@.len(), |i: int| true));
    keep_distinct(kept.as_slice(), flags.as_slice(), alike)
}

/// A question asked by reference gives the same answers.
proof fn lemma_alike_ref<F: Fn(Vec3, Vec3) -> bool>(f: F)
    ensures
        alike_by(&f) == alike_by(f),
{
    assert(alike_by(&f) =~= alike_by(f));
}

/// The turn from one point over a second to a third, by their places in the plane, is
/// not to the left.
pub open spec fn turns_by<
    F: Fn((Scalar, Scalar), (Scalar, Scalar), (Scalar, Scalar)) -> bool,
>(f: F, coords: Seq<(Scalar, Scalar)>) -> spec_fn(int, int, int) -> bool {
    |a: int, b: int, c: int| f.ensures((coords[a], coords[b], coords[c]), true)
}

/// The test can be asked for any three places, and has one answer.
pub open spec fn steady_turn<F: Fn((Scalar, Scalar), (Scalar, Scalar), (Scalar, Scalar)) -> bool>(
    f: F,
) -> bool {
    &&& forall|a: (Scalar, Scalar), b: (Scalar, Scalar), c: (Scalar, Scalar)| #[trigger]
        f.requires((a, b, c))
    &&& forall|a: (Scalar, Scalar), b: (Scalar, Scalar), c: (Scalar, Scalar)|
        !(#[trigger] f.ensures((a, b, c), true) && f.ensures((a, b, c), false))
}

/// The chain after the points that a new one makes redundant were dropped from
/// its end.
pub open spec fn trimmed(
    chain: Seq<int>,
    p: int,
    not_left: spec_fn(int, int, int) -> bool,
) -> Seq<int>
    decreases chain.len(),
{
    if chain.len() >= 2 && not_left(chain[chain.len() - 2], chain[chain.len() - 1], p) {
        trimmed(chain.drop_last(), p, not_left)
    } else {
        chain
    }
}

/// The chain along one side of the first `k` points in order.
pub open spec fn side_chain(
    order: Seq<int>,
    not_left: spec_fn(int, int, int) -> bool,
    k: int,
) -> Seq<int>
    decreases k,
{
    if k <= 0 {
        Seq::empty()
    } else {
        trimmed(side_chain(order, not_left, k - 1), order[k - 1], not_left).push(order[k - 1])
    }
}

/// All but the last, if there is one.
pub open spec fn but_last(s: Seq<int>) -> Seq<int> {
    if s.len() == 0 {
        s
    } else {
        s.drop_last()
    }
}

/// The corners of the hull of points in a plane: along the lower side and back
/// along the upper side.
pub open spec fn hull_corners(order: Seq<int>, not_left: spec_fn(int, int, int) -> bool) -> Seq<
    int,
> {
    but_last(side_chain(order, not_left, order.len() as int)) + but_last(
        side_chain(order.reverse(), not_left, order.len() as int),
    )
}

/// By the first coordinate, then the second.
pub open spec fn plane_keys(coords: Seq<(Scalar, Scalar)>) -> Seq<SortKey> {
    coords.map_values(
        |c: (Scalar, Scalar)|
            SortKey { a: c.0.rank() as i64, b: c.1.rank() as i64, c: 0, d: 0 },
    )
}

/// Every corner of a chain turns left.
pub proof fn chains_turn_left(
    order: Seq<int>,
    not_left: spec_fn(int, int, int) -> bool,
    k: int,
    i: int,
)
    requires
        0 <= k <= order.len(),
        0 <= i < side_chain(order, not_left, k).len() - 2,
    ensures
        ({
            let c = side_chain(order, not_left, k);
            !not_left(c[i], c[i + 1], c[i + 2])
        }),
    decreases k,
{
    if k > 0 {
        let before = side_chain(order, not_left, k - 1);
        let t = trimmed(before, order[k - 1], not_left);
        lemma_trimmed(before, order[k - 1], not_left);
        let c = side_chain(order, not_left, k);
        if i + 2 < t.len() {
            assert(c[i] == before[i] && c[i + 1] == before[i + 1] && c[i + 2] == before[i + 2]);
            chains_turn_left(order, not_left, k - 1, i);
        }
    }
}

/// Trimming leaves a beginning of the chain that the new point extends.
proof fn lemma_trimmed(chain: Seq<int>, p: int, not_left: spec_fn(int, int, int) -> bool)
    ensures
        trimmed(chain, p, not_left).len() <= chain.len(),
        forall|i: int|
            0 <= i < trimmed(chain, p, not_left).len() ==> #[trigger] trimmed(chain, p, not_left)[i]
                == chain[i],
        ({
            let t = trimmed(chain, p, not_left);
            t.len() >= 2 ==> !not_left(t[t.len() - 2], t[t.len() - 1], p)
        }),
        chain.len() > 0 ==> trimmed(chain, p, not_left).len() > 0,
    decreases chain.len(),
{
    if chain.len() >= 2 && not_left(chain[chain.len() - 2], chain[chain.len() - 1], p) {
        lemma_trimmed(chain.drop_last(), p, not_left);
    }
}

/// Builds the chain along one side.
fn build_chain<F: Fn((Scalar, Scalar), (Scalar, Scalar), (Scalar, Scalar)) -> bool>(
    order: &Vec<usize>,
    coords: &[(Scalar, Scalar)],
    not_left: &F,
) -> (chain: Vec<usize>)
    requires
        steady_turn(*not_left),
        forall|k: int| 0 <= k < order@.len() ==> #[trigger] order@[k] < coords@.len(),
    ensures
        ints_usize(chain@) == side_chain(
            ints_usize(order@),
            turns_by(*not_left, coords@),
            order@.len() as int,
        ),
        forall|k: int| 0 <= k < chain@.len() ==> #[trigger] chain@[k] < coords@.len(),
{
    let ghost t = turns_by(*not_left, coords@);
    let ghost places = ints_usize(order@);
    let mut chain: Vec<usize> = Vec::new();
    let mut k: usize = 0;
    assert(ints_usize(chain@) =~= Seq::<int>::empty());
    while k < order.len()
        invariant
            k <= order@.len(),
            steady_turn(*not_left),
            forall|j: int| 0 <= j < order@.len() ==> #[trigger] order@[j] < coords@.len(),
            forall|j: int| 0 <= j < chain@.len() ==> #[trigger] chain@[j] < coords@.len(),
            t == turns_by(*not_left, coords@),
            places == ints_usize(order@),
            ints_usize(chain@) == side_chain(places, t, k as int),
        decreases order@.len() - k,
    {
        let p: usize = order[k];
        assert(places[k as int] == p);
        let ghost full = ints_usize(chain@);
        let mut going: bool = true;
        while going
            invariant
                steady_turn(*not_left),
                p < coords@.len(),
                forall|j: int| 0 <= j < chain@.len() ==> #[trigger] chain@[j] < coords@.len(),
                t == turns_by(*not_left, coords@),
                trimmed(ints_usize(chain@), p as int, t) == trimmed(full, p as int, t),
                !going ==> ints_usize(chain@) == trimmed(full, p as int, t),
            decreases chain@.len(), going as int,
        {
            let n: usize = chain.len();
            let ghost now = ints_usize(chain@);
            if n >= 2 {
                let (a, b) = (chain[n - 2], chain[n - 1]);
                let drop: bool = not_left(coords[a], coords[b], coords[p]);
                assert(now[n - 2] == a && now[n - 1] == b);
                assert(drop == t(now[n - 2], now[n - 1], p as int));
                if drop {
                    chain.pop();
                    assert(ints_usize(chain@) =~= now.drop_last());
                } else {
                    going = false;
                }
            } else {
                going = false;
            }
        }
        let ghost kept = chain@;
        chain.push(p);
        assert(ints_usize(chain@) =~= ints_usize(kept).push(p as int));
        k += 1;
    }
    chain
}

/// All coordinates are numbers.
pub open spec fn all_numbers(coords: Seq<(Scalar, Scalar)>) -> bool {
    forall|i: int|
        0 <= i < coords.len() ==> !(#[trigger] coords[i]).0.is_nan_spec()
            && !coords[i].1.is_nan_spec()
}

/// The corners of the hull of points in a plane, given their coordinates in it
/// and a test for turns that are not to the left.
pub fn hull_2d_on_plane<F: Fn((Scalar, Scalar), (Scalar, Scalar), (Scalar, Scalar)) -> bool>(
    coords: &[(Scalar, Scalar)],
    not_left: &F,
) -> (r: Vec<usize>)
    requires
        all_numbers(coords@),
        steady_turn(*not_left),
    ensures
        exists|order: Seq<int>| #[trigger]
            stable_order_of(plane_keys(coords@), order) && ints_usize(r@) == hull_corners(
                order,
                turns_by(*not_left, coords@),
            ),
        forall|k: int| 0 <= k < r@.len() ==> #[trigger] r@[k] < coords@.len(),
{
    let mut keys: Vec<SortKey> = Vec::new();
    let mut i: usize = 0;
    while i < coords.len()
        invariant
            i <= coords@.len(),
            keys@.len() == i,
            forall|j: int| 0 <= j < i ==> keys@[j] == plane_keys(coords@)[j],
        decreases coords@.len() - i,
    {
        let c = coords[i];
        keys.push(SortKey { a: c.0.numeric_order(), b: c.1.numeric_order(), c: 0, d: 0 });
        i += 1;
    }
    assert(keys@ =~= plane_keys(coords@));
    let order: Vec<usize> = stable_order(keys.as_slice());
    let ghost places = as_indices(order@);
    assert(places =~= ints_usize(order@));
    assert forall|j: int| 0 <= j < order@.len() implies #[trigger] order@[j] < coords@.len() by {
        assert(places[j] == order@[j]);
    }
    let mut back: Vec<usize> = Vec::new();
    let mut k: usize = order.len();
    while k > 0
        invariant
            k <= order@.len(),
            back@.len() == order@.len() - k,
            forall|j: int| 0 <= j < back@.len() ==> back@[j] == order@[order@.len() - 1 - j],
            forall|j: int| 0 <= j < back@.len() ==> #[trigger] back@[j] < coords@.len(),
            forall|j: int| 0 <= j < order@.len() ==> #[trigger] order@[j] < coords@.len(),
        decreases k,
    {
        k -= 1;
        back.push(order[k]);
    }
    assert(ints_usize(back@) =~= places.reverse());
    let mut lower: Vec<usize> = build_chain(&order, coords, not_left);
    let mut upper: Vec<usize> = build_chain(&back, coords, not_left);
    let ghost lower0 = ints_usize(lower@);
    let ghost upper0 = ints_usize(upper@);
    lower.pop();
    upper.pop();
    assert(ints_usize(lower@) =~= but_last(lower0));
    assert(ints_usize(upper@) =~= but_last(upper0));
    let ghost lower1 = lower@;
    let mut u: usize = 0;
    while u < upper.len()
        invariant
            u <= upper@.len(),
            lower@ == lower1 + upper@.take(u as int),
            forall|j: int| 0 <= j < lower@.len() ==> #[trigger] lower@[j] < coords@.len(),
            forall|j: int| 0 <= j < upper@.len() ==> #[trigger] upper@[j] < coords@.len(),
        decreases upper@.len() - u,
    {
        lower.push(upper[u]);
        u += 1;
        assert(lower@ =~= lower1 + upper@.take(u as int));
    }
    proof {
        assert(upper@.take(u as int) =~= upper@);
        assert(ints_usize(lower@) =~= ints_usize(lower1) + ints_usize(upper@));
        assert(stable_order_of(plane_keys(coords@), places));
    }
    lower
}

/// Where the lines between points on different sides meet the plane.
pub open spec fn crossings_of<X: Fn(Vec3, Vec3) -> Vec3>(
    crossing: X,
    points: Seq<Vec3>,
    pairs: Seq<(int, int)>,
    cross: Seq<Vec3>,
) -> bool {
    &&& cross.len() == pairs.len()
    &&& forall|k: int|
        0 <= k < cross.len() ==> crossing.ensures(
            (points[pairs[k].0], points[pairs[k].1]),
            #[trigger] cross[k],
        )
}

/// The places of the points in the plane.
pub open spec fn located<P: Fn(Vec3) -> (Scalar, Scalar)>(
    plane: P,
    cross: Seq<Vec3>,
    coords: Seq<(Scalar, Scalar)>,
) -> bool {
    &&& coords.len() == cross.len()
    &&& forall|k: int| 0 <= k < cross.len() ==> plane.ensures((cross[k],), #[trigger] coords[k])
}

/// The corners of the cut: up to three crossings as they are, of more of them the
/// corners of their hull in the plane.
pub open spec fn corners_of<
    P: Fn(Vec3) -> (Scalar, Scalar),
    L: Fn((Scalar, Scalar), (Scalar, Scalar), (Scalar, Scalar)) -> bool,
>(plane: P, not_left: L, cross: Seq<Vec3>, corners: Seq<Vec3>) -> bool {
    if cross.len() <= 3 {
        corners == cross
    } else {
        exists|coords: Seq<(Scalar, Scalar)>, order: Seq<int>|
            {
                &&& #[trigger] located(plane, cross, coords)
                &&& all_numbers(coords)
                &&& #[trigger] stable_order_of(plane_keys(coords), order)
                &&& corners == hull_corners(order, turns_by(not_left, coords)).map_values(
                    |i: int| cross[i],
                )
            }
    }
}

/// There are more than three crossings, and one of them has no place in the plane.
pub open spec fn corners_lost<P: Fn(Vec3) -> (Scalar, Scalar)>(
    plane: P,
    cross: Seq<Vec3>,
) -> bool {
    &&& cross.len() > 3
    &&& exists|coords: Seq<(Scalar, Scalar)>| #[trigger]
        located(plane, cross, coords) && !all_numbers(coords)
}

fn find_crossings<X: Fn(Vec3, Vec3) -> Vec3>(
    points: &[Vec3],
    beyond: &[bool],
    crossing: &X,
) -> (cross: Vec<Vec3>)
    requires
        beyond@.len() == points@.len(),
        forall|a: Vec3, b: Vec3| #[trigger] crossing.requires((a, b)),
    ensures
        crossings_of(*crossing, points@, all_straddling(beyond@), cross@),
{
    let pairs = straddling_pairs(beyond);
    let ghost wide = all_straddling(beyond@);
    let mut cross: Vec<Vec3> = Vec::new();
    let mut k: usize = 0;
    while k < pairs.len()
        invariant
            k <= pairs@.len(),
            beyond@.len() == points@.len(),
            wide == wide_pairs(pairs@),
            forall|a: Vec3, b: Vec3| #[trigger] crossing.requires((a, b)),
            forall|j: int|
                0 <= j < pairs@.len() ==> (#[trigger] pairs@[j]).0 < pairs@[j].1 && pairs@[j].1
                    < beyond@.len(),
            cross@.len() == k,
            forall|j: int|
                0 <= j < k ==> crossing.ensures(
                    (points@[wide[j].0], points@[wide[j].1]),
                    #[trigger] cross@[j],
                ),
        decreases pairs@.len() - k,
    {
        let (i, j) = pairs[k];
        assert(pairs@[k as int].0 < pairs@[k as int].1);
        assert(wide[k as int] == (i as int, j as int));
        cross.push(crossing(points[i], points[j]));
        k += 1;
    }
    cross
}

fn locate<P: Fn(Vec3) -> (Scalar, Scalar)>(plane: &P, cross: &Vec<Vec3>) -> (coords: Vec<
    (Scalar, Scalar),
>)
    requires
        forall|p: Vec3| #[trigger] plane.requires((p,)),
    ensures
        located(*plane, cross@, coords@),
{
    let mut coords: Vec<(Scalar, Scalar)> = Vec::new();
    let mut k: usize = 0;
    while k < cross.len()
        invariant
            k <= cross@.len(),
            forall|p: Vec3| #[trigger] plane.requires((p,)),
            coords@.len() == k,
            forall|j: int| 0 <= j < k ==> plane.ensures((cross@[j],), #[trigger] coords@[j]),
        decreases cross@.len() - k,
    {
        coords.push(plane(cross[k]));
        k += 1;
    }
    coords
}

fn are_numbers(coords: &Vec<(Scalar, Scalar)>) -> (r: bool)
    ensures
        r == all_numbers(coords@),
{
    let mut k: usize = 0;
    while k < coords.len()
        invariant
            k <= coords@.len(),
            forall|j: int|
                0 <= j < k ==> !(#[trigger] coords@[j]).0.is_nan_spec()
                    && !coords@[j].1.is_nan_spec(),
        decreases coords@.len() - k,
    {
        if coords[k].0.is_nan() || coords[k].1.is_nan() {
            assert(coords@[k as int].0.is_nan_spec() || coords@[k as int].1.is_nan_spec());
            return false;
        }
        k += 1;
    }
    true
}

/// Cuts a cloud by a plane: the points on the kept side, each once, and the corners of
/// the cut. `inside` tells which points stay and `beyond` which lie beyond the plane;
/// `crossing` gives where the line between two points meets it, `plane` the place of
/// such a point in it, and `not_left` tests the turn over three places. Nothing comes
/// back if there are more than three crossings and the place of one of them is no
/// number: they have no order.
pub fn clip_halfspace<
    X: Fn(Vec3, Vec3) -> Vec3,
    P: Fn(Vec3) -> (Scalar, Scalar),
    L: Fn((Scalar, Scalar), (Scalar, Scalar), (Scalar, Scalar)) -> bool,
    F: Fn(Vec3, Vec3) -> bool,
>(
    points: &[Vec3],
    inside: &[bool],
    beyond: &[bool],
    crossing: &X,
    plane: &P,
    not_left: &L,
    alike: F,
) -> (r: Option<Vec<Vec3>>)
    requires
        inside@.len() == points@.len(),
        beyond@.len() == points@.len(),
        forall|a: Vec3, b: Vec3| #[trigger] crossing.requires((a, b)),
        forall|p: Vec3| #[trigger] plane.requires((p,)),
        steady_turn(*not_left),
        forall|a: Vec3, b: Vec3| #[trigger] alike.requires((a, b)),
        forall|a: Vec3, b: Vec3|
            !(#[trigger] alike.ensures((a, b), true) && alike.ensures((a, b), false)),
    ensures
        exists|cross: Seq<Vec3>|
            {
                &&& #[trigger] crossings_of(*crossing, points@, all_straddling(beyond@), cross)
                &&& match r {
                    Some(cloud) => exists|corners: Seq<Vec3>| #[trigger]
                        corners_of(*plane, *not_left, cross, corners) && cloud@ == cut_cloud(
                            points@,
                            inside@,
                            corners,
                            alike_by(alike),
                        ),
                    None => corners_lost(*plane, cross),
                }
            },
{
    let cross = find_crossings(points, beyond, crossing);
    if cross.len() <= 3 {
        assert(corners_of(*plane, *not_left, cross@, cross@));
        return Some(join_cut(points, inside, cross.as_slice(), alike));
    }
    let coords = locate(plane, &cross);
    if !are_numbers(&coords) {
        assert(corners_lost(*plane, cross@));
        return None;
    }
    let ring = hull_2d_on_plane(coords.as_slice(), not_left);
    let ghost order = choose|order: Seq<int>| #[trigger]
        stable_order_of(plane_keys(coords@), order) && ints_usize(ring@) == hull_corners(
            order,
            turns_by(*not_left, coords@),
        );
    let ghost places = hull_corners(order, turns_by(*not_left, coords@));
    let mut corners: Vec<Vec3> = Vec::new();
    let mut k: usize = 0;
    while k < ring.len()
        invariant
            k <= ring@.len(),
            places == ints_usize(ring@),
            coords@.len() == cross@.len(),
            forall|j: int| 0 <= j < ring@.len() ==> #[trigger] ring@[j] < coords@.len(),
            corners@.len() == k,
            forall|j: int| 0 <= j < k ==> #[trigger] corners@[j] == cross@[places[j]],
        decreases ring@.len() - k,
    {
        let i: usize = ring[k];
        assert(places[k as int] == i);
        corners.push(cross[i]);
        k += 1;
    }
    proof {
        assert(corners@ =~= places.map_values(|i: int| cross@[i]));
        assert(located(*plane, cross@, coords@) && stable_order_of(plane_keys(coords@), order));
        assert(corners_of(*plane, *not_left, cross@, corners@));
    }
    Some(join_cut(points, inside, corners.as_slice(), alike))
}

/// The cells of a fracture: cloud `chain[j]` is what is left of the body for seed
/// `i` after the seeds below `j` have cut it.
pub open spec fn cell_chain<C: Fn(usize, usize) -> bool, K: Fn(Vec<Vec3>, usize, usize) -> Vec<Vec3>>(
    points: Seq<Vec3>,
    coincide: C,
    clip: K,
    i: usize,
    n: usize,
    chain: Seq<Seq<Vec3>>,
) -> bool {
    &&& chain.len() == n + 1
    &&& chain[0] == points
    &&& forall|j: int| 0 <= j < n ==> cell_step(#[trigger] chain[j], chain[j + 1], coincide, clip, i, j as usize)
}

/// One cut of a cell: nothing happens for its own seed, for a seed at the same
/// place, and to a cell that is already empty.
pub open spec fn cell_step<C: Fn(usize, usize) -> bool, K: Fn(Vec<Vec3>, usize, usize) -> Vec<Vec3>>(
    before: Seq<Vec3>,
    after: Seq<Vec3>,
    coincide: C,
    clip: K,
    i: usize,
    j: usize,
) -> bool {
    if i == j || before.len() == 0 {
        after == before
    } else {
        ||| coincide.ensures((i, j), true) && after == before
        ||| coincide.ensures((i, j), false) && exists|v: Vec<Vec3>, w: Vec<Vec3>|
            v@ == before && w@ == after && #[trigger] clip.ensures((v, i, j), w)
    }
}

/// The cloud is the cell of seed `i`.
pub open spec fn cell_of<C: Fn(usize, usize) -> bool, K: Fn(Vec<Vec3>, usize, usize) -> Vec<Vec3>>(
    points: Seq<Vec3>,
    coincide: C,
    clip: K,
    i: usize,
    n: usize,
    cell: Seq<Vec3>,
) -> bool {
    exists|chain: Seq<Seq<Vec3>>| #[trigger]
        cell_chain(points, coincide, clip, i, n, chain) && cell == chain[n as int]
}

/// Breaks a convex cloud into the cells of the seeds: for each seed the cloud is
/// cut by the plane halfway to every other seed, until nothing is left.
/// `coincide` tells whether two seeds are at the same place, and `clip` cuts a
/// cloud for seed `i` by the plane towards seed `j`.
pub fn fracture_voronoi_hull<C: Fn(usize, usize) -> bool, K: Fn(Vec<Vec3>, usize, usize) -> Vec<Vec3>>(
    points: &Vec<Vec3>,
    seeds: usize,
    coincide: C,
    clip: K,
) -> (out: Vec<Vec<Vec3>>)
    requires
        forall|i: usize, j: usize| #[trigger] coincide.requires((i, j)),
        forall|v: Vec<Vec3>, i: usize, j: usize| #[trigger] clip.requires((v, i, j)),
    ensures
        out@.len() == seeds,
        forall|i: int|
            0 <= i < seeds ==> cell_of(
                points@,
                coincide,
                clip,
                i as usize,
                seeds,
                (#[trigger] out@[i])@,
            ),
{
    let mut out: Vec<Vec<Vec3>> = Vec::new();
    let mut i: usize = 0;
    while i < seeds
        invariant
            i <= seeds,
            forall|i: usize, j: usize| #[trigger] coincide.requires((i, j)),
            forall|v: Vec<Vec3>, i: usize, j: usize| #[trigger] clip.requires((v, i, j)),
            out@.len() == i,
            forall|q: int|
                0 <= q < i ==> cell_of(
                    points@,
                    coincide,
                    clip,
                    q as usize,
                    seeds,
                    (#[trigger] out@[q])@,
                ),
        decreases seeds - i,
    {
        let mut region: Vec<Vec3> = Vec::new();
        let mut k: usize = 0;
        while k < points.len()
            invariant
                k <= points@.len(),
                region@ == points@.take(k as int),
            decreases points@.len() - k,
        {
            region.push(points[k]);
            k += 1;
            assert(region@ =~= points@.take(k as int));
        }
        assert(region@ =~= points@);
        let ghost mut chain: Seq<Seq<Vec3>> = seq![region@];
        let mut j: usize = 0;
        while j < seeds
            invariant
                j <= seeds,
                i < seeds,
                forall|i: usize, j: usize| #[trigger] coincide.requires((i, j)),
                forall|v: Vec<Vec3>, i: usize, j: usize| #[trigger] clip.requires((v, i, j)),
                chain.len() == j + 1,
                chain[0] == points@,
                chain[j as int] == region@,
                forall|q: int|
                    0 <= q < j ==> cell_step(
                        #[trigger] chain[q],
                        chain[q + 1],
                        coincide,
                        clip,
                        i,
                        q as usize,
                    ),
            decreases seeds - j,
        {
            let ghost before = region@;
            if j != i && region.len() > 0 {
                if !coincide(i, j) {
                    let ghost input = region;
                    region = clip(region, i, j);
                    assert(clip.ensures((input, i, j), region));
                }
            }
            proof {
                assert(cell_step(before, region@, coincide, clip, i, j));
                let old_chain = chain;
                chain = chain.push(region@);
                assert forall|q: int| 0 <= q < j + 1 implies cell_step(
                    #[trigger] chain[q],
                    chain[q + 1],
                    coincide,
                    clip,
                    i,
                    q as usize,
                ) by {
                    if q < j {
                        assert(chain[q] == old_chain[q] && chain[q + 1] == old_chain[q + 1]);
                    }
                }
            }
            j += 1;
        }
        proof {
            assert(cell_chain(points@, coincide, clip, i, seeds, chain));
        }
        let ghost out_before = out@;
        out.push(region);
        proof {
            assert(cell_of(points@, coincide, clip, i, seeds, out@[i as int]@));
            assert forall|q: int| 0 <= q < i + 1 implies cell_of(
                points@,
                coincide,
                clip,
                q as usize,
                seeds,
                (#[trigger] out@[q])@,
            ) by {
                if q < i {
                    assert(out@[q] == out_before[q]);
                }
            }
        }
        i += 1;
    }
    out
}

} // verus!
