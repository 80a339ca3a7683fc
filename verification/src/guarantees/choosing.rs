//! What choosing, sorting and thinning out contacts promises.

use crate::contact::{ContactPoint, ContactPoints, Touch};
use crate::order::{as_indices, goes_before, stable_order, stable_order_of, SortKey};
use crate::reduce::{
    band_contacts, centers_of, close, corner_order, corners_of, deepest_four, deepest_vertices,
    deeper_than, depth_keys, dominant, elects, face_of, four_corner_points, hits_face, hull_contacts,
    in_order, kept, of_face, opens_face, pick_dominant_normal, point_of, ranks_below, reduced,
    select_contacts, summary, vertex_contacts, vertex_keys, SurfaceContact,
};
use crate::scalar::{Scalar, Vec3};
use crate::select::{
    alike_by, distinct_of, find_first_least, indices_where, keep_distinct, lemma_indices_where,
    lemma_indices_where_contains,
};
use vstd::prelude::*;

verus! {

/// The first of the smallest flagged values below a limit is found; there is none exactly
/// if no flagged value is below it.
pub proof fn the_first_of_the_smallest_is_found(
    d: &[Scalar],
    flags: &[bool],
    limit: Scalar,
    r: Option<usize>,
    j: int,
)
    requires
        flags@.len() == d@.len(),
        call_ensures(find_first_least, (d, flags, limit), r),
        0 <= j < d@.len(),
        flags@[j],
        d@[j].lt_spec(limit),
    ensures
        r is Some,
        r.unwrap() < d@.len(),
        flags@[r.unwrap() as int],
        d@[r.unwrap() as int].lt_spec(limit),
        d@[r.unwrap() as int].le_spec(d@[j]),
        j < r.unwrap() ==> d@[r.unwrap() as int].lt_spec(d@[j]),
{
    assert(d@[j] == d@[j]);
    assert(crate::select::flagged(flags@)(j));
    if let Some(k) = r {
        assert(crate::select::flagged(flags@)(k as int));
    }
}

pub proof fn lemma_distinct(
    items: Seq<Vec3>,
    usable: Seq<bool>,
    alike: spec_fn(Vec3, Vec3) -> bool,
    n: int,
)
    requires
        0 <= n <= items.len(),
    ensures
        ({
            let r = distinct_of(items, usable, alike, n);
            &&& forall|x: int|
                #![trigger r[x]]
                0 <= x < r.len() ==> exists|i: int|
                    0 <= i < n && usable[i] && #[trigger] items[i] == r[x]
            &&& forall|x: int, y: int|
                0 <= x < y < r.len() ==> !alike(#[trigger] r[x], #[trigger] r[y])
            &&& forall|i: int|
                #![trigger items[i]]
                0 <= i < n && usable[i] ==> exists|x: int|
                    0 <= x < r.len() && ((#[trigger] r[x]) == items[i] || alike(r[x], items[i]))
        }),
    decreases n,
{
    if n > 0 {
        lemma_distinct(items, usable, alike, n - 1);
        let before = distinct_of(items, usable, alike, n - 1);
        let r = distinct_of(items, usable, alike, n);
        assert forall|x: int| #![trigger r[x]] 0 <= x < r.len() implies exists|i: int|
            0 <= i < n && usable[i] && #[trigger] items[i] == r[x] by {
            if x < before.len() {
                assert(before[x] == r[x]);
                let i = choose|i: int|
                    0 <= i < n - 1 && usable[i] && #[trigger] items[i] == before[x];
                assert(items[i] == r[x]);
            } else {
                assert(items[n - 1] == r[x]);
            }
        }
        assert forall|x: int, y: int| 0 <= x < y < r.len() implies !alike(
            #[trigger] r[x],
            #[trigger] r[y],
        ) by {
            assert(r[x] == before[x]);
            if y < before.len() {
                assert(r[y] == before[y]);
            }
        }
        assert forall|i: int| #![trigger items[i]] 0 <= i < n && usable[i] implies exists|x: int|
            0 <= x < r.len() && ((#[trigger] r[x]) == items[i] || alike(r[x], items[i])) by {
            if i < n - 1 {
                let x = choose|x: int|
                    0 <= x < before.len() && ((#[trigger] before[x]) == items[i] || alike(
                        before[x],
                        items[i],
                    ));
                assert(r[x] == before[x]);
            } else if r.len() > before.len() {
                assert(r[r.len() - 1] == items[i]);
            } else {
                let x = choose|x: int|
                    0 <= x < before.len() && alike(#[trigger] before[x], items[i]);
                assert(r[x] == before[x]);
            }
        }
    }
}

/// What is kept of a list is usable and from it, no two of it are alike, and every usable
/// item is kept or alike to one that is.
pub proof fn one_of_each_kind_is_kept<F: Fn(Vec3, Vec3) -> bool>(
    items: &[Vec3],
    usable: &[bool],
    alike: F,
    r: Vec<Vec3>,
)
    requires
        call_ensures(keep_distinct::<F>, (items, usable, alike), r),
    ensures
        forall|x: int|
            #![trigger r@[x]]
            0 <= x < r@.len() ==> exists|i: int|
                0 <= i < items@.len() && usable@[i] && #[trigger] items@[i] == r@[x],
        forall|x: int, y: int|
            #![trigger r@[x], r@[y]]
            0 <= x < y < r@.len() ==> !alike.ensures((r@[x], r@[y]), true),
        forall|i: int|
            #![trigger items@[i]]
            0 <= i < items@.len() && usable@[i] ==> exists|x: int|
                0 <= x < r@.len() && ((#[trigger] r@[x]) == items@[i] || alike.ensures(
                    (r@[x], items@[i]),
                    true,
                )),
{
    let f = alike_by(alike);
    lemma_distinct(items@, usable@, f, items@.len() as int);
    assert forall|x: int, y: int|
        #![trigger r@[x], r@[y]]
        0 <= x < y < r@.len() implies !alike.ensures((r@[x], r@[y]), true) by {
        assert(!f(r@[x], r@[y]));
    }
    assert forall|i: int| #![trigger items@[i]] 0 <= i < items@.len() && usable@[i] implies exists|
        x: int,
    |
        0 <= x < r@.len() && ((#[trigger] r@[x]) == items@[i] || alike.ensures(
            (r@[x], items@[i]),
            true,
        )) by {
        let x = choose|x: int|
            0 <= x < r@.len() && ((#[trigger] r@[x]) == items@[i] || f(r@[x], items@[i]));
        assert(r@[x] == items@[i] || alike.ensures((r@[x], items@[i]), true));
    }
}

/// The first key comes no later in the lexicographic order of the four parts.
pub open spec fn no_later(k: SortKey, l: SortKey) -> bool {
    if k.a != l.a {
        k.a < l.a
    } else if k.b != l.b {
        k.b < l.b
    } else if k.c != l.c {
        k.c < l.c
    } else {
        k.d <= l.d
    }
}

/// Sorting gives every place once, by ascending keys, and keeps the order of equal ones.
pub proof fn sorting_orders_the_keys(keys: &[SortKey], order: Vec<usize>, i: int, j: int)
    requires
        call_ensures(stable_order, (keys,), order),
        0 <= i < j < order@.len(),
    ensures
        order@.len() == keys@.len(),
        order@[i] < keys@.len(),
        order@[i] != order@[j],
        no_later(keys@[order@[i] as int], keys@[order@[j] as int]),
        keys@[order@[i] as int] == keys@[order@[j] as int] ==> order@[i] < order@[j],
        forall|p: usize| p < keys@.len() ==> #[trigger] order@.contains(p),
{
    let o = as_indices(order@);
    assert(o[i] == order@[i] && o[j] == order@[j]);
    assert(goes_before(keys@, o[i], o[j]));
    assert forall|p: usize| p < keys@.len() implies #[trigger] order@.contains(p) by {
        assert(o.contains(p as int));
        let q = choose|q: int| 0 <= q < o.len() && o[q] == p;
        assert(order@[q] == p);
    }
}

proof fn lemma_kept(
    sorted: Seq<ContactPoint>,
    near: spec_fn(ContactPoint, ContactPoint) -> bool,
    k: int,
)
    requires
        0 <= k <= sorted.len(),
    ensures
        ({
            let r = kept(sorted, near, k);
            &&& r.len() <= 4
            &&& forall|x: int| 0 <= x < r.len() ==> 0 <= #[trigger] r[x] < k
            &&& forall|x: int, y: int| 0 <= x < y < r.len() ==> #[trigger] r[x] < #[trigger] r[y]
            &&& forall|x: int, y: int|
                0 <= x < y < r.len() ==> !near(sorted[#[trigger] r[x]], sorted[#[trigger] r[y]])
            &&& k > 0 ==> r.len() > 0 && r[0] == 0
            &&& forall|q: int|
                #![trigger sorted[q]]
                0 <= q < k ==> r.contains(q) || r.len() == 4 || exists|x: int|
                    0 <= x < r.len() && r[x] < q && near(sorted[#[trigger] r[x]], sorted[q])
        }),
    decreases k,
{
    if k > 0 {
        lemma_kept(sorted, near, k - 1);
        let before = kept(sorted, near, k - 1);
        let r = kept(sorted, near, k);
        if r.len() > before.len() {
            assert(r == before.push(k - 1));
            assert forall|q: int| #![trigger sorted[q]] 0 <= q < k implies r.contains(q) || r.len()
                == 4 || exists|x: int|
                0 <= x < r.len() && r[x] < q && near(sorted[#[trigger] r[x]], sorted[q]) by {
                if q == k - 1 {
                    assert(r[r.len() - 1] == q);
                } else if before.contains(q) {
                    let x = choose|x: int| 0 <= x < before.len() && before[x] == q;
                    assert(r[x] == q);
                } else {
                    let x = choose|x: int|
                        0 <= x < before.len() && before[x] < q && near(
                            sorted[#[trigger] before[x]],
                            sorted[q],
                        );
                    assert(r[x] == before[x]);
                }
            }
        } else {
            assert(r == before);
            if before.len() < 4 {
                let x = choose|x: int|
                    0 <= x < before.len() && near(sorted[#[trigger] before[x]], sorted[k - 1]);
                assert(r[x] < k - 1);
            }
        }
    }
}

/// Of the candidate contacts at most four are kept, deepest first; the deepest is kept,
/// no two kept ones are too close, and a candidate is left out only if four are kept or
/// it is too close to one that is kept and no shallower.
#[verifier::spinoff_prover]
pub proof fn the_deepest_contacts_stay<F: Fn(ContactPoint, ContactPoint) -> bool>(
    cand: &mut Vec<ContactPoint>,
    too_close: F,
    any: bool,
)
    requires
        call_ensures(select_contacts::<F>, (cand, too_close), any),
    ensures
        final(cand)@.len() <= 4,
        any <==> old(cand)@.len() > 0,
        any <==> final(cand)@.len() > 0,
        forall|x: int|
            #![trigger final(cand)@[x]]
            0 <= x < final(cand)@.len() ==> old(cand)@.contains(final(cand)@[x]),
        forall|x: int, y: int|
            #![trigger final(cand)@[x], final(cand)@[y]]
            0 <= x < y < final(cand)@.len() ==> !too_close.ensures(
                (final(cand)@[x], final(cand)@[y]),
                true,
            ) && final(cand)@[x].depth.total_rank() >= final(cand)@[y].depth.total_rank(),
        forall|i: int|
            #![trigger old(cand)@[i]]
            0 <= i < old(cand)@.len() ==> {
                &&& final(cand)@[0].depth.total_rank() >= old(cand)@[i].depth.total_rank()
                &&& final(cand)@.contains(old(cand)@[i]) || final(cand)@.len() == 4 || exists|x: int|
                    #![trigger final(cand)@[x]]
                    0 <= x < final(cand)@.len() && too_close.ensures(
                        (final(cand)@[x], old(cand)@[i]),
                        true,
                    ) && final(cand)@[x].depth.total_rank() >= old(cand)@[i].depth.total_rank()
            },
{
    let c = old(cand)@;
    let f = final(cand)@;
    let near = close(too_close);
    let order = choose|order: Seq<int>| #[trigger]
        stable_order_of(depth_keys(c), order) && f == kept(
            in_order(c, order),
            near,
            c.len() as int,
        ).map_values(|q: int| in_order(c, order)[q]);
    let sorted = in_order(c, order);
    let picks = kept(sorted, near, c.len() as int);
    lemma_kept(sorted, near, c.len() as int);
    assert(sorted.len() == c.len());
    assert forall|p: int, q: int| 0 <= p <= q < sorted.len() implies (#[trigger] sorted[p]).depth.total_rank()
        >= (#[trigger] sorted[q]).depth.total_rank() by {
        if p < q {
            assert(goes_before(depth_keys(c), order[p], order[q]));
            assert(sorted[p] == c[order[p]] && sorted[q] == c[order[q]]);
        }
    }
    assert forall|x: int| #![trigger f[x]] 0 <= x < f.len() implies c.contains(f[x]) by {
        assert(f[x] == sorted[picks[x]]);
        assert(f[x] == c[order[picks[x]]]);
    }
    assert forall|x: int, y: int|
        #![trigger f[x], f[y]]
        0 <= x < y < f.len() implies !too_close.ensures((f[x], f[y]), true)
        && f[x].depth.total_rank() >= f[y].depth.total_rank() by {
        assert(f[x] == sorted[picks[x]] && f[y] == sorted[picks[y]]);
        assert(picks[x] < picks[y]);
        assert(!near(sorted[picks[x]], sorted[picks[y]]));
    }
    assert forall|i: int| #![trigger c[i]] 0 <= i < c.len() implies {
        &&& f[0].depth.total_rank() >= c[i].depth.total_rank()
        &&& f.contains(c[i]) || f.len() == 4 || exists|x: int|
            #![trigger f[x]]
            0 <= x < f.len() && too_close.ensures((f[x], c[i]), true) && f[x].depth.total_rank()
                >= c[i].depth.total_rank()
    } by {
        assert(order.contains(i));
        let q = choose|q: int| 0 <= q < order.len() && order[q] == i;
        assert(sorted[q] == c[i]);
        assert(f[0] == sorted[picks[0]]);
        assert(sorted[0].depth.total_rank() >= sorted[q].depth.total_rank());
        if picks.contains(q) {
            let x = choose|x: int| 0 <= x < picks.len() && picks[x] == q;
            assert(f[x] == c[i]);
        } else if f.len() < 4 {
            let x = choose|x: int|
                0 <= x < picks.len() && picks[x] < q && near(sorted[#[trigger] picks[x]], sorted[q]);
            assert(f[x] == sorted[picks[x]]);
            assert(sorted[picks[x]].depth.total_rank() >= sorted[q].depth.total_rank());
        }
    }
}

proof fn lemma_four(depths: Seq<Scalar>, limit: Scalar, r: Seq<int>)
    requires
        deepest_four(depths, limit, r),
    ensures
        r.len() <= 4,
        forall|x: int|
            #![trigger r[x]]
            0 <= x < r.len() ==> 0 <= r[x] < depths.len() && limit.lt_spec(depths[r[x]]),
        forall|x: int, y: int|
            #![trigger r[x], r[y]]
            0 <= x < y < r.len() ==> r[x] != r[y] && depths[r[y]].le_spec(depths[r[x]]) && (
            depths[r[x]].rank() == depths[r[y]].rank() ==> r[x] < r[y]),
        forall|i: int|
            #![trigger depths[i]]
            0 <= i < depths.len() && limit.lt_spec(depths[i]) && !r.contains(i) ==> r.len() == 4
                && forall|x: int| #![trigger r[x]] 0 <= x < 4 ==> depths[i].le_spec(depths[r[x]]),
{
    let p = deeper_than(depths, limit);
    let list = indices_where(p, depths.len());
    lemma_indices_where(p, depths.len());
    let keys = vertex_keys(depths, list);
    let order = choose|order: Seq<int>| #[trigger]
        stable_order_of(keys, order) && r == order.take(
            if order.len() < 4 {
                order.len() as int
            } else {
                4
            },
        ).map_values(|j: int| list[j]);
    assert forall|x: int| #![trigger r[x]] 0 <= x < r.len() implies 0 <= r[x] < depths.len()
        && limit.lt_spec(depths[r[x]]) && r[x] == list[order[x]] && 0 <= order[x] < list.len() by {
        assert(0 <= order[x] < keys.len());
        assert(p(list[order[x]]));
    }
    assert forall|x: int, y: int|
        #![trigger r[x], r[y]]
        0 <= x < y < r.len() implies r[x] != r[y] && depths[r[y]].le_spec(depths[r[x]]) && (
    depths[r[x]].rank() == depths[r[y]].rank() ==> r[x] < r[y]) by {
        assert(goes_before(keys, order[x], order[y]));
        assert(r[x] == list[order[x]] && r[y] == list[order[y]]);
        if order[x] < order[y] {
            assert(list[order[x]] < list[order[y]]);
        } else if order[y] < order[x] {
            assert(list[order[y]] < list[order[x]]);
        }
    }
    assert forall|i: int|
        #![trigger depths[i]]
        0 <= i < depths.len() && limit.lt_spec(depths[i]) && !r.contains(i) implies r.len() == 4
        && forall|x: int| #![trigger r[x]] 0 <= x < 4 ==> depths[i].le_spec(depths[r[x]]) by {
        assert(p(i));
        assert(list.contains(i));
        let k = choose|k: int| 0 <= k < list.len() && list[k] == i;
        assert(order.contains(k));
        let q = choose|q: int| 0 <= q < order.len() && order[q] == k;
        if q < r.len() {
            assert(r[q] == i);
            assert(r.contains(i));
        }
        assert forall|x: int| #![trigger r[x]] 0 <= x < 4 implies depths[i].le_spec(depths[r[x]]) by {
            assert(goes_before(keys, order[x], order[q]));
            assert(r[x] == list[order[x]]);
            assert(p(list[order[x]]));
        }
    }
}

/// The deepest vertices are the up to four deepest of those deeper than the limit,
/// deepest first: one that is deeper than the limit is left out only for four that are no
/// shallower.
pub proof fn the_deepest_vertices_are_taken(
    depths: &[Scalar],
    limit: Scalar,
    r: Vec<usize>,
)
    requires
        call_ensures(deepest_vertices, (depths, limit), r),
    ensures
        r@.len() <= 4,
        forall|x: int|
            #![trigger r@[x]]
            0 <= x < r@.len() ==> r@[x] < depths@.len() && limit.lt_spec(depths@[r@[x] as int]),
        forall|x: int, y: int|
            #![trigger r@[x], r@[y]]
            0 <= x < y < r@.len() ==> r@[x] != r@[y] && depths@[r@[y] as int].le_spec(
                depths@[r@[x] as int],
            ),
        forall|i: int|
            #![trigger depths@[i]]
            0 <= i < depths@.len() && limit.lt_spec(depths@[i]) ==> (exists|x: int|
                0 <= x < r@.len() && #[trigger] r@[x] == i) || (r@.len() == 4 && forall|x: int|
                #![trigger r@[x]]
                0 <= x < 4 ==> depths@[i].le_spec(depths@[r@[x] as int])),
{
    let o = as_indices(r@);
    lemma_four(depths@, limit, o);
    assert forall|x: int| #![trigger r@[x]] 0 <= x < r@.len() implies r@[x] < depths@.len()
        && limit.lt_spec(depths@[r@[x] as int]) by {
        assert(o[x] == r@[x]);
    }
    assert forall|x: int, y: int|
        #![trigger r@[x], r@[y]]
        0 <= x < y < r@.len() implies r@[x] != r@[y] && depths@[r@[y] as int].le_spec(
        depths@[r@[x] as int],
    ) by {
        assert(o[x] == r@[x] && o[y] == r@[y]);
    }
    assert forall|i: int|
        #![trigger depths@[i]]
        0 <= i < depths@.len() && limit.lt_spec(depths@[i]) implies (exists|x: int|
        0 <= x < r@.len() && #[trigger] r@[x] == i) || (r@.len() == 4 && forall|x: int|
        #![trigger r@[x]]
        0 <= x < 4 ==> depths@[i].le_spec(depths@[r@[x] as int])) by {
        if o.contains(i) {
            let x = choose|x: int| 0 <= x < o.len() && o[x] == i;
            assert(r@[x] == i);
        } else {
            assert forall|x: int| #![trigger r@[x]] 0 <= x < 4 implies depths@[i].le_spec(
                depths@[r@[x] as int],
            ) by {
                assert(o[x] == r@[x]);
            }
        }
    }
}

/// The points of a hull against a surface: up to four, each a point of the hull deeper
/// than the limit with its own depth and its number, counted from one; none exactly if no
/// point is that deep.
pub proof fn hull_points_become_contacts(
    points: &[Vec3],
    depths: &[Scalar],
    limit: Scalar,
    normal: Vec3,
    r: Option<Touch>,
)
    requires
        depths@.len() == points@.len(),
        points@.len() < u32::MAX,
        call_ensures(hull_contacts, (points, depths, limit, normal), r),
    ensures
        r is None <==> forall|i: int|
            0 <= i < depths@.len() ==> !limit.lt_spec(#[trigger] depths@[i]),
        r is Some ==> {
            let t = r.unwrap();
            &&& t.normal == normal
            &&& 1 <= t.points@.len() <= 4
            &&& forall|k: int|
                #![trigger t.points@[k]]
                0 <= k < t.points@.len() ==> {
                    let i = t.points@[k].feature - 1;
                    &&& 0 <= i < points@.len()
                    &&& t.points@[k].point == points@[i]
                    &&& t.points@[k].depth == depths@[i]
                    &&& limit.lt_spec(depths@[i])
                    &&& depths@[i].le_spec(t.points@[0].depth)
                }
            &&& forall|i: int|
                #![trigger depths@[i]]
                0 <= i < depths@.len() && limit.lt_spec(depths@[i]) ==> depths@[i].le_spec(
                    t.points@[0].depth,
                )
        },
{
    let list = choose|list: Seq<int>| #[trigger]
        deepest_four(depths@, limit, list) && match r {
            Some(t) => {
                &&& t.normal == normal
                &&& t.points@.len() > 0
                &&& t.points@ == vertex_contacts(points@, depths@, list)
                &&& t.points.space_spec() == 0
            },
            None => list.len() == 0,
        };
    lemma_four(depths@, limit, list);
    match r {
        None => {
            assert forall|i: int| 0 <= i < depths@.len() implies !limit.lt_spec(
                #[trigger] depths@[i],
            ) by {
                if limit.lt_spec(depths@[i]) {
                    assert(!list.contains(i));
                }
            }
        },
        Some(t) => {
            assert(0 <= list[0] < depths@.len() && limit.lt_spec(depths@[list[0]]));
            assert(t.points@[0].depth == depths@[list[0]]);
            assert forall|k: int| #![trigger t.points@[k]] 0 <= k < t.points@.len() implies {
                let i = t.points@[k].feature - 1;
                &&& 0 <= i < points@.len()
                &&& t.points@[k].point == points@[i]
                &&& t.points@[k].depth == depths@[i]
                &&& limit.lt_spec(depths@[i])
                &&& depths@[i].le_spec(t.points@[0].depth)
            } by {
                assert(0 <= list[k] < depths@.len());
                if k > 0 {
                    assert(list[0] != list[k]);
                }
            }
            assert forall|i: int|
                #![trigger depths@[i]]
                0 <= i < depths@.len() && limit.lt_spec(depths@[i]) implies depths@[i].le_spec(
                t.points@[0].depth,
            ) by {
                if list.contains(i) {
                    let x = choose|x: int| 0 <= x < list.len() && list[x] == i;
                    if x > 0 {
                        assert(list[0] != list[x]);
                    }
                }
            }
        },
    }
}

/// Every point deeper than the limit becomes a contact, in order and no other does, with
/// its place, its depth and a number that counts from the first.
pub proof fn points_in_the_band_become_contacts(
    points: &[Vec3],
    depths: &[Scalar],
    limit: Scalar,
    first: u32,
    r: Vec<ContactPoint>,
)
    requires
        depths@.len() == points@.len(),
        first + points@.len() <= u32::MAX,
        call_ensures(band_contacts, (points, depths, limit, first), r),
    ensures
        forall|k: int|
            #![trigger r@[k]]
            0 <= k < r@.len() ==> {
                let i = r@[k].feature - first;
                &&& 0 <= i < points@.len()
                &&& r@[k].point == points@[i]
                &&& r@[k].depth == depths@[i]
                &&& limit.lt_spec(depths@[i])
            },
        forall|x: int, y: int|
            #![trigger r@[x], r@[y]]
            0 <= x < y < r@.len() ==> r@[x].feature < r@[y].feature,
        forall|i: int|
            #![trigger depths@[i]]
            0 <= i < points@.len() && limit.lt_spec(depths@[i]) ==> exists|k: int|
                0 <= k < r@.len() && (#[trigger] r@[k]).feature == first + i,
{
    let p = deeper_than(depths@, limit);
    let list = indices_where(p, points@.len());
    lemma_indices_where(p, points@.len());
    assert forall|k: int| #![trigger r@[k]] 0 <= k < r@.len() implies {
        let i = r@[k].feature - first;
        &&& 0 <= i < points@.len()
        &&& r@[k].point == points@[i]
        &&& r@[k].depth == depths@[i]
        &&& limit.lt_spec(depths@[i])
    } by {
        assert(p(list[k]));
    }
    assert forall|x: int, y: int| #![trigger r@[x], r@[y]] 0 <= x < y < r@.len() implies r@[x].feature
        < r@[y].feature by {
        assert(list[x] < list[y]);
        assert(0 <= list[y] < points@.len());
        assert(0 <= list[x] < points@.len());
    }
    assert forall|i: int|
        #![trigger depths@[i]]
        0 <= i < points@.len() && limit.lt_spec(depths@[i]) implies exists|k: int|
        0 <= k < r@.len() && (#[trigger] r@[k]).feature == first + i by {
        assert(p(i));
        assert(list.contains(i));
        let k = choose|k: int| 0 <= k < list.len() && list[k] == i;
        assert(r@[k].feature == first + i);
    }
}

/// How many contacts the face has.
pub open spec fn face_size(buf: Seq<SurfaceContact>, key: (i32, i32, i32)) -> int {
    buf.filter(|c: SurfaceContact| c.key == key).len() as int
}

/// The contact is the centre of its face.
pub open spec fn central(c: SurfaceContact) -> bool {
    c.feature % 16 == 0
}

/// The contact closes in faster than a tenth.
pub open spec fn hitting(c: SurfaceContact) -> bool {
    (Scalar { bits: 0x3dcc_cccd }).lt_spec(c.closing)
}

proof fn lemma_summary(buf: Seq<SurfaceContact>, key: (i32, i32, i32), n: int)
    requires
        0 <= n <= buf.len(),
    ensures
        ({
            let s = summary(buf, key, n);
            &&& s.count == face_size(buf.take(n), key)
            &&& !s.closing.is_nan_spec()
            &&& forall|j: int|
                #![trigger buf[j]]
                0 <= j < n && buf[j].key == key && !buf[j].closing.is_nan_spec()
                    ==> buf[j].closing.le_spec(s.closing)
            &&& s.closing.bits == 0xff80_0000 || exists|j: int|
                0 <= j < n && (#[trigger] buf[j]).key == key && buf[j].closing == s.closing
            &&& s.has_center <==> exists|j: int|
                0 <= j < n && (#[trigger] buf[j]).key == key && central(buf[j])
        }),
    decreases n,
{
    reveal(Seq::filter);
    if n > 0 {
        lemma_summary(buf, key, n - 1);
        assert(buf.take(n).drop_last() =~= buf.take(n - 1));
        assert(buf.take(n).last() == buf[n - 1]);
        let before = summary(buf, key, n - 1);
        let s = summary(buf, key, n);
        if buf[n - 1].key == key && s.closing == buf[n - 1].closing {
            assert(buf[n - 1].closing == s.closing);
        } else if before.closing.bits != 0xff80_0000 {
            let j = choose|j: int|
                0 <= j < n - 1 && (#[trigger] buf[j]).key == key && buf[j].closing == before.closing;
            assert(buf[j].closing == s.closing);
        }
        if before.has_center {
            let j = choose|j: int|
                0 <= j < n - 1 && (#[trigger] buf[j]).key == key && central(buf[j]);
            assert(buf[j].key == key && central(buf[j]));
        }
        if buf[n - 1].key == key && central(buf[n - 1]) {
            assert(s.has_center);
        }
    }
}

proof fn lemma_opener(buf: Seq<SurfaceContact>, j: int) -> (i: int)
    requires
        0 <= j < buf.len(),
    ensures
        0 <= i <= j,
        buf[i].key == buf[j].key,
        opens_face(buf)(i),
    decreases j,
{
    if opens_face(buf)(j) {
        j
    } else {
        let k = choose|k: int| 0 <= k < j && (#[trigger] buf[k]).key == buf[j].key;
        lemma_opener(buf, k)
    }
}

/// One face gives the normal, that of its first contact, turned from the first body to
/// the second. If any contact closes in faster than a tenth it is the face of the
/// fastest; otherwise, if any contact is the centre of its face it is a face that has
/// its centre, and among such faces none has more contacts.
#[verifier::spinoff_prover]
pub proof fn the_dominant_face_gives_the_normal(
    buf: &[SurfaceContact],
    provider_is_a: bool,
    r: Option<((i32, i32, i32), Vec3)>,
    j: int,
)
    requires
        call_ensures(pick_dominant_normal, (buf, provider_is_a), r),
    ensures
        r is Some <==> buf@.len() > 0,
        r is Some ==> exists|k: int|
            #![trigger buf@[k]]
            {
                &&& 0 <= k < buf@.len()
                &&& buf@[k].key == r.unwrap().0
                &&& forall|i: int| 0 <= i < k ==> (#[trigger] buf@[i]).key != r.unwrap().0
                &&& provider_is_a ==> r.unwrap().1 == buf@[k].normal
                &&& !provider_is_a ==> r.unwrap().1 == buf@[k].normal.neg_spec()
            },
        0 <= j < buf@.len() && hitting(buf@[j]) ==> exists|i: int|
            #![trigger buf@[i]]
            0 <= i < buf@.len() && buf@[i].key == r.unwrap().0 && hitting(buf@[i])
                && buf@[j].closing.le_spec(buf@[i].closing),
        0 <= j < buf@.len() && central(buf@[j]) && (forall|i: int|
            0 <= i < buf@.len() ==> !hitting(#[trigger] buf@[i])) ==> {
            &&& exists|i: int|
                #![trigger buf@[i]]
                0 <= i < buf@.len() && buf@[i].key == r.unwrap().0 && central(buf@[i])
            &&& face_size(buf@, buf@[j].key) <= face_size(buf@, r.unwrap().0)
        },
        0 <= j < buf@.len() && (forall|i: int|
            0 <= i < buf@.len() ==> !hitting(#[trigger] buf@[i]) && !central(buf@[i]))
            ==> face_size(buf@, buf@[j].key) <= face_size(buf@, r.unwrap().0),
{
    let b = buf@;
    let n = b.len() as int;
    assert(b.take(n) =~= b);
    if b.len() > 0 {
        let pick = r.unwrap();
        let k = choose|k: int| #[trigger]
            dominant(b, k) && pick.0 == b[k].key && pick.1 == if provider_is_a {
                b[k].normal
            } else {
                b[k].normal.neg_spec()
            };
        assert(opens_face(b)(k));
        lemma_summary(b, b[k].key, n);
        if 0 <= j < n {
            let i = lemma_opener(b, j);
            lemma_summary(b, b[j].key, n);
            if hitting(b[j]) {
                assert(hits_face(b, i));
                assert(elects(b, i));
                let fk = face_of(b, k).closing;
                let e = choose|e: int|
                    0 <= e < n && (#[trigger] b[e]).key == b[k].key && b[e].closing == fk;
                assert(b[e].key == pick.0);
                assert(hitting(b[e]));
            } else if forall|i: int| 0 <= i < n ==> !hitting(#[trigger] b[i]) {
                assert forall|q: int| 0 <= q < n && opens_face(b)(q) implies !(#[trigger] hits_face(
                    b,
                    q,
                )) by {
                    lemma_summary(b, b[q].key, n);
                    if hits_face(b, q) {
                        let e = choose|e: int|
                            0 <= e < n && (#[trigger] b[e]).key == b[q].key && b[e].closing
                                == face_of(b, q).closing;
                        assert(!hitting(b[e]));
                    }
                }
                if central(b[j]) {
                    assert(face_of(b, i).has_center);
                    assert(elects(b, i));
                    let e = choose|e: int|
                        0 <= e < n && (#[trigger] b[e]).key == b[k].key && central(b[e]);
                    assert(b[e].key == pick.0);
                } else if forall|i: int| 0 <= i < n ==> !hitting(#[trigger] b[i]) && !central(b[i]) {
                    assert forall|q: int| 0 <= q < n && opens_face(b)(q) implies !(#[trigger] face_of(
                        b,
                        q,
                    )).has_center by {
                        lemma_summary(b, b[q].key, n);
                        if face_of(b, q).has_center {
                            let e = choose|e: int|
                                0 <= e < n && (#[trigger] b[e]).key == b[q].key && central(b[e]);
                            assert(!central(b[e]));
                        }
                    }
                    assert(elects(b, i));
                }
            }
        }
    }
}

/// The points that stand for a face are contacts of that face, as many as there are but
/// at most four; if there are more, corners come before centres, each in order.
pub proof fn four_points_stand_for_a_face(
    buf: &[SurfaceContact],
    key: (i32, i32, i32),
    r: ContactPoints,
)
    requires
        call_ensures(four_corner_points, (buf, key), r),
    ensures
        r@.len() <= 4,
        exists|from: Seq<int>|
            #![trigger from.len()]
            {
                &&& from.len() == r@.len()
                &&& forall|x: int|
                    #![trigger from[x]]
                    0 <= x < from.len() ==> {
                        &&& 0 <= from[x] < buf@.len()
                        &&& buf@[from[x]].key == key
                        &&& r@[x].point == buf@[from[x]].point
                        &&& r@[x].depth == buf@[from[x]].depth
                        &&& r@[x].feature == buf@[from[x]].feature
                    }
                &&& forall|x: int, y: int|
                    #![trigger from[x], from[y]]
                    0 <= x < y < from.len() ==> from[x] != from[y] && (from[x] < from[y] || (!central(
                        buf@[from[x]],
                    ) && central(buf@[from[y]])))
                &&& forall|i: int|
                    #![trigger buf@[i]]
                    0 <= i < buf@.len() && buf@[i].key == key && !from.contains(i) ==> from.len() == 4
                        && (!central(buf@[i]) ==> forall|x: int|
                        #![trigger from[x]]
                        0 <= x < 4 ==> !central(buf@[from[x]]))
            },
{
    let b = buf@;
    let n = b.len();
    let all = indices_where(of_face(b, key), n);
    let corners = indices_where(corners_of(b, key), n);
    let centers = indices_where(centers_of(b, key), n);
    lemma_indices_where(of_face(b, key), n);
    lemma_indices_where(corners_of(b, key), n);
    lemma_indices_where(centers_of(b, key), n);
    let order = corner_order(b, key);
    let cut: int = if order.len() < 4 {
        order.len() as int
    } else {
        4
    };
    let from = order.take(cut);
    assert(from.len() == r@.len());
    assert forall|x: int| #![trigger order[x]] 0 <= x < order.len() implies 0 <= order[x] < n
        && b[order[x]].key == key by {
        if all.len() > 4 {
            if x < corners.len() {
                assert(order[x] == corners[x]);
                assert(corners_of(b, key)(corners[x]));
            } else {
                assert(order[x] == centers[x - corners.len()]);
                assert(centers_of(b, key)(centers[x - corners.len()]));
            }
        } else {
            assert(of_face(b, key)(all[x]));
        }
    }
    assert forall|x: int| #![trigger from[x]] 0 <= x < from.len() implies {
        &&& 0 <= from[x] < n
        &&& b[from[x]].key == key
        &&& r@[x].point == b[from[x]].point
        &&& r@[x].depth == b[from[x]].depth
        &&& r@[x].feature == b[from[x]].feature
    } by {
        assert(from[x] == order[x]);
    }
    assert forall|x: int, y: int|
        #![trigger from[x], from[y]]
        0 <= x < y < from.len() implies from[x] != from[y] && (from[x] < from[y] || (!central(
        b[from[x]],
    ) && central(b[from[y]]))) by {
        assert(from[x] == order[x] && from[y] == order[y]);
        if all.len() > 4 {
            if y < corners.len() {
                assert(corners[x] < corners[y]);
            } else if x >= corners.len() {
                assert(centers[x - corners.len()] < centers[y - corners.len()]);
            } else {
                assert(corners_of(b, key)(corners[x]));
                assert(centers_of(b, key)(centers[y - corners.len()]));
            }
        } else {
            assert(all[x] < all[y]);
        }
    }
    assert forall|i: int|
        #![trigger b[i]]
        0 <= i < n && b[i].key == key && !from.contains(i) implies from.len() == 4 && (!central(b[i])
        ==> forall|x: int| #![trigger from[x]] 0 <= x < 4 ==> !central(b[from[x]])) by {
        assert(of_face(b, key)(i));
        assert(all.contains(i));
        if all.len() > 4 {
            lemma_pieces(b, key);
            assert forall|x: int|
                #![trigger from[x]]
                0 <= x < 4 && !central(b[i]) implies !central(b[from[x]]) by {
                assert(corners_of(b, key)(i));
                assert(corners.contains(i));
                let q = choose|q: int| 0 <= q < corners.len() && corners[q] == i;
                assert(order[q] == i);
                if q < cut {
                    assert(from[q] == i);
                    assert(from.contains(i));
                }
                assert(from[x] == order[x]);
                assert(order[x] == corners[x]);
                assert(corners_of(b, key)(corners[x]));
            }
        } else {
            let q = choose|q: int| 0 <= q < all.len() && all[q] == i;
            assert(from[q] == i);
        }
    }
}

proof fn lemma_pieces(b: Seq<SurfaceContact>, key: (i32, i32, i32))
    ensures
        indices_where(of_face(b, key), b.len()).len() == indices_where(
            corners_of(b, key),
            b.len(),
        ).len() + indices_where(centers_of(b, key), b.len()).len(),
{
    lemma_pieces_below(b, key, b.len());
}

proof fn lemma_pieces_below(b: Seq<SurfaceContact>, key: (i32, i32, i32), n: nat)
    ensures
        indices_where(of_face(b, key), n).len() == indices_where(corners_of(b, key), n).len()
            + indices_where(centers_of(b, key), n).len(),
    decreases n,
{
    if n > 0 {
        lemma_pieces_below(b, key, (n - 1) as nat);
    }
}

} // verus!
