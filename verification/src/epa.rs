//! The expanding polytope: its triangles, and how a new point replaces the part
//! that it can see.

use crate::gjk::SimplexVertex;
use crate::planes::deepest_corner;
use crate::scalar::{Scalar, Vec3};
use crate::select::{
    alike_by, everything, find_first_least, first_least, indices_where, none_below,
};
use vstd::prelude::*;

verus! {

/// A triangle of the polytope, by vertex numbers.
#[derive(Clone, Copy, Debug, PartialEq, Eq, Structural)]
pub struct Tri {
    pub a: usize,
    pub b: usize,
    pub c: usize,
}

/// An edge, the smaller vertex first.
#[derive(Clone, Copy, Debug, PartialEq, Eq, Structural)]
pub struct Edge {
    pub lo: usize,
    pub hi: usize,
}

/// The edge between two vertices.
pub open spec fn edge_of(u: usize, v: usize) -> Edge {
    if u < v {
        Edge { lo: u, hi: v }
    } else {
        Edge { lo: v, hi: u }
    }
}

fn edge_between(u: usize, v: usize) -> (e: Edge)
    ensures
        e == edge_of(u, v),
{
    if u < v {
        Edge { lo: u, hi: v }
    } else {
        Edge { lo: v, hi: u }
    }
}

/// More triangles than this end the expansion.
pub const MAX_FACES: usize = 64;

/// The tetrahedron on the first four vertices; a triangle that faces inwards is
/// turned round.
pub open spec fn tetrahedron(flip: Seq<bool>) -> Seq<Tri> {
    seq![
        if flip[0] { Tri { a: 0, b: 2, c: 1 } } else { Tri { a: 0, b: 1, c: 2 } },
        if flip[1] { Tri { a: 0, b: 1, c: 3 } } else { Tri { a: 0, b: 3, c: 1 } },
        if flip[2] { Tri { a: 0, b: 3, c: 2 } } else { Tri { a: 0, b: 2, c: 3 } },
        if flip[3] { Tri { a: 1, b: 2, c: 3 } } else { Tri { a: 1, b: 3, c: 2 } },
    ]
}

/// The tetrahedron on the first four vertices.
pub fn initial_faces(flip: &[bool; 4]) -> (faces: Vec<Tri>)
    ensures
        faces@ == tetrahedron(flip@),
{
    let mut faces: Vec<Tri> = Vec::new();
    faces.push(
        if flip[0] {
            Tri { a: 0, b: 2, c: 1 }
        } else {
            Tri { a: 0, b: 1, c: 2 }
        },
    );
    faces.push(
        if flip[1] {
            Tri { a: 0, b: 1, c: 3 }
        } else {
            Tri { a: 0, b: 3, c: 1 }
        },
    );
    faces.push(
        if flip[2] {
            Tri { a: 0, b: 3, c: 2 }
        } else {
            Tri { a: 0, b: 2, c: 3 }
        },
    );
    faces.push(
        if flip[3] {
            Tri { a: 1, b: 2, c: 3 }
        } else {
            Tri { a: 1, b: 3, c: 2 }
        },
    );
    assert(faces@ =~= tetrahedron(flip@));
    faces
}

/// The list with the edge taken out, if it was there, or added at the end.
pub open spec fn toggled(list: Seq<Edge>, e: Edge) -> Seq<Edge> {
    if list.contains(e) {
        list.remove(first_place(list, e, list.len() as int))
    } else {
        list.push(e)
    }
}

/// The first place of the edge among the first `n`, or `n` if it is not there.
pub open spec fn first_place(list: Seq<Edge>, e: Edge, n: int) -> int
    decreases n,
{
    if n <= 0 {
        0
    } else {
        let p = first_place(list, e, n - 1);
        if p < n - 1 {
            p
        } else if list[n - 1] == e {
            n - 1
        } else {
            n
        }
    }
}

proof fn lemma_first_place(list: Seq<Edge>, e: Edge, n: int)
    requires
        0 <= n <= list.len(),
    ensures
        0 <= first_place(list, e, n) <= n,
        first_place(list, e, n) < n ==> list[first_place(list, e, n)] == e,
        forall|i: int| 0 <= i < first_place(list, e, n) ==> list[i] != e,
    decreases n,
{
    if n > 0 {
        lemma_first_place(list, e, n - 1);
    }
}

/// The list after the three edges of a triangle were toggled.
pub open spec fn tri_toggled(list: Seq<Edge>, f: Tri) -> Seq<Edge> {
    toggled(toggled(toggled(list, edge_of(f.a, f.b)), edge_of(f.b, f.c)), edge_of(f.c, f.a))
}

/// The horizon after the visible ones among the first `n` triangles: the edges
/// that belong to an odd number of them.
pub open spec fn horizon_of(faces: Seq<Tri>, visible: Seq<bool>, n: int) -> Seq<Edge>
    decreases n,
{
    if n <= 0 {
        Seq::empty()
    } else {
        let before = horizon_of(faces, visible, n - 1);
        if visible[n - 1] {
            tri_toggled(before, faces[n - 1])
        } else {
            before
        }
    }
}

/// The triangles that are not visible.
pub open spec fn hidden(visible: Seq<bool>) -> spec_fn(int) -> bool {
    |i: int| !visible[i]
}

/// The polytope after the visible triangles were replaced by those from the
/// horizon to the new vertex `w`.
pub open spec fn expanded(faces: Seq<Tri>, visible: Seq<bool>, w: usize) -> Seq<Tri> {
    indices_where(hidden(visible), faces.len()).map_values(|i: int| faces[i]) + horizon_of(
        faces,
        visible,
        faces.len() as int,
    ).map_values(|e: Edge| Tri { a: e.lo, b: e.hi, c: w })
}

fn toggle(list: &mut Vec<Edge>, e: Edge)
    ensures
        final(list)@ == toggled(old(list)@, e),
{
    let ghost before = list@;
    let mut p: usize = 0;
    while p < list.len()
        invariant
            p <= list@.len(),
            list@ == before,
            before == old(list)@,
            forall|i: int| 0 <= i < p ==> list@[i] != e,
        decreases list@.len() - p,
    {
        if list[p].lo == e.lo && list[p].hi == e.hi {
            proof {
                assert(before[p as int] == e);
                assert(before.contains(e));
                let n = before.len() as int;
                lemma_first_place(before, e, n);
                let q = first_place(before, e, n);
                if q < p {
                    assert(before[q] != e);
                }
                if q > p {
                    assert(before[p as int] != e);
                }
            }
            list.remove(p);
            return;
        }
        p += 1;
    }
    assert(!before.contains(e));
    list.push(e);
}

/// Replaces the triangles that the new vertex `w` can see. `None` if there is
/// nothing to replace, or nothing to connect the new vertex to.
pub fn expand(faces: &Vec<Tri>, visible: &[bool], w: usize) -> (r: Option<Vec<Tri>>)
    requires
        visible@.len() == faces@.len(),
    ensures
        r is Some <==> (exists|i: int| 0 <= i < faces@.len() && #[trigger] visible@[i])
            && horizon_of(faces@, visible@, faces@.len() as int).len() > 0,
        r matches Some(next) ==> next@ == expanded(faces@, visible@, w),
{
    let ghost p = hidden(visible@);
    let mut any: bool = false;
    let mut next: Vec<Tri> = Vec::new();
    let mut horizon: Vec<Edge> = Vec::new();
    let mut i: usize = 0;
    assert(next@ =~= indices_where(p, 0).map_values(|i: int| faces@[i]));
    while i < faces.len()
        invariant
            i <= faces@.len(),
            visible@.len() == faces@.len(),
            p == hidden(visible@),
            any == (exists|j: int| 0 <= j < i && #[trigger] visible@[j]),
            next@ == indices_where(p, i as nat).map_values(|i: int| faces@[i]),
            horizon@ == horizon_of(faces@, visible@, i as int),
        decreases faces@.len() - i,
    {
        let f = faces[i];
        if visible[i] {
            assert(visible@[i as int]);
            any = true;
            toggle(&mut horizon, edge_between(f.a, f.b));
            toggle(&mut horizon, edge_between(f.b, f.c));
            toggle(&mut horizon, edge_between(f.c, f.a));
            assert(!p(i as int));
        } else {
            next.push(f);
            assert(p(i as int));
            assert(next@ =~= indices_where(p, (i + 1) as nat).map_values(|i: int| faces@[i]));
        }
        i += 1;
    }
    if !any || horizon.len() == 0 {
        return None;
    }
    let ghost kept = next@;
    let mut k: usize = 0;
    while k < horizon.len()
        invariant
            k <= horizon@.len(),
            next@ == kept + horizon@.take(k as int).map_values(
                |e: Edge| Tri { a: e.lo, b: e.hi, c: w },
            ),
        decreases horizon@.len() - k,
    {
        let e = horizon[k];
        next.push(Tri { a: e.lo, b: e.hi, c: w });
        k += 1;
        assert(next@ =~= kept + horizon@.take(k as int).map_values(
            |e: Edge| Tri { a: e.lo, b: e.hi, c: w },
        ));
    }
    assert(horizon@.take(k as int) =~= horizon@);
    Some(next)
}

/// Whether the expansion goes on with this many triangles.
pub fn goes_on(faces: usize) -> (r: bool)
    ensures
        r == (faces <= MAX_FACES),
{
    faces <= MAX_FACES
}

/// An edge occurs an odd number of times among the edges of the triangle.
pub open spec fn has_odd(f: Tri, e: Edge) -> bool {
    ((edge_of(f.a, f.b) == e) != (edge_of(f.b, f.c) == e)) != (edge_of(f.c, f.a) == e)
}

/// An edge occurs an odd number of times in the chosen ones of the first `n`
/// triangles.
pub open spec fn odd_in(faces: Seq<Tri>, chosen: spec_fn(int) -> bool, n: int, e: Edge) -> bool
    decreases n,
{
    if n <= 0 {
        false
    } else {
        odd_in(faces, chosen, n - 1, e) != (chosen(n - 1) && has_odd(faces[n - 1], e))
    }
}

/// Every triangle.
pub open spec fn every() -> spec_fn(int) -> bool {
    |i: int| true
}

/// The surface is closed: every edge occurs an even number of times.
pub open spec fn closed_surface(faces: Seq<Tri>) -> bool {
    forall|e: Edge| !#[trigger] odd_in(faces, every(), faces.len() as int, e)
}

/// All vertices are below `n`.
pub open spec fn vertices_below(faces: Seq<Tri>, n: usize) -> bool {
    forall|i: int|
        0 <= i < faces.len() ==> (#[trigger] faces[i]).a < n && faces[i].b < n && faces[i].c < n
}

/// The tetrahedron is closed, whichever triangles are turned round.
pub proof fn tetrahedron_is_closed(flip: Seq<bool>)
    requires
        flip.len() == 4,
    ensures
        closed_surface(tetrahedron(flip)),
        vertices_below(tetrahedron(flip), 4),
{
    let t = tetrahedron(flip);
    assert forall|e: Edge| !#[trigger] odd_in(t, every(), t.len() as int, e) by {
        reveal_with_fuel(odd_in, 5);
        lemma_turned(0, 1, 2, e);
        lemma_turned(0, 3, 1, e);
        lemma_turned(0, 2, 3, e);
        lemma_turned(1, 3, 2, e);
    }
}

/// Turning a triangle round keeps its edges.
proof fn lemma_turned(a: usize, b: usize, c: usize, e: Edge)
    ensures
        has_odd(Tri { a, b, c }, e) == has_odd(Tri { a, b: c, c: b }, e),
{
}

/// The edge touches the vertex with one end only.
pub open spec fn touches_odd(e: Edge, v: usize) -> bool {
    (e.lo == v) != (e.hi == v)
}

/// An odd number of the listed edges touch the vertex with one end.
pub open spec fn degree_odd(list: Seq<Edge>, v: usize) -> bool
    decreases list.len(),
{
    if list.len() == 0 {
        false
    } else {
        degree_odd(list.drop_last(), v) != touches_odd(list.last(), v)
    }
}

proof fn lemma_degree_push(list: Seq<Edge>, e: Edge, v: usize)
    ensures
        degree_odd(list.push(e), v) == (degree_odd(list, v) != touches_odd(e, v)),
{
    assert(list.push(e).drop_last() =~= list);
}

proof fn lemma_degree_remove(list: Seq<Edge>, i: int, v: usize)
    requires
        0 <= i < list.len(),
    ensures
        degree_odd(list.remove(i), v) == (degree_odd(list, v) != touches_odd(list[i], v)),
    decreases list.len(),
{
    let r = list.remove(i);
    if i == list.len() - 1 {
        assert(r =~= list.drop_last());
    } else {
        lemma_degree_remove(list.drop_last(), i, v);
        assert(r.drop_last() =~= list.drop_last().remove(i));
        assert(r.last() == list.last());
    }
}

/// Toggling an edge flips its presence and the degree of its ends, and keeps the
/// list free of duplicates.
proof fn lemma_toggled(list: Seq<Edge>, e: Edge)
    requires
        list.no_duplicates(),
    ensures
        toggled(list, e).no_duplicates(),
        forall|x: Edge| #[trigger] toggled(list, e).contains(x) == (list.contains(x) != (x == e)),
        forall|v: usize| #[trigger]
            degree_odd(toggled(list, e), v) == (degree_odd(list, v) != touches_odd(e, v)),
{
    let t = toggled(list, e);
    let n = list.len() as int;
    lemma_first_place(list, e, n);
    let p = first_place(list, e, n);
    if list.contains(e) {
        let q = choose|q: int| 0 <= q < list.len() && list[q] == e;
        if p == n {
            assert(list[q] != e);
        }
        assert(list[p] == e);
        assert forall|x: Edge| #[trigger] t.contains(x) == (list.contains(x) != (x == e)) by {
            if t.contains(x) {
                let j = choose|j: int| 0 <= j < t.len() && t[j] == x;
                let i = if j < p {
                    j
                } else {
                    j + 1
                };
                assert(list[i] == x);
                assert(i != p);
            }
            if list.contains(x) && x != e {
                let i = choose|i: int| 0 <= i < list.len() && list[i] == x;
                let j = if i < p {
                    i
                } else {
                    i - 1
                };
                assert(t[j] == x);
            }
        }
        assert forall|v: usize| #[trigger] degree_odd(t, v) == (degree_odd(list, v) != touches_odd(
            e,
            v,
        )) by {
            lemma_degree_remove(list, p, v);
        }
    } else {
        assert forall|x: Edge| #[trigger] t.contains(x) == (list.contains(x) != (x == e)) by {
            if list.contains(x) {
                let i = choose|i: int| 0 <= i < list.len() && list[i] == x;
                assert(t[i] == x);
            }
            if x == e {
                assert(t[n] == e);
            }
        }
        assert forall|v: usize| #[trigger] degree_odd(t, v) == (degree_odd(list, v) != touches_odd(
            e,
            v,
        )) by {
            lemma_degree_push(list, e, v);
        }
    }
}

/// The visible triangles.
pub open spec fn seen(visible: Seq<bool>) -> spec_fn(int) -> bool {
    |i: int| visible[i]
}

/// The horizon holds each edge once, and exactly those that occur an odd number
/// of times in the visible triangles; every vertex has an even number of them.
pub proof fn horizon_is_the_border(faces: Seq<Tri>, visible: Seq<bool>, n: int)
    requires
        0 <= n <= faces.len(),
        visible.len() == faces.len(),
    ensures
        horizon_of(faces, visible, n).no_duplicates(),
        forall|e: Edge| #[trigger]
            horizon_of(faces, visible, n).contains(e) == odd_in(faces, seen(visible), n, e),
        forall|v: usize| !#[trigger] degree_odd(horizon_of(faces, visible, n), v),
    decreases n,
{
    if n > 0 {
        horizon_is_the_border(faces, visible, n - 1);
        let h = horizon_of(faces, visible, n - 1);
        let f = faces[n - 1];
        if visible[n - 1] {
            let h1 = toggled(h, edge_of(f.a, f.b));
            let h2 = toggled(h1, edge_of(f.b, f.c));
            let h3 = toggled(h2, edge_of(f.c, f.a));
            lemma_toggled(h, edge_of(f.a, f.b));
            lemma_toggled(h1, edge_of(f.b, f.c));
            lemma_toggled(h2, edge_of(f.c, f.a));
            assert(horizon_of(faces, visible, n) == h3);
            assert forall|e: Edge| #[trigger] h3.contains(e) == odd_in(
                faces,
                seen(visible),
                n,
                e,
            ) by {
                assert(h2.contains(e) == (h1.contains(e) != (e == edge_of(f.b, f.c))));
                assert(h1.contains(e) == (h.contains(e) != (e == edge_of(f.a, f.b))));
                assert(h.contains(e) == odd_in(faces, seen(visible), n - 1, e));
            }
            assert forall|v: usize| !#[trigger] degree_odd(h3, v) by {
                assert(degree_odd(h2, v) == (degree_odd(h1, v) != touches_odd(
                    edge_of(f.b, f.c),
                    v,
                )));
                assert(degree_odd(h1, v) == (degree_odd(h, v) != touches_odd(
                    edge_of(f.a, f.b),
                    v,
                )));
                assert(!degree_odd(h, v));
            }
        } else {
            assert forall|e: Edge| #[trigger] h.contains(e) == odd_in(
                faces,
                seen(visible),
                n,
                e,
            ) by {
                assert(h.contains(e) == odd_in(faces, seen(visible), n - 1, e));
            }
        }
    }
}

/// Occurrences in all triangles are those in the visible and those in the hidden
/// ones.
proof fn lemma_split(faces: Seq<Tri>, visible: Seq<bool>, n: int, e: Edge)
    requires
        0 <= n <= faces.len(),
        visible.len() == faces.len(),
    ensures
        odd_in(faces, every(), n, e) == (odd_in(faces, seen(visible), n, e) != odd_in(
            faces,
            hidden(visible),
            n,
            e,
        )),
    decreases n,
{
    if n > 0 {
        lemma_split(faces, visible, n - 1, e);
    }
}

/// Listing the chosen triangles keeps their occurrences.
proof fn lemma_listed(faces: Seq<Tri>, chosen: spec_fn(int) -> bool, n: nat, e: Edge)
    requires
        n <= faces.len(),
    ensures
        ({
            let list = indices_where(chosen, n).map_values(|i: int| faces[i]);
            odd_in(list, every(), list.len() as int, e) == odd_in(faces, chosen, n as int, e)
        }),
    decreases n,
{
    let f = |i: int| faces[i];
    if n > 0 {
        lemma_listed(faces, chosen, (n - 1) as nat, e);
        let before = indices_where(chosen, (n - 1) as nat).map_values(f);
        let list = indices_where(chosen, n).map_values(f);
        if chosen(n - 1) {
            assert(list =~= before.push(faces[n - 1]));
            lemma_odd_prefix(list, before, before.len() as int, e);
        } else {
            assert(list =~= before);
        }
    }
}

proof fn lemma_odd_prefix(list: Seq<Tri>, before: Seq<Tri>, n: int, e: Edge)
    requires
        0 <= n <= before.len(),
        before.len() <= list.len(),
        forall|i: int| 0 <= i < before.len() ==> #[trigger] list[i] == before[i],
    ensures
        odd_in(list, every(), n, e) == odd_in(before, every(), n, e),
    decreases n,
{
    if n > 0 {
        lemma_odd_prefix(list, before, n - 1, e);
        assert(list[n - 1] == before[n - 1]);
    }
}

/// Occurrences in two lists one after the other add up.
proof fn lemma_odd_append(x: Seq<Tri>, y: Seq<Tri>, n: int, e: Edge)
    requires
        0 <= n <= y.len(),
    ensures
        odd_in(x + y, every(), x.len() + n, e) == (odd_in(x, every(), x.len() as int, e) != odd_in(
            y,
            every(),
            n,
            e,
        )),
    decreases n,
{
    if n > 0 {
        lemma_odd_append(x, y, n - 1, e);
        assert((x + y)[x.len() + n - 1] == y[n - 1]);
    } else {
        lemma_odd_prefix(x + y, x, x.len() as int, e);
    }
}

/// The triangles from a list of edges to vertex `w`.
spec fn fan(list: Seq<Edge>, w: usize) -> Seq<Tri> {
    list.map_values(|e: Edge| Tri { a: e.lo, b: e.hi, c: w })
}

/// An edge occurs in the fan as it does in the list, or, if it leads to `w`, as
/// often as its other end is touched.
proof fn lemma_fan(list: Seq<Edge>, w: usize, n: int, e: Edge)
    requires
        list.no_duplicates(),
        0 <= n <= list.len(),
        forall|i: int|
            0 <= i < list.len() ==> (#[trigger] list[i]).lo <= list[i].hi && list[i].hi < w,
        e.lo <= e.hi,
    ensures
        e.hi < w ==> odd_in(fan(list, w), every(), n, e) == list.take(n).contains(e),
        e.hi == w && e.lo < w ==> odd_in(fan(list, w), every(), n, e) == degree_odd(
            list.take(n),
            e.lo,
        ),
        e.hi == w && e.lo == w ==> !odd_in(fan(list, w), every(), n, e),
        e.hi > w ==> !odd_in(fan(list, w), every(), n, e),
    decreases n,
{
    if n > 0 {
        lemma_fan(list, w, n - 1, e);
        let h = list[n - 1];
        let f = fan(list, w)[n - 1];
        assert(f == Tri { a: h.lo, b: h.hi, c: w });
        assert(h.lo <= h.hi && h.hi < w);
        assert(edge_of(h.lo, h.hi) == h);
        assert(edge_of(h.hi, w) == Edge { lo: h.hi, hi: w });
        assert(edge_of(w, h.lo) == Edge { lo: h.lo, hi: w });
        assert(list.take(n).drop_last() =~= list.take(n - 1));
        assert(list.take(n).last() == h);
        assert(list.take(n) =~= list.take(n - 1).push(h));
        if e.hi < w {
            if list.take(n).contains(e) {
                let some = list.take(n);
                let j = choose|j: int| 0 <= j < some.len() && some[j] == e;
                if j < n - 1 {
                    assert(list.take(n - 1)[j] == e);
                }
            }
            if list.take(n - 1).contains(e) {
                let less = list.take(n - 1);
                let j = choose|j: int| 0 <= j < less.len() && less[j] == e;
                assert(list.take(n)[j] == e);
                assert(list[j] == e);
                assert(h != e);
            }
            if h == e {
                assert(list.take(n)[n - 1] == e);
            }
        }
    } else {
        assert(list.take(0) =~= Seq::<Edge>::empty());
    }
}

/// The edges of triangles below `w` lie below `w`.
proof fn lemma_no_high_edge(faces: Seq<Tri>, chosen: spec_fn(int) -> bool, w: usize, n: int, e: Edge)
    requires
        0 <= n <= faces.len(),
        vertices_below(faces, w),
        e.hi >= w || e.lo > e.hi,
    ensures
        !odd_in(faces, chosen, n, e),
    decreases n,
{
    if n > 0 {
        lemma_no_high_edge(faces, chosen, w, n - 1, e);
        assert(faces[n - 1].a < w && faces[n - 1].b < w && faces[n - 1].c < w);
    }
}

/// Replacing what a new vertex can see keeps the surface closed.
pub proof fn expansion_keeps_the_surface_closed(faces: Seq<Tri>, visible: Seq<bool>, w: usize)
    requires
        visible.len() == faces.len(),
        vertices_below(faces, w),
        closed_surface(faces),
        w < usize::MAX,
    ensures
        closed_surface(expanded(faces, visible, w)),
        vertices_below(expanded(faces, visible, w), (w + 1) as usize),
{
    let n = faces.len() as int;
    let kept = indices_where(hidden(visible), faces.len()).map_values(|i: int| faces[i]);
    let h = horizon_of(faces, visible, n);
    let new = fan(h, w);
    let all = expanded(faces, visible, w);
    assert(all =~= kept + new);
    horizon_is_the_border(faces, visible, n);
    assert forall|i: int| 0 <= i < h.len() implies (#[trigger] h[i]).lo <= h[i].hi && h[i].hi
        < w by {
        assert(h.contains(h[i]));
        if h[i].hi >= w || h[i].lo > h[i].hi {
            lemma_no_high_edge(faces, seen(visible), w, n, h[i]);
        }
    }
    assert forall|e: Edge| !#[trigger] odd_in(all, every(), all.len() as int, e) by {
        lemma_odd_append(kept, new, new.len() as int, e);
        lemma_listed(faces, hidden(visible), faces.len(), e);
        lemma_split(faces, visible, n, e);
        assert(!odd_in(faces, every(), n, e));
        assert(h.contains(e) == odd_in(faces, seen(visible), n, e));
        if e.lo > e.hi {
            lemma_no_high_edge(faces, hidden(visible), w, n, e);
            lemma_fan_ordered(h, w, h.len() as int, e);
        } else {
            lemma_fan(h, w, h.len() as int, e);
            assert(h.take(h.len() as int) =~= h);
            if e.hi >= w {
                lemma_no_high_edge(faces, hidden(visible), w, n, e);
                assert(!degree_odd(h, e.lo));
            }
        }
    }
    crate::select::lemma_indices_where(hidden(visible), faces.len());
    assert forall|i: int| 0 <= i < all.len() implies (#[trigger] all[i]).a < w + 1 && all[i].b < w
        + 1 && all[i].c < w + 1 by {
        if i < kept.len() {
            let j = indices_where(hidden(visible), faces.len())[i];
            assert(all[i] == faces[j]);
        } else {
            assert(all[i] == new[i - kept.len()]);
        }
    }
}

/// The edges of a fan are ordered.
proof fn lemma_fan_ordered(list: Seq<Edge>, w: usize, n: int, e: Edge)
    requires
        0 <= n <= list.len(),
        e.lo > e.hi,
    ensures
        !odd_in(fan(list, w), every(), n, e),
    decreases n,
{
    if n > 0 {
        lemma_fan_ordered(list, w, n - 1, e);
    }
}

/// The vertices that are unlike all kept before them.
pub open spec fn distinct_vertices_of(
    s: Seq<SimplexVertex>,
    alike: spec_fn(Vec3, Vec3) -> bool,
    n: int,
) -> Seq<SimplexVertex>
    decreases n,
{
    if n <= 0 {
        Seq::empty()
    } else {
        let kept = distinct_vertices_of(s, alike, n - 1);
        if exists|j: int| 0 <= j < kept.len() && alike((#[trigger] kept[j]).w, s[n - 1].w) {
            kept
        } else {
            kept.push(s[n - 1])
        }
    }
}

/// Keeps the vertices that are unlike all kept before them.
pub fn distinct_vertices<F: Fn(Vec3, Vec3) -> bool>(s: &[SimplexVertex], alike: F) -> (r: Vec<
    SimplexVertex,
>)
    requires
        forall|a: Vec3, b: Vec3| #[trigger] alike.requires((a, b)),
        forall|a: Vec3, b: Vec3|
            !(#[trigger] alike.ensures((a, b), true) && alike.ensures((a, b), false)),
    ensures
        r@ == distinct_vertices_of(s@, alike_by(alike), s@.len() as int),
{
    let ghost like = alike_by(alike);
    let mut r: Vec<SimplexVertex> = Vec::new();
    let mut i: usize = 0;
    while i < s.len()
        invariant
            i <= s@.len(),
            like == alike_by(alike),
            forall|a: Vec3, b: Vec3| #[trigger] alike.requires((a, b)),
            forall|a: Vec3, b: Vec3|
                !(#[trigger] alike.ensures((a, b), true) && alike.ensures((a, b), false)),
            r@ == distinct_vertices_of(s@, like, i as int),
        decreases s@.len() - i,
    {
        let mut known: bool = false;
        let mut j: usize = 0;
        while j < r.len()
            invariant
                i < s@.len(),
                j <= r@.len(),
                like == alike_by(alike),
                forall|a: Vec3, b: Vec3| #[trigger] alike.requires((a, b)),
                forall|a: Vec3, b: Vec3|
                    !(#[trigger] alike.ensures((a, b), true) && alike.ensures((a, b), false)),
                known == exists|q: int| 0 <= q < j && like((#[trigger] r@[q]).w, s@[i as int].w),
            decreases r@.len() - j,
        {
            if alike(r[j].w, s[i].w) {
                assert(like(r@[j as int].w, s@[i as int].w));
                known = true;
            }
            j += 1;
        }
        if !known {
            r.push(s[i]);
        }
        i += 1;
    }
    r
}

/// What the expansion has found so far: the direction in which the first solid moves
/// out, the depth and a point.
#[derive(Clone, Copy, Debug, PartialEq, Eq, Structural)]
pub struct EpaBest {
    pub normal: Vec3,
    pub depth: Scalar,
    pub point: Vec3,
}

/// The arithmetic of the expansion: `plane` gives the unit outer normal of a triangle
/// and its distance from the origin, or nothing if it has no area; `enough` tells
/// whether a vertex lies hardly beyond a plane; `sees` whether a vertex sees a
/// triangle; `witness` gives the point that a triangle stands for.
pub struct EpaArith<P, N, V, W> {
    pub plane: P,
    pub enough: N,
    pub sees: V,
    pub witness: W,
}

/// The polytope between two rounds.
pub struct EpaState {
    pub verts: Seq<SimplexVertex>,
    pub faces: Seq<Tri>,
    pub best: EpaBest,
}

/// The planes of the triangles.
pub open spec fn planes_measured<P: Fn(Vec3, Vec3, Vec3) -> Option<(Vec3, Scalar)>>(
    plane: P,
    verts: Seq<SimplexVertex>,
    faces: Seq<Tri>,
    planes: Seq<Option<(Vec3, Scalar)>>,
) -> bool {
    &&& planes.len() == faces.len()
    &&& forall|i: int|
        0 <= i < faces.len() ==> plane.ensures(
            (
                verts[faces[i].a as int].w,
                verts[faces[i].b as int].w,
                verts[faces[i].c as int].w,
            ),
            #[trigger] planes[i],
        )
}

/// The distance of a plane, zero for none.
pub open spec fn plane_dist(p: Option<(Vec3, Scalar)>) -> Scalar {
    match p {
        Some(q) => q.1,
        None => Scalar::zero_spec(),
    }
}

/// The distances of the planes.
pub open spec fn plane_dists(planes: Seq<Option<(Vec3, Scalar)>>) -> Seq<Scalar> {
    planes.map_values(|p: Option<(Vec3, Scalar)>| plane_dist(p))
}

/// The triangles that have a plane.
pub open spec fn has_plane(planes: Seq<Option<(Vec3, Scalar)>>) -> spec_fn(int) -> bool {
    |i: int| planes[i] is Some
}

/// The triangle nearest the origin: the first of the nearest.
pub open spec fn nearest_face(planes: Seq<Option<(Vec3, Scalar)>>, k: int) -> bool {
    first_least(plane_dists(planes), has_plane(planes), Scalar { bits: 0x7f80_0000 }, k)
}

/// There is no nearest triangle.
pub open spec fn no_face(planes: Seq<Option<(Vec3, Scalar)>>) -> bool {
    none_below(plane_dists(planes), has_plane(planes), Scalar { bits: 0x7f80_0000 })
}

/// The normal of a triangle.
pub open spec fn plane_normal(p: Option<(Vec3, Scalar)>) -> Vec3 {
    match p {
        Some((n, _)) => n,
        None => Vec3::zero_spec(),
    }
}

/// What the triangle `k` stands for.
pub open spec fn best_at<W: Fn(SimplexVertex, SimplexVertex, SimplexVertex, Vec3, Scalar) -> Vec3>(
    witness: W,
    st: EpaState,
    planes: Seq<Option<(Vec3, Scalar)>>,
    k: int,
    best: EpaBest,
) -> bool {
    let f = st.faces[k];
    planes[k] matches Some((n, d)) && {
        &&& best.normal == n.neg_spec()
        &&& best.depth == d.max_spec(Scalar::zero_spec())
        &&& witness.ensures(
            (st.verts[f.a as int], st.verts[f.b as int], st.verts[f.c as int], n, d),
            best.point,
        )
    }
}

/// Which triangles the vertex sees.
pub open spec fn visible_from<V: Fn(Vec3, Vec3, Vec3, Vec3) -> bool>(
    sees: V,
    verts: Seq<SimplexVertex>,
    faces: Seq<Tri>,
    w: Vec3,
    visible: Seq<bool>,
) -> bool {
    &&& visible.len() == faces.len()
    &&& forall|i: int|
        0 <= i < faces.len() ==> sees.ensures(
            (
                verts[faces[i].a as int].w,
                verts[faces[i].b as int].w,
                verts[faces[i].c as int].w,
                w,
            ),
            #[trigger] visible[i],
        )
}

/// The vertex can be added: it sees some triangle, and what it sees has a border.
pub open spec fn can_grow(st: EpaState, visible: Seq<bool>) -> bool {
    &&& exists|i: int| 0 <= i < st.faces.len() && #[trigger] visible[i]
    &&& horizon_of(st.faces, visible, st.faces.len() as int).len() > 0
}

/// What a round looks at: the planes, the nearest triangle and the vertex beyond.
pub open spec fn round_sees<
    S: Fn(Vec3) -> SimplexVertex,
    P: Fn(Vec3, Vec3, Vec3) -> Option<(Vec3, Scalar)>,
    N: Fn(Vec3, Vec3, Scalar) -> bool,
    V: Fn(Vec3, Vec3, Vec3, Vec3) -> bool,
    W: Fn(SimplexVertex, SimplexVertex, SimplexVertex, Vec3, Scalar) -> Vec3,
>(
    support: S,
    arith: EpaArith<P, N, V, W>,
    st: EpaState,
    planes: Seq<Option<(Vec3, Scalar)>>,
    k: int,
    best: EpaBest,
    vertex: SimplexVertex,
) -> bool {
    &&& planes_measured(arith.plane, st.verts, st.faces, planes)
    &&& nearest_face(planes, k)
    &&& best_at(arith.witness, st, planes, k, best)
    &&& support.ensures((plane_normal(planes[k]),), vertex)
}

/// A round that grows the polytope: the vertex lies well beyond the nearest
/// triangle, and the triangles it sees are replaced.
pub open spec fn epa_grows<
    S: Fn(Vec3) -> SimplexVertex,
    P: Fn(Vec3, Vec3, Vec3) -> Option<(Vec3, Scalar)>,
    N: Fn(Vec3, Vec3, Scalar) -> bool,
    V: Fn(Vec3, Vec3, Vec3, Vec3) -> bool,
    W: Fn(SimplexVertex, SimplexVertex, SimplexVertex, Vec3, Scalar) -> Vec3,
>(
    support: S,
    arith: EpaArith<P, N, V, W>,
    st: EpaState,
    next: EpaState,
) -> bool {
    exists|
        planes: Seq<Option<(Vec3, Scalar)>>,
        k: int,
        vertex: SimplexVertex,
        visible: Seq<bool>,
    |
        {
            &&& #[trigger] round_sees(support, arith, st, planes, k, next.best, vertex)
            &&& arith.enough.ensures((vertex.w, plane_normal(planes[k]), plane_dist(planes[k])), false)
            &&& #[trigger] visible_from(arith.sees, st.verts, st.faces, vertex.w, visible)
            &&& can_grow(st, visible)
            &&& next.verts == st.verts.push(vertex)
            &&& next.faces == expanded(st.faces, visible, st.verts.len() as usize)
        }
}

/// A round that ends the expansion: there is no nearest triangle, the vertex lies
/// hardly beyond it, or it cannot be added.
pub open spec fn epa_stops<
    S: Fn(Vec3) -> SimplexVertex,
    P: Fn(Vec3, Vec3, Vec3) -> Option<(Vec3, Scalar)>,
    N: Fn(Vec3, Vec3, Scalar) -> bool,
    V: Fn(Vec3, Vec3, Vec3, Vec3) -> bool,
    W: Fn(SimplexVertex, SimplexVertex, SimplexVertex, Vec3, Scalar) -> Vec3,
>(
    support: S,
    arith: EpaArith<P, N, V, W>,
    st: EpaState,
    end: EpaBest,
) -> bool {
    ||| end == st.best && exists|planes: Seq<Option<(Vec3, Scalar)>>| #[trigger]
        planes_measured(arith.plane, st.verts, st.faces, planes) && no_face(planes)
    ||| exists|planes: Seq<Option<(Vec3, Scalar)>>, k: int, vertex: SimplexVertex|
        {
            &&& #[trigger] round_sees(support, arith, st, planes, k, end, vertex)
            &&& {
                ||| arith.enough.ensures((vertex.w, plane_normal(planes[k]), plane_dist(planes[k])), true)
                ||| exists|visible: Seq<bool>| #[trigger]
                    visible_from(arith.sees, st.verts, st.faces, vertex.w, visible) && !can_grow(st, visible)
            }
        }
}

/// The states of an expansion.
pub open spec fn epa_trace<
    S: Fn(Vec3) -> SimplexVertex,
    P: Fn(Vec3, Vec3, Vec3) -> Option<(Vec3, Scalar)>,
    N: Fn(Vec3, Vec3, Scalar) -> bool,
    V: Fn(Vec3, Vec3, Vec3, Vec3) -> bool,
    W: Fn(SimplexVertex, SimplexVertex, SimplexVertex, Vec3, Scalar) -> Vec3,
>(
    support: S,
    arith: EpaArith<P, N, V, W>,
    states: Seq<EpaState>,
) -> bool {
    forall|k: int|
        0 <= k < states.len() - 1 ==> epa_grows(
            support,
            arith,
            #[trigger] states[k],
            states[k + 1],
        ) && states[k].faces.len() <= MAX_FACES
}

/// The first state: the tetrahedron, with nothing found yet.
pub open spec fn epa_first(verts: Seq<SimplexVertex>, flip: Seq<bool>) -> EpaState {
    EpaState {
        verts,
        faces: tetrahedron(flip),
        best: EpaBest {
            normal: Vec3 { x: Scalar { bits: 0x3f80_0000 }, ..Vec3::zero_spec() },
            depth: Scalar::zero_spec(),
            point: verts[0].a,
        },
    }
}

/// In every state of an expansion the triangles form a closed surface on the
/// vertices there are.
pub proof fn polytope_stays_closed<
    S: Fn(Vec3) -> SimplexVertex,
    P: Fn(Vec3, Vec3, Vec3) -> Option<(Vec3, Scalar)>,
    N: Fn(Vec3, Vec3, Scalar) -> bool,
    V: Fn(Vec3, Vec3, Vec3, Vec3) -> bool,
    W: Fn(SimplexVertex, SimplexVertex, SimplexVertex, Vec3, Scalar) -> Vec3,
>(
    support: S,
    arith: EpaArith<P, N, V, W>,
    states: Seq<EpaState>,
    verts: Seq<SimplexVertex>,
    flip: Seq<bool>,
    k: int,
)
    requires
        epa_trace(support, arith, states),
        0 <= k < states.len(),
        verts.len() == 4,
        flip.len() == 4,
        states[0] == epa_first(verts, flip),
        4 + k <= usize::MAX,
    ensures
        states[k].verts.len() == 4 + k,
        closed_surface(states[k].faces),
        vertices_below(states[k].faces, (4 + k) as usize),
    decreases k,
{
    if k == 0 {
        tetrahedron_is_closed(flip);
    } else {
        polytope_stays_closed(support, arith, states, verts, flip, k - 1);
        let st = states[k - 1];
        assert(epa_grows(support, arith, st, states[k - 1 + 1]));
        let (planes, q, vertex, visible) = choose|
            planes: Seq<Option<(Vec3, Scalar)>>,
            q: int,
            vertex: SimplexVertex,
            visible: Seq<bool>,
        |
            {
                &&& #[trigger] round_sees(support, arith, st, planes, q, states[k].best, vertex)
                &&& arith.enough.ensures(
                    (vertex.w, plane_normal(planes[q]), plane_dist(planes[q])),
                    false,
                )
                &&& #[trigger] visible_from(arith.sees, st.verts, st.faces, vertex.w, visible)
                &&& can_grow(st, visible)
                &&& states[k].verts == st.verts.push(vertex)
                &&& states[k].faces == expanded(st.faces, visible, st.verts.len() as usize)
            };
        expansion_keeps_the_surface_closed(st.faces, visible, (3 + k) as usize);
    }
}

/// The arithmetic can be asked for anything.
pub open spec fn total_epa<
    S: Fn(Vec3) -> SimplexVertex,
    P: Fn(Vec3, Vec3, Vec3) -> Option<(Vec3, Scalar)>,
    N: Fn(Vec3, Vec3, Scalar) -> bool,
    V: Fn(Vec3, Vec3, Vec3, Vec3) -> bool,
    W: Fn(SimplexVertex, SimplexVertex, SimplexVertex, Vec3, Scalar) -> Vec3,
>(support: S, arith: EpaArith<P, N, V, W>) -> bool {
    &&& forall|v: Vec3| #[trigger] support.requires((v,))
    &&& forall|a: Vec3, b: Vec3, c: Vec3| #[trigger] arith.plane.requires((a, b, c))
    &&& forall|w: Vec3, n: Vec3, d: Scalar| #[trigger] arith.enough.requires((w, n, d))
    &&& forall|a: Vec3, b: Vec3, c: Vec3, w: Vec3| #[trigger] arith.sees.requires((a, b, c, w))
    &&& forall|a: SimplexVertex, b: SimplexVertex, c: SimplexVertex, n: Vec3, d: Scalar| #[trigger]
        arith.witness.requires((a, b, c, n, d))
}

fn measure_planes<P: Fn(Vec3, Vec3, Vec3) -> Option<(Vec3, Scalar)>>(
    plane: &P,
    verts: &Vec<SimplexVertex>,
    faces: &Vec<Tri>,
) -> (planes: Vec<Option<(Vec3, Scalar)>>)
    requires
        forall|a: Vec3, b: Vec3, c: Vec3| #[trigger] plane.requires((a, b, c)),
        vertices_below(faces@, verts@.len() as usize),
        verts@.len() <= usize::MAX,
    ensures
        planes_measured(*plane, verts@, faces@, planes@),
{
    let mut planes: Vec<Option<(Vec3, Scalar)>> = Vec::new();
    let mut i: usize = 0;
    while i < faces.len()
        invariant
            i <= faces@.len(),
            i == planes@.len(),
            forall|a: Vec3, b: Vec3, c: Vec3| #[trigger] plane.requires((a, b, c)),
            vertices_below(faces@, verts@.len() as usize),
            verts@.len() <= usize::MAX,
            forall|q: int|
                0 <= q < i ==> plane.ensures(
                    (
                        verts@[faces@[q].a as int].w,
                        verts@[faces@[q].b as int].w,
                        verts@[faces@[q].c as int].w,
                    ),
                    #[trigger] planes@[q],
                ),
        decreases faces@.len() - i,
    {
        let f = faces[i];
        assert(faces@[i as int].a < verts@.len());
        planes.push(plane(verts[f.a].w, verts[f.b].w, verts[f.c].w));
        i += 1;
    }
    planes
}

fn pick_face(planes: &Vec<Option<(Vec3, Scalar)>>) -> (r: Option<usize>)
    ensures
        match r {
            Some(k) => nearest_face(planes@, k as int),
            None => no_face(planes@),
        },
{
    let mut dists: Vec<Scalar> = Vec::new();
    let mut flags: Vec<bool> = Vec::new();
    let mut i: usize = 0;
    while i < planes.len()
        invariant
            i <= planes@.len(),
            i == dists@.len(),
            i == flags@.len(),
            forall|q: int| 0 <= q < i ==> #[trigger] dists@[q] == plane_dist(planes@[q]),
            forall|q: int| 0 <= q < i ==> #[trigger] flags@[q] == (planes@[q] is Some),
        decreases planes@.len() - i,
    {
        match planes[i] {
            Some(p) => {
                dists.push(p.1);
                flags.push(true);
            },
            None => {
                dists.push(Scalar::zero());
                flags.push(false);
            },
        }
        i += 1;
    }
    assert(dists@ =~= plane_dists(planes@));
    find_first_least(&dists, &flags, Scalar { bits: 0x7f80_0000 })
}

fn look_from<V: Fn(Vec3, Vec3, Vec3, Vec3) -> bool>(
    sees: &V,
    verts: &Vec<SimplexVertex>,
    faces: &Vec<Tri>,
    w: Vec3,
) -> (visible: Vec<bool>)
    requires
        forall|a: Vec3, b: Vec3, c: Vec3, v: Vec3| #[trigger] sees.requires((a, b, c, v)),
        vertices_below(faces@, verts@.len() as usize),
        verts@.len() <= usize::MAX,
    ensures
        visible_from(*sees, verts@, faces@, w, visible@),
{
    let mut visible: Vec<bool> = Vec::new();
    let mut i: usize = 0;
    while i < faces.len()
        invariant
            i <= faces@.len(),
            i == visible@.len(),
            forall|a: Vec3, b: Vec3, c: Vec3, v: Vec3| #[trigger] sees.requires((a, b, c, v)),
            vertices_below(faces@, verts@.len() as usize),
            verts@.len() <= usize::MAX,
            forall|q: int|
                0 <= q < i ==> sees.ensures(
                    (
                        verts@[faces@[q].a as int].w,
                        verts@[faces@[q].b as int].w,
                        verts@[faces@[q].c as int].w,
                        w,
                    ),
                    #[trigger] visible@[q],
                ),
        decreases faces@.len() - i,
    {
        let f = faces[i];
        assert(faces@[i as int].a < verts@.len());
        visible.push(sees(verts[f.a].w, verts[f.b].w, verts[f.c].w, w));
        i += 1;
    }
    visible
}

/// How an expansion ends: after `rounds` rounds, when there are too many triangles,
/// or by a round that ends it.
pub open spec fn epa_ends<
    S: Fn(Vec3) -> SimplexVertex,
    P: Fn(Vec3, Vec3, Vec3) -> Option<(Vec3, Scalar)>,
    N: Fn(Vec3, Vec3, Scalar) -> bool,
    V: Fn(Vec3, Vec3, Vec3, Vec3) -> bool,
    W: Fn(SimplexVertex, SimplexVertex, SimplexVertex, Vec3, Scalar) -> Vec3,
>(
    support: S,
    arith: EpaArith<P, N, V, W>,
    rounds: int,
    states: Seq<EpaState>,
    end: EpaBest,
) -> bool {
    let last = states.last();
    &&& 1 <= states.len() <= rounds + 1
    &&& if states.len() == rounds + 1 || (states.len() > 1 && last.faces.len() > MAX_FACES) {
        end == last.best
    } else {
        epa_stops(support, arith, last, end)
    }
}

/// The tetrahedron on four vertices was expanded round by round to the end.
pub open spec fn expansion_done<
    S: Fn(Vec3) -> SimplexVertex,
    P: Fn(Vec3, Vec3, Vec3) -> Option<(Vec3, Scalar)>,
    N: Fn(Vec3, Vec3, Scalar) -> bool,
    V: Fn(Vec3, Vec3, Vec3, Vec3) -> bool,
    W: Fn(SimplexVertex, SimplexVertex, SimplexVertex, Vec3, Scalar) -> Vec3,
>(
    support: S,
    arith: EpaArith<P, N, V, W>,
    verts: Seq<SimplexVertex>,
    flip: Seq<bool>,
    rounds: int,
    end: EpaBest,
) -> bool {
    exists|states: Seq<EpaState>| #[trigger]
        epa_trace(support, arith, states) && states[0] == epa_first(verts, flip) && epa_ends(
            support,
            arith,
            rounds,
            states,
            end,
        )
}

/// Expands the tetrahedron on four vertices towards the border of the difference
/// of two solids, for at most `rounds` rounds, and returns the way out. `flip`
/// tells which of the first triangles face inwards.
pub fn epa_from_simplex<
    S: Fn(Vec3) -> SimplexVertex,
    P: Fn(Vec3, Vec3, Vec3) -> Option<(Vec3, Scalar)>,
    N: Fn(Vec3, Vec3, Scalar) -> bool,
    V: Fn(Vec3, Vec3, Vec3, Vec3) -> bool,
    W: Fn(SimplexVertex, SimplexVertex, SimplexVertex, Vec3, Scalar) -> Vec3,
>(
    simplex: Vec<SimplexVertex>,
    flip: &[bool; 4],
    rounds: usize,
    support: &S,
    arith: &EpaArith<P, N, V, W>,
) -> (end: EpaBest)
    requires
        simplex@.len() == 4,
        rounds <= usize::MAX - 5,
        total_epa(*support, *arith),
    ensures
        expansion_done(*support, *arith, simplex@, flip@, rounds as int, end),
{
    let ghost first = epa_first(simplex@, flip@);
    let mut verts: Vec<SimplexVertex> = simplex;
    let mut faces: Vec<Tri> = initial_faces(flip);
    let mut best: EpaBest = EpaBest {
        normal: Vec3 { x: Scalar { bits: 0x3f80_0000 }, y: Scalar::zero(), z: Scalar::zero() },
        depth: Scalar::zero(),
        point: verts[0].a,
    };
    let ghost mut states: Seq<EpaState> = seq![first];
    proof {
        tetrahedron_is_closed(flip@);
    }
    let mut n: usize = 0;
    while n < rounds
        invariant
            n <= rounds,
            rounds <= usize::MAX - 5,
            total_epa(*support, *arith),
            epa_trace(*support, *arith, states),
            states.len() == n + 1,
            first == epa_first(simplex@, flip@),
            states[0] == first,
            states.last() == (EpaState { verts: verts@, faces: faces@, best }),
            faces@.len() <= MAX_FACES,
            verts@.len() == 4 + n,
            vertices_below(faces@, (4 + n) as usize),
            closed_surface(faces@),
        ensures
            n == rounds,
        decreases rounds - n,
    {
        let ghost st = EpaState { verts: verts@, faces: faces@, best };
        let planes = measure_planes(&arith.plane, &verts, &faces);
        let k = match pick_face(&planes) {
            None => {
                assert(planes_measured(arith.plane, st.verts, st.faces, planes@));
                assert(epa_stops(*support, *arith, st, best));
                assert(epa_ends(*support, *arith, rounds as int, states, best));
                return best;
            },
            Some(k) => k,
        };
        let f = faces[k];
        assert(faces@[k as int].a < verts@.len());
        let (normal, d) = match planes[k] {
            Some(p) => p,
            None => (Vec3::zero(), Scalar::zero()),
        };
        assert(has_plane(planes@)(k as int));
        let found = EpaBest {
            normal: normal.neg(),
            depth: d.max(Scalar::zero()),
            point: (arith.witness)(verts[f.a], verts[f.b], verts[f.c], normal, d),
        };
        let vertex = support(normal);
        assert(round_sees(*support, *arith, st, planes@, k as int, found, vertex));
        if (arith.enough)(vertex.w, normal, d) {
            assert(epa_stops(*support, *arith, st, found));
            assert(epa_ends(*support, *arith, rounds as int, states, found));
            return found;
        }
        let visible = look_from(&arith.sees, &verts, &faces, vertex.w);
        assert(visible_from(arith.sees, st.verts, st.faces, vertex.w, visible@));
        let w: usize = verts.len();
        match expand(&faces, &visible, w) {
            None => {
                assert(!can_grow(st, visible@));
                assert(epa_stops(*support, *arith, st, found));
                assert(epa_ends(*support, *arith, rounds as int, states, found));
                return found;
            },
            Some(next) => {
                proof {
                    expansion_keeps_the_surface_closed(faces@, visible@, w);
                }
                let ghost old_states = states;
                verts.push(vertex);
                faces = next;
                best = found;
                proof {
                    let now = EpaState { verts: verts@, faces: faces@, best };
                    assert(can_grow(st, visible@));
                    assert(plane_dist(planes@[k as int]) == d);
                    assert(arith.enough.ensures(
                        (vertex.w, plane_normal(planes@[k as int]), plane_dist(planes@[k as int])),
                        false,
                    ));
                    assert(now.verts == st.verts.push(vertex));
                    assert(now.faces == expanded(
                        st.faces,
                        visible@,
                        st.verts.len() as usize,
                    ));
                    assert(round_sees(
                        *support,
                        *arith,
                        st,
                        planes@,
                        k as int,
                        now.best,
                        vertex,
                    ));
                    assert(epa_grows(*support, *arith, st, now));
                    states = states.push(now);
                    assert forall|q: int| 0 <= q < states.len() - 1 implies epa_grows(
                        *support,
                        *arith,
                        #[trigger] states[q],
                        states[q + 1],
                    ) && states[q].faces.len() <= MAX_FACES by {
                        assert(states[q] == old_states[q]);
                        if q < old_states.len() - 1 {
                            assert(states[q + 1] == old_states[q + 1]);
                        }
                    }
                }
                n += 1;
                if !goes_on(faces.len()) {
                    assert(epa_trace(*support, *arith, states));
                    assert(epa_ends(*support, *arith, rounds as int, states, best));
                    return best;
                }
            },
        }
    }
    assert(epa_ends(*support, *arith, rounds as int, states, best));
    best
}

/// What an axis tells of two solids: how far they overlap along it, and how far
/// each one reaches.
#[derive(Clone, Copy, Debug, PartialEq, Eq, Structural)]
pub struct AxisOverlap {
    pub over: Scalar,
    pub reach_a: Scalar,
    pub reach_b: Scalar,
}

/// The way out along an axis.
#[derive(Clone, Copy, Debug, PartialEq, Eq, Structural)]
pub enum AxisWay {
    /// The solids are apart.
    Apart,
    /// Along the axis, or against it.
    Along { axis: usize, against: bool },
    /// No axis tells anything.
    Unknown,
}

/// The overlaps of the axes.
pub open spec fn overlaps(tests: Seq<AxisOverlap>) -> Seq<Scalar> {
    tests.map_values(|t: AxisOverlap| t.over)
}

/// Solids with an overlap below this are apart (minus a ten-thousandth).
pub open spec fn apart_spec() -> Scalar {
    Scalar { bits: 0xb8d1_b717 }
}

/// The way out: along the first of the axes with the smallest overlap, against it
/// if the first solid reaches no farther than the second.
pub open spec fn axis_way_spec(tests: Seq<AxisOverlap>, way: AxisWay) -> bool {
    let limit = Scalar { bits: 0x7f80_0000 };
    match way {
        AxisWay::Unknown => none_below(overlaps(tests), everything(), limit),
        AxisWay::Apart => exists|k: int| #[trigger]
            first_least(overlaps(tests), everything(), limit, k) && tests[k].over.lt_spec(
                apart_spec(),
            ),
        AxisWay::Along { axis, against } => {
            &&& first_least(overlaps(tests), everything(), limit, axis as int)
            &&& !tests[axis as int].over.lt_spec(apart_spec())
            &&& against == tests[axis as int].reach_a.le_spec(tests[axis as int].reach_b)
        },
    }
}

/// The way out along one of three axes, for solids whose simplex has no volume.
pub fn axis_sat(tests: &[AxisOverlap; 3]) -> (way: AxisWay)
    ensures
        axis_way_spec(tests@, way),
{
    let over: [Scalar; 3] = [tests[0].over, tests[1].over, tests[2].over];
    assert(over@ =~= overlaps(tests@));
    match deepest_corner(over.as_slice()) {
        None => AxisWay::Unknown,
        Some(k) => if tests[k].over.lt(Scalar { bits: 0xb8d1_b717 }) {
            assert(first_least(
                overlaps(tests@),
                everything(),
                Scalar { bits: 0x7f80_0000 },
                k as int,
            ));
            AxisWay::Apart
        } else {
            AxisWay::Along { axis: k, against: tests[k].reach_a.le(tests[k].reach_b) }
        },
    }
}

/// The way out of a penetration: found by expansion, or along an axis.
#[derive(Clone, Copy, Debug, PartialEq, Eq)]
pub enum WayOut {
    Expanded(EpaBest),
    Axis(AxisWay),
}

/// There is a tetrahedron to expand: at least four vertices are distinct, and if
/// there are just four, they are not in one plane.
pub open spec fn can_expand<F: Fn(Vec3, Vec3, Vec3, Vec3) -> bool>(
    flat: F,
    verts: Seq<SimplexVertex>,
) -> bool {
    verts.len() > 4 || (verts.len() == 4 && flat.ensures(
        (verts[0].w, verts[1].w, verts[2].w, verts[3].w),
        false,
    ))
}

/// There is no tetrahedron to expand.
pub open spec fn cannot_expand<F: Fn(Vec3, Vec3, Vec3, Vec3) -> bool>(
    flat: F,
    verts: Seq<SimplexVertex>,
) -> bool {
    verts.len() < 4 || (verts.len() == 4 && flat.ensures(
        (verts[0].w, verts[1].w, verts[2].w, verts[3].w),
        true,
    ))
}

/// Finds the way out of a penetration from a simplex that holds the origin. Vertices
/// that are alike count once; the first four span the tetrahedron to expand, with
/// its faces turned as `facing` says. A simplex without volume is answered by the
/// axes, which `axes` measures.
pub fn way_out<
    E: Fn(Vec3, Vec3) -> bool,
    F: Fn(Vec3, Vec3, Vec3, Vec3) -> bool,
    G: Fn(Vec3, Vec3, Vec3, Vec3) -> [bool; 4],
    X: Fn() -> [AxisOverlap; 3],
    S: Fn(Vec3) -> SimplexVertex,
    P: Fn(Vec3, Vec3, Vec3) -> Option<(Vec3, Scalar)>,
    N: Fn(Vec3, Vec3, Scalar) -> bool,
    V: Fn(Vec3, Vec3, Vec3, Vec3) -> bool,
    W: Fn(SimplexVertex, SimplexVertex, SimplexVertex, Vec3, Scalar) -> Vec3,
>(
    simplex: &[SimplexVertex],
    rounds: usize,
    alike: E,
    flat: &F,
    facing: &G,
    axes: &X,
    support: &S,
    arith: &EpaArith<P, N, V, W>,
) -> (r: WayOut)
    requires
        rounds <= usize::MAX - 5,
        forall|a: Vec3, b: Vec3| #[trigger] alike.requires((a, b)),
        forall|a: Vec3, b: Vec3|
            !(#[trigger] alike.ensures((a, b), true) && alike.ensures((a, b), false)),
        forall|a: Vec3, b: Vec3, c: Vec3, d: Vec3| #[trigger] flat.requires((a, b, c, d)),
        forall|a: Vec3, b: Vec3, c: Vec3, d: Vec3| #[trigger] facing.requires((a, b, c, d)),
        axes.requires(()),
        total_epa(*support, *arith),
    ensures
        ({
            let verts = distinct_vertices_of(simplex@, alike_by(alike), simplex@.len() as int);
            match r {
                WayOut::Expanded(end) => can_expand(*flat, verts) && exists|flip: [bool; 4]|
                    #[trigger] facing.ensures(
                        (verts[0].w, verts[1].w, verts[2].w, verts[3].w),
                        flip,
                    ) && expansion_done(
                        *support,
                        *arith,
                        verts.take(4),
                        flip@,
                        rounds as int,
                        end,
                    ),
                WayOut::Axis(way) => cannot_expand(*flat, verts) && exists|tests: [AxisOverlap; 3]|
                    #[trigger] axes.ensures((), tests) && axis_way_spec(tests@, way),
            }
        }),
{
    let mut verts = distinct_vertices(simplex, alike);
    let ghost all = verts@;
    if verts.len() < 4 || (verts.len() == 4 && flat(
        verts[0].w,
        verts[1].w,
        verts[2].w,
        verts[3].w,
    )) {
        let tests = axes();
        return WayOut::Axis(axis_sat(&tests));
    }
    let flip = facing(verts[0].w, verts[1].w, verts[2].w, verts[3].w);
    verts.truncate(4);
    assert(verts@ =~= all.take(4));
    WayOut::Expanded(epa_from_simplex(verts, &flip, rounds, support, arith))
}

} // verus!
