//! Reducing many contact candidates to the few that a manifold holds.

use crate::contact::{ContactPoint, ContactPoints, Touch};
use crate::order::{as_indices, stable_order, stable_order_of, SortKey};
use crate::scalar::{Scalar, Vec3};
use crate::select::{indices_where, lemma_indices_where};
use vstd::prelude::*;

verus! {

/// Deepest first, then by position.
pub open spec fn depth_key(p: ContactPoint) -> SortKey {
    SortKey {
        a: (-p.depth.total_rank()) as i64,
        b: p.point.x.total_rank() as i64,
        c: p.point.y.total_rank() as i64,
        d: p.point.z.total_rank() as i64,
    }
}

/// The keys of the candidates.
pub open spec fn depth_keys(cand: Seq<ContactPoint>) -> Seq<SortKey> {
    cand.map_values(|p: ContactPoint| depth_key(p))
}

/// Two points that a question finds too close.
pub open spec fn close<F: Fn(ContactPoint, ContactPoint) -> bool>(f: F) -> spec_fn(
    ContactPoint,
    ContactPoint,
) -> bool {
    |p: ContactPoint, q: ContactPoint| f.ensures((p, q), true)
}

/// The question may be asked of any two points and always gives the same answer.
pub open spec fn decided<F: Fn(ContactPoint, ContactPoint) -> bool>(f: F) -> bool {
    &&& forall|p: ContactPoint, q: ContactPoint| #[trigger] f.requires((p, q))
    &&& forall|p: ContactPoint, q: ContactPoint|
        !(#[trigger] f.ensures((p, q), true) && f.ensures((p, q), false))
}

/// The places kept among the first `k` of the sorted candidates: one after the
/// other, as long as there are fewer than four and none of them is too close.
pub open spec fn kept(
    sorted: Seq<ContactPoint>,
    near: spec_fn(ContactPoint, ContactPoint) -> bool,
    k: int,
) -> Seq<int>
    decreases k,
{
    if k <= 0 {
        Seq::empty()
    } else {
        let before = kept(sorted, near, k - 1);
        if before.len() < 4 && forall|q: int|
            0 <= q < before.len() ==> !near(sorted[#[trigger] before[q]], sorted[k - 1]) {
            before.push(k - 1)
        } else {
            before
        }
    }
}

/// The candidates in the order of their keys.
pub open spec fn in_order(cand: Seq<ContactPoint>, order: Seq<int>) -> Seq<ContactPoint> {
    order.map_values(|i: int| cand[i])
}

/// The reduced candidates: the kept ones of the sorted list.
pub open spec fn reduced(
    cand: Seq<ContactPoint>,
    near: spec_fn(ContactPoint, ContactPoint) -> bool,
    r: Seq<ContactPoint>,
) -> bool {
    exists|order: Seq<int>| #[trigger]
        stable_order_of(depth_keys(cand), order) && r == kept(
            in_order(cand, order),
            near,
            cand.len() as int,
        ).map_values(|q: int| in_order(cand, order)[q])
}

/// The key of a candidate.
fn key_of(p: ContactPoint) -> (k: SortKey)
    ensures
        k == depth_key(p),
{
    SortKey {
        a: -p.depth.total_order(),
        b: p.point.x.total_order(),
        c: p.point.y.total_order(),
        d: p.point.z.total_order(),
    }
}

/// The kept places are in range.
proof fn lemma_kept(
    sorted: Seq<ContactPoint>,
    near: spec_fn(ContactPoint, ContactPoint) -> bool,
    k: int,
)
    requires
        0 <= k <= sorted.len(),
    ensures
        kept(sorted, near, k).len() <= 4,
        forall|q: int|
            0 <= q < kept(sorted, near, k).len() ==> 0 <= #[trigger] kept(sorted, near, k)[q] < k,
        k > 0 ==> kept(sorted, near, k).len() > 0 && kept(sorted, near, k)[0] == 0,
    decreases k,
{
    if k > 0 {
        lemma_kept(sorted, near, k - 1);
    }
}

/// Sorts the candidates, deepest first, and keeps at most four of which none is
/// too close to one kept before. Returns whether any is left.
pub fn select_contacts<F: Fn(ContactPoint, ContactPoint) -> bool>(
    cand: &mut Vec<ContactPoint>,
    too_close: F,
) -> (any: bool)
    requires
        decided(too_close),
    ensures
        reduced(old(cand)@, close(too_close), final(cand)@),
        final(cand)@.len() <= 4,
        any == (old(cand)@.len() > 0),
        any == (final(cand)@.len() > 0),
{
    let ghost input = cand@;
    let ghost near = close(too_close);
    let n: usize = cand.len();
    let mut keys: Vec<SortKey> = Vec::new();
    let mut i: usize = 0;
    while i < n
        invariant
            n == cand@.len(),
            i <= n,
            keys@.len() == i,
            forall|j: int| 0 <= j < i ==> keys@[j] == depth_key(cand@[j]),
        decreases n - i,
    {
        keys.push(key_of(cand[i]));
        i += 1;
    }
    assert(keys@ =~= depth_keys(cand@));
    let order: Vec<usize> = stable_order(keys.as_slice());
    let ghost places = as_indices(order@);
    let ghost sorted = in_order(cand@, places);
    let mut out: Vec<ContactPoint> = Vec::new();
    let mut k: usize = 0;
    assert(out@ =~= kept(sorted, near, 0).map_values(|q: int| sorted[q]));
    while k < n
        invariant
            n == cand@.len(),
            k <= n,
            decided(too_close),
            near == close(too_close),
            order@.len() == n,
            places == as_indices(order@),
            stable_order_of(depth_keys(cand@), places),
            sorted == in_order(cand@, places),
            out@ == kept(sorted, near, k as int).map_values(|q: int| sorted[q]),
            out@.len() <= 4,
        decreases n - k,
    {
        let ghost before = kept(sorted, near, k as int);
        proof {
            lemma_kept(sorted, near, k as int);
            assert(places[k as int] == order@[k as int]);
        }
        let c = cand[order[k]];
        assert(sorted[k as int] == c);
        if out.len() < 4 {
            let mut dup: bool = false;
            let mut q: usize = 0;
            while q < out.len()
                invariant
                    q <= out@.len(),
                    decided(too_close),
                    near == close(too_close),
                    dup == (exists|j: int| 0 <= j < q && near(#[trigger] out@[j], c)),
                decreases out@.len() - q,
            {
                if too_close(out[q], c) {
                    assert(near(out@[q as int], c));
                    dup = true;
                }
                q += 1;
            }
            proof {
                assert forall|j: int| 0 <= j < before.len() implies out@[j]
                    == sorted[#[trigger] before[j]] by {
                }
                if dup {
                    let j = choose|j: int| 0 <= j < out@.len() && near(#[trigger] out@[j], c);
                    assert(near(sorted[before[j]], sorted[k as int]));
                } else {
                    assert forall|j: int| 0 <= j < before.len() implies !near(
                        sorted[#[trigger] before[j]],
                        sorted[k as int],
                    ) by {
                        assert(!near(out@[j], c));
                    }
                }
            }
            if !dup {
                out.push(c);
                assert(kept(sorted, near, k + 1) == before.push(k as int));
                assert(out@ =~= kept(sorted, near, k + 1).map_values(|q: int| sorted[q]));
            } else {
                assert(kept(sorted, near, k + 1) == before);
            }
        } else {
            assert(kept(sorted, near, k + 1) == before);
        }
        k += 1;
    }
    proof {
        lemma_kept(sorted, near, n as int);
        assert(stable_order_of(depth_keys(input), places));
        assert(reduced(input, near, out@));
    }
    let any: bool = out.len() > 0;
    *cand = out;
    any
}

/// The reduced list starts with the deepest candidate.
pub proof fn reduction_keeps_the_deepest(
    cand: Seq<ContactPoint>,
    near: spec_fn(ContactPoint, ContactPoint) -> bool,
    r: Seq<ContactPoint>,
    i: int,
)
    requires
        reduced(cand, near, r),
        0 <= i < cand.len(),
    ensures
        0 < r.len() <= 4,
        cand.contains(r[0]),
        !r[0].depth.total_lt_spec(cand[i].depth),
{
    let order = choose|order: Seq<int>| #[trigger]
        stable_order_of(depth_keys(cand), order) && r == kept(
            in_order(cand, order),
            near,
            cand.len() as int,
        ).map_values(|q: int| in_order(cand, order)[q]);
    let sorted = in_order(cand, order);
    lemma_kept(sorted, near, cand.len() as int);
    assert(r[0] == sorted[0]);
    assert(sorted[0] == cand[order[0]]);
    assert(order.contains(i));
    let x = choose|x: int| 0 <= x < order.len() && order[x] == i;
    if x > 0 {
        assert(crate::order::goes_before(depth_keys(cand), order[0], order[x]));
    }
    assert(depth_keys(cand)[order[0]] == depth_key(cand[order[0]]));
    assert(depth_keys(cand)[i] == depth_key(cand[i]));
}

/// The vertices deeper than `limit`.
pub open spec fn deeper_than(depths: Seq<Scalar>, limit: Scalar) -> spec_fn(int) -> bool {
    |i: int| limit.lt_spec(depths[i])
}

/// The key of a vertex: deepest first.
pub open spec fn vertex_key(depth: Scalar) -> SortKey {
    SortKey { a: (-depth.rank()) as i64, b: 0, c: 0, d: 0 }
}

/// The keys of the listed vertices.
pub open spec fn vertex_keys(depths: Seq<Scalar>, list: Seq<int>) -> Seq<SortKey> {
    list.map_values(|i: int| vertex_key(depths[i]))
}

/// The vertices deeper than `limit`, deepest first, of equally deep ones the
/// first first; at most four.
pub open spec fn deepest_four(depths: Seq<Scalar>, limit: Scalar, r: Seq<int>) -> bool {
    let list = indices_where(deeper_than(depths, limit), depths.len());
    exists|order: Seq<int>| #[trigger]
        stable_order_of(vertex_keys(depths, list), order) && r == order.take(
            if order.len() < 4 {
                order.len() as int
            } else {
                4
            },
        ).map_values(|j: int| list[j])
}

/// Picks the at most four deepest vertices; the name of vertex `i` is `i + 1`.
pub fn deepest_vertices(depths: &[Scalar], limit: Scalar) -> (r: Vec<usize>)
    ensures
        deepest_four(depths@, limit, as_indices(r@)),
        r@.len() <= 4,
{
    let ghost p = deeper_than(depths@, limit);
    let ghost full = indices_where(p, depths@.len());
    let mut list: Vec<usize> = Vec::new();
    let mut keys: Vec<SortKey> = Vec::new();
    let mut i: usize = 0;
    assert(as_indices(list@) =~= indices_where(p, 0));
    while i < depths.len()
        invariant
            i <= depths@.len(),
            p == deeper_than(depths@, limit),
            as_indices(list@) == indices_where(p, i as nat),
            keys@.len() == list@.len(),
            forall|j: int| 0 <= j < list@.len() ==> #[trigger] list@[j] < depths@.len(),
            forall|j: int|
                0 <= j < list@.len() ==> #[trigger] keys@[j] == vertex_key(
                    depths@[list@[j] as int],
                ),
        decreases depths@.len() - i,
    {
        let ghost before = list@;
        if limit.lt(depths[i]) {
            list.push(i);
            keys.push(SortKey { a: -depths[i].numeric_order(), b: 0, c: 0, d: 0 });
            assert(p(i as int));
            assert(as_indices(list@) =~= as_indices(before).push(i as int));
        } else {
            assert(!p(i as int));
        }
        i += 1;
    }
    assert(keys@ =~= vertex_keys(depths@, full));
    let order: Vec<usize> = stable_order(keys.as_slice());
    let ghost places = as_indices(order@);
    let m: usize = if order.len() < 4 {
        order.len()
    } else {
        4
    };
    let mut r: Vec<usize> = Vec::new();
    let mut k: usize = 0;
    while k < m
        invariant
            k <= m,
            m <= order@.len(),
            r@.len() == k,
            places == as_indices(order@),
            places.len() == list@.len(),
            forall|j: int| 0 <= j < places.len() ==> 0 <= #[trigger] places[j] < list@.len(),
            forall|j: int| 0 <= j < k ==> #[trigger] r@[j] == list@[places[j]],
        decreases m - k,
    {
        assert(places[k as int] == order@[k as int]);
        r.push(list[order[k]]);
        k += 1;
    }
    proof {
        assert(as_indices(r@) =~= places.take(m as int).map_values(|j: int| full[j])) by {
            assert forall|j: int| 0 <= j < m implies as_indices(r@)[j] == full[places[j]] by {
                assert(r@[j] == list@[places[j]]);
                assert(as_indices(list@)[places[j]] == full[places[j]]);
            }
        }
        assert(stable_order_of(vertex_keys(depths@, full), places));
    }
    r
}

/// The vertices picked are vertices, each deeper than the limit, and no more than
/// four.
pub proof fn deepest_four_are_vertices(depths: Seq<Scalar>, limit: Scalar, r: Seq<int>)
    requires
        deepest_four(depths, limit, r),
    ensures
        r.len() <= 4,
        forall|k: int|
            0 <= k < r.len() ==> 0 <= #[trigger] r[k] < depths.len() && limit.lt_spec(
                depths[r[k]],
            ),
{
    let p = deeper_than(depths, limit);
    let list = indices_where(p, depths.len());
    lemma_indices_where(p, depths.len());
    let order = choose|order: Seq<int>| #[trigger]
        stable_order_of(vertex_keys(depths, list), order) && r == order.take(
            if order.len() < 4 {
                order.len() as int
            } else {
                4
            },
        ).map_values(|j: int| list[j]);
    assert forall|k: int| 0 <= k < r.len() implies 0 <= #[trigger] r[k] < depths.len()
        && limit.lt_spec(depths[r[k]]) by {
        assert(r[k] == list[order[k]]);
        assert(p(list[order[k]]));
    }
}

/// The contacts of the vertices listed: vertex `i` is named `i + 1`.
pub open spec fn vertex_contacts(
    points: Seq<Vec3>,
    depths: Seq<Scalar>,
    list: Seq<int>,
) -> Seq<ContactPoint> {
    list.map_values(
        |i: int| ContactPoint { point: points[i], depth: depths[i], feature: (i + 1) as u32 },
    )
}

/// The contacts of a hull: its at most four deepest vertices, deepest first, or
/// nothing if none is deeper than `limit`. No contact has the name zero.
pub fn hull_contacts(
    points: &[Vec3],
    depths: &[Scalar],
    limit: Scalar,
    normal: Vec3,
) -> (r: Option<Touch>)
    requires
        depths@.len() == points@.len(),
        points@.len() < u32::MAX,
    ensures
        exists|list: Seq<int>| #[trigger]
            deepest_four(depths@, limit, list) && match r {
                Some(t) => {
                    &&& t.normal == normal
                    &&& t.points@.len() > 0
                    &&& t.points@ == vertex_contacts(points@, depths@, list)
                    &&& t.points.space_spec() == 0
                },
                None => list.len() == 0,
            },
        r matches Some(t) ==> forall|k: int|
            0 <= k < t.points@.len() ==> (#[trigger] t.points@[k]).feature != 0,
{
    let picked = deepest_vertices(depths, limit);
    let ghost list = as_indices(picked@);
    proof {
        deepest_four_are_vertices(depths@, limit, list);
    }
    let mut kept: Vec<ContactPoint> = Vec::new();
    let mut k: usize = 0;
    while k < picked.len()
        invariant
            k <= picked@.len(),
            list == as_indices(picked@),
            depths@.len() == points@.len(),
            points@.len() < u32::MAX,
            forall|j: int| 0 <= j < list.len() ==> 0 <= #[trigger] list[j] < depths@.len(),
            kept@ == vertex_contacts(points@, depths@, list.take(k as int)),
        decreases picked@.len() - k,
    {
        assert(list[k as int] == picked@[k as int]);
        let i: usize = picked[k];
        kept.push(ContactPoint { point: points[i], depth: depths[i], feature: i as u32 + 1 });
        k += 1;
        assert(kept@ =~= vertex_contacts(points@, depths@, list.take(k as int)));
    }
    assert(list.take(k as int) =~= list);
    if kept.len() == 0 {
        return None;
    }
    let t = Touch { normal, points: ContactPoints::from_slice(kept.as_slice()) };
    assert(t.points@ =~= kept@);
    assert forall|j: int| 0 <= j < t.points@.len() implies (#[trigger] t.points@[j]).feature
        != 0 by {
        assert(0 <= list[j] < depths@.len());
    }
    Some(t)
}

/// A contact that a piece of terrain reports, with its normal rounded to tenths
/// and the speed at which the body closes in on it.
#[derive(Clone, Copy, Debug, PartialEq, Eq)]
pub struct SurfaceContact {
    pub point: Vec3,
    pub normal: Vec3,
    pub depth: Scalar,
    pub feature: u32,
    pub key: (i32, i32, i32),
    pub closing: Scalar,
}

/// Negative infinity.
pub open spec fn bottom_spec() -> Scalar {
    Scalar { bits: 0xff80_0000 }
}

/// The closing speed above which the body is taken to hit a face (one tenth).
pub open spec fn closing_min_spec() -> Scalar {
    Scalar { bits: 0x3dcc_cccd }
}

/// Contacts of one face share their rounded normal.
pub open spec fn of_face(buf: Seq<SurfaceContact>, key: (i32, i32, i32)) -> spec_fn(int) -> bool {
    |i: int| buf[i].key == key
}

/// The contact is the first of its face.
pub open spec fn opens_face(buf: Seq<SurfaceContact>) -> spec_fn(int) -> bool {
    |i: int| forall|j: int| 0 <= j < i ==> (#[trigger] buf[j]).key != buf[i].key
}

/// What the first `n` contacts say of a face: how many there are, the largest
/// depth, the largest closing speed, and whether the face centre is among them.
pub struct FaceSummary {
    pub count: int,
    pub deepest: Scalar,
    pub closing: Scalar,
    pub has_center: bool,
}

/// The summary of a face over the first `n` contacts.
pub open spec fn summary(buf: Seq<SurfaceContact>, key: (i32, i32, i32), n: int) -> FaceSummary
    decreases n,
{
    if n <= 0 {
        FaceSummary {
            count: 0,
            deepest: bottom_spec(),
            closing: bottom_spec(),
            has_center: false,
        }
    } else {
        let s = summary(buf, key, n - 1);
        let c = buf[n - 1];
        if c.key == key {
            FaceSummary {
                count: s.count + 1,
                deepest: s.deepest.max_spec(c.depth),
                closing: s.closing.max_spec(c.closing),
                has_center: s.has_center || c.feature % 16 == 0,
            }
        } else {
            s
        }
    }
}

/// The summary of the face of contact `k`.
pub open spec fn face_of(buf: Seq<SurfaceContact>, k: int) -> FaceSummary {
    summary(buf, buf[k].key, buf.len() as int)
}

/// The body hits the face of contact `k`.
pub open spec fn hits_face(buf: Seq<SurfaceContact>, k: int) -> bool {
    closing_min_spec().lt_spec(face_of(buf, k).closing)
}

/// The first summary ranks below the second: fewer contacts, or as many and less
/// deep.
pub open spec fn ranks_below(s: FaceSummary, t: FaceSummary) -> bool {
    s.count < t.count || (s.count == t.count && s.deepest.total_lt_spec(t.deepest))
}

/// Some face is hit.
pub open spec fn any_hit(buf: Seq<SurfaceContact>) -> bool {
    exists|i: int| 0 <= i < buf.len() && opens_face(buf)(i) && #[trigger] hits_face(buf, i)
}

/// Some face has its centre among the contacts.
pub open spec fn any_center(buf: Seq<SurfaceContact>) -> bool {
    exists|i: int|
        0 <= i < buf.len() && opens_face(buf)(i) && (#[trigger] face_of(buf, i)).has_center
}

/// Contact `i` opens a face that stands for election: one that is hit, if any
/// is; otherwise one with its centre, if any has it; otherwise any.
pub open spec fn elects(buf: Seq<SurfaceContact>, i: int) -> bool {
    &&& 0 <= i < buf.len()
    &&& opens_face(buf)(i)
    &&& if any_hit(buf) {
        hits_face(buf, i)
    } else {
        any_center(buf) ==> face_of(buf, i).has_center
    }
}

/// The face of `i` ranks below that of `j`.
pub open spec fn yields_to(buf: Seq<SurfaceContact>, i: int, j: int) -> bool {
    if any_hit(buf) {
        face_of(buf, i).closing.total_lt_spec(face_of(buf, j).closing)
    } else {
        ranks_below(face_of(buf, i), face_of(buf, j))
    }
}

/// Contact `k` opens the dominant face: no elected face ranks above it, and of
/// equals it is the last.
pub open spec fn dominant(buf: Seq<SurfaceContact>, k: int) -> bool {
    &&& elects(buf, k)
    &&& forall|i: int| #[trigger] elects(buf, i) ==> !yields_to(buf, k, i)
    &&& forall|i: int| #[trigger] elects(buf, i) && i > k ==> yields_to(buf, i, k)
}

/// There is only one dominant face.
pub proof fn dominant_face_is_unique(buf: Seq<SurfaceContact>, j: int, k: int)
    requires
        dominant(buf, j),
        dominant(buf, k),
    ensures
        j == k,
{
    if j < k {
        assert(elects(buf, k));
        assert(yields_to(buf, k, j));
    } else if k < j {
        assert(elects(buf, j));
        assert(yields_to(buf, j, k));
    }
}

/// A face being summed up.
struct Face {
    first: usize,
    key: (i32, i32, i32),
    count: usize,
    deepest: Scalar,
    closing: Scalar,
    has_center: bool,
}

impl Face {
    spec fn sums_up(&self, buf: Seq<SurfaceContact>, n: int) -> bool {
        let s = summary(buf, self.key, n);
        &&& self.first < n
        &&& self.key == buf[self.first as int].key
        &&& self.count == s.count
        &&& self.deepest == s.deepest
        &&& self.closing == s.closing
        &&& self.has_center == s.has_center
    }
}

fn same_key(a: (i32, i32, i32), b: (i32, i32, i32)) -> (r: bool)
    ensures
        r == (a == b),
{
    a.0 == b.0 && a.1 == b.1 && a.2 == b.2
}

proof fn lemma_summary_count(buf: Seq<SurfaceContact>, key: (i32, i32, i32), n: int)
    requires
        0 <= n <= buf.len(),
    ensures
        0 <= summary(buf, key, n).count <= n,
        (forall|i: int| 0 <= i < n ==> (#[trigger] buf[i]).key != key) ==> summary(buf, key, n)
            == summary(buf, key, 0),
    decreases n,
{
    if n > 0 {
        lemma_summary_count(buf, key, n - 1);
    }
}

/// Some listed face has the key.
spec fn listed(faces: Seq<Face>, key: (i32, i32, i32)) -> bool {
    exists|g: int| 0 <= g < faces.len() && (#[trigger] faces[g]).key == key
}

/// The faces of the first `n` contacts, each listed once.
spec fn lists_faces(faces: Seq<Face>, buf: Seq<SurfaceContact>, n: int) -> bool {
    &&& forall|g: int| 0 <= g < faces.len() ==> (#[trigger] faces[g]).sums_up(buf, n)
    &&& forall|j: int| 0 <= j < n ==> listed(faces, (#[trigger] buf[j]).key)
    &&& forall|g: int, h: int|
        0 <= g < h < faces.len() ==> (#[trigger] faces[g]).key != (#[trigger] faces[h]).key
}

/// Where the faces begin.
spec fn firsts(faces: Seq<Face>) -> Seq<int> {
    as_indices(faces.map_values(|f: Face| f.first))
}

/// The lists agree but for the face `g` of contact `i`, which is new or summed up
/// with it.
proof fn lemma_next_face(
    before: Seq<Face>,
    after: Seq<Face>,
    buf: Seq<SurfaceContact>,
    i: int,
    g: int,
)
    requires
        0 <= i < buf.len(),
        lists_faces(before, buf, i),
        0 <= g <= before.len(),
        after == (if g == before.len() {
            before.push(after[g])
        } else {
            before.update(g, after[g])
        }),
        after[g].sums_up(buf, i + 1),
        after[g].key == buf[i].key,
        forall|h: int| 0 <= h < before.len() && h != g ==> (#[trigger] before[h]).key != buf[i].key,
        g < before.len() ==> before[g].key == buf[i].key,
    ensures
        lists_faces(after, buf, i + 1),
{
    assert forall|h: int| 0 <= h < after.len() implies (#[trigger] after[h]).sums_up(
        buf,
        i + 1,
    ) by {
        if h != g {
            assert(after[h] == before[h]);
            assert(before[h].sums_up(buf, i));
        }
    }
    assert forall|j: int| 0 <= j < i + 1 implies listed(after, (#[trigger] buf[j]).key) by {
        if j == i {
            assert(after[g].key == buf[j].key);
        } else {
            assert(listed(before, buf[j].key));
            let h = choose|h: int|
                0 <= h < before.len() && (#[trigger] before[h]).key == buf[j].key;
            assert(after[h].key == buf[j].key);
        }
    }
    assert forall|h: int, k: int| 0 <= h < k < after.len() implies (#[trigger] after[h]).key != (
    #[trigger] after[k]).key by {
        if h != g {
            assert(after[h] == before[h]);
        }
        if k != g {
            assert(after[k] == before[k]);
        }
    }
}

/// Finds the listed face with the key, or the end of the list.
fn find_face(faces: &Vec<Face>, key: (i32, i32, i32)) -> (g: usize)
    ensures
        g <= faces@.len(),
        g < faces@.len() ==> faces@[g as int].key == key,
        forall|h: int| 0 <= h < g ==> (#[trigger] faces@[h]).key != key,
{
    let mut g: usize = 0;
    while g < faces.len() && !same_key(faces[g].key, key)
        invariant
            g <= faces@.len(),
            forall|h: int| 0 <= h < g ==> (#[trigger] faces@[h]).key != key,
        decreases faces@.len() - g,
    {
        g += 1;
    }
    g
}

/// Sums up the faces, in the order in which they first appear.
fn sum_up(buf: &[SurfaceContact]) -> (faces: Vec<Face>)
    ensures
        forall|g: int|
            0 <= g < faces@.len() ==> (#[trigger] faces@[g]).sums_up(buf@, buf@.len() as int),
        as_indices(faces@.map_values(|f: Face| f.first)) == indices_where(
            opens_face(buf@),
            buf@.len(),
        ),
{
    let ghost p = opens_face(buf@);
    let mut faces: Vec<Face> = Vec::new();
    let mut i: usize = 0;
    assert(firsts(faces@) =~= indices_where(p, 0));
    while i < buf.len()
        invariant
            i <= buf@.len(),
            p == opens_face(buf@),
            lists_faces(faces@, buf@, i as int),
            firsts(faces@) == indices_where(p, i as nat),
        decreases buf@.len() - i,
    {
        let c = buf[i];
        let ghost before = faces@;
        let g: usize = find_face(&faces, c.key);
        proof {
            lemma_summary_count(buf@, c.key, i as int);
        }
        if g == faces.len() {
            proof {
                assert forall|j: int| 0 <= j < i implies (#[trigger] buf@[j]).key != c.key by {
                    assert(listed(before, buf@[j].key));
                    let h = choose|h: int|
                        0 <= h < before.len() && (#[trigger] before[h]).key == buf@[j].key;
                    assert(before[h].key != c.key);
                }
                assert(p(i as int));
            }
            let center: bool = c.feature % 16 == 0;
            let bottom = Scalar { bits: 0xff80_0000 };
            faces.push(
                Face {
                    first: i,
                    key: c.key,
                    count: 1,
                    deepest: bottom.max(c.depth),
                    closing: bottom.max(c.closing),
                    has_center: center,
                },
            );
            assert(firsts(faces@) =~= firsts(before).push(i as int));
        } else {
            proof {
                let f = before[g as int];
                assert(f.sums_up(buf@, i as int));
                assert(buf@[f.first as int].key == c.key);
                assert(!p(i as int));
                assert forall|h: int| 0 <= h < before.len() && h != g implies (
                #[trigger] before[h]).key != c.key by {
                    assert(before[g as int].key == c.key);
                }
            }
            let f = &faces[g];
            let center: bool = f.has_center || c.feature % 16 == 0;
            let next = Face {
                first: f.first,
                key: f.key,
                count: f.count + 1,
                deepest: f.deepest.max(c.depth),
                closing: f.closing.max(c.closing),
                has_center: center,
            };
            faces.set(g, next);
            assert(firsts(faces@) =~= firsts(before));
        }
        proof {
            assert(faces@[g as int].sums_up(buf@, i + 1));
            lemma_next_face(before, faces@, buf@, i as int, g as int);
        }
        i += 1;
    }
    faces
}

/// Each listed face is that of the contact that opens it.
proof fn lemma_face_listed(buf: Seq<SurfaceContact>, faces: Seq<Face>)
    requires
        forall|g: int|
            0 <= g < faces.len() ==> (#[trigger] faces[g]).sums_up(buf, buf.len() as int),
        as_indices(faces.map_values(|f: Face| f.first)) == indices_where(
            opens_face(buf),
            buf.len(),
        ),
    ensures
        forall|g: int|
            0 <= g < faces.len() ==> opens_face(buf)((#[trigger] faces[g]).first as int)
                && faces[g].first < buf.len(),
        forall|g: int, h: int|
            0 <= g < h < faces.len() ==> (#[trigger] faces[g]).first < (#[trigger] faces[h]).first,
        forall|i: int|
            0 <= i < buf.len() && #[trigger] opens_face(buf)(i) ==> exists|g: int|
                0 <= g < faces.len() && (#[trigger] faces[g]).first == i,
{
    let p = opens_face(buf);
    let list = as_indices(faces.map_values(|f: Face| f.first));
    lemma_indices_where(p, buf.len());
    assert forall|g: int| 0 <= g < faces.len() implies opens_face(buf)(
        (#[trigger] faces[g]).first as int,
    ) && faces[g].first < buf.len() by {
        assert(list[g] == faces[g].first);
    }
    assert forall|g: int, h: int| 0 <= g < h < faces.len() implies (#[trigger] faces[g]).first < (
    #[trigger] faces[h]).first by {
        assert(list[g] == faces[g].first && list[h] == faces[h].first);
    }
    assert forall|i: int| 0 <= i < buf.len() && #[trigger] opens_face(buf)(i) implies exists|g: int|
        0 <= g < faces.len() && (#[trigger] faces[g]).first == i by {
        assert(indices_where(p, buf.len()).contains(i));
        let g = choose|g: int| 0 <= g < list.len() && list[g] == i;
        assert(faces[g].first == i);
    }
}

/// The last of the largest among the listed faces with a flag, by the given
/// comparison.
fn last_largest(faces: &Vec<Face>, flags: &Vec<bool>, by_closing: bool) -> (r: Option<usize>)
    requires
        flags@.len() == faces@.len(),
    ensures
        match r {
            Some(k) => {
                &&& k < faces@.len()
                &&& flags@[k as int]
                &&& forall|g: int|
                    0 <= g < faces@.len() && flags@[g] ==> !smaller_face(
                        faces@[k as int],
                        #[trigger] faces@[g],
                        by_closing,
                    )
                &&& forall|g: int|
                    k < g < faces@.len() && flags@[g] ==> smaller_face(
                        #[trigger] faces@[g],
                        faces@[k as int],
                        by_closing,
                    )
            },
            None => forall|g: int| 0 <= g < faces@.len() ==> !#[trigger] flags@[g],
        },
{
    let mut best: Option<usize> = None;
    let mut i: usize = 0;
    while i < faces.len()
        invariant
            i <= faces@.len(),
            flags@.len() == faces@.len(),
            match best {
                Some(k) => {
                    &&& k < i
                    &&& flags@[k as int]
                    &&& forall|g: int|
                        0 <= g < i && flags@[g] ==> !smaller_face(
                            faces@[k as int],
                            #[trigger] faces@[g],
                            by_closing,
                        )
                    &&& forall|g: int|
                        k < g < i && flags@[g] ==> smaller_face(
                            #[trigger] faces@[g],
                            faces@[k as int],
                            by_closing,
                        )
                },
                None => forall|g: int| 0 <= g < i ==> !#[trigger] flags@[g],
            },
        decreases faces@.len() - i,
    {
        if flags[i] {
            match best {
                None => {
                    best = Some(i);
                },
                Some(k) => {
                    let f = &faces[i];
                    let b = &faces[k];
                    let below: bool = if by_closing {
                        f.closing.total_lt(b.closing)
                    } else {
                        f.count < b.count || (f.count == b.count && f.deepest.total_lt(b.deepest))
                    };
                    if !below {
                        best = Some(i);
                    }
                },
            }
        }
        i += 1;
    }
    best
}

/// The first face ranks below the second.
spec fn smaller_face(f: Face, g: Face, by_closing: bool) -> bool {
    if by_closing {
        f.closing.total_lt_spec(g.closing)
    } else {
        f.count < g.count || (f.count == g.count && f.deepest.total_lt_spec(g.deepest))
    }
}

/// Picks the face whose normal the manifold takes and returns its rounded normal
/// and its normal, turned to point from the first body to the second. A face that
/// the body is about to hit goes first; without one, faces with their centre in
/// touch; among those the one with most contacts, then the deepest.
pub fn pick_dominant_normal(buf: &[SurfaceContact], provider_is_a: bool) -> (r: Option<
    ((i32, i32, i32), Vec3),
>)
    ensures
        r is Some <==> buf@.len() > 0,
        r matches Some(pick) ==> exists|k: int| #[trigger]
            dominant(buf@, k) && pick.0 == buf@[k].key && pick.1 == if provider_is_a {
                buf@[k].normal
            } else {
                buf@[k].normal.neg_spec()
            },
{
    if buf.len() == 0 {
        return None;
    }
    let faces = sum_up(buf);
    proof {
        lemma_face_listed(buf@, faces@);
        assert(opens_face(buf@)(0));
    }
    let limit = Scalar { bits: 0x3dcc_cccd };
    let mut hit_flags: Vec<bool> = Vec::new();
    let mut center_flags: Vec<bool> = Vec::new();
    let mut all_flags: Vec<bool> = Vec::new();
    let mut some_center: bool = false;
    let mut i: usize = 0;
    while i < faces.len()
        invariant
            i <= faces@.len(),
            limit == closing_min_spec(),
            hit_flags@.len() == i,
            center_flags@.len() == i,
            all_flags@.len() == i,
            forall|g: int|
                0 <= g < i ==> #[trigger] hit_flags@[g] == limit.lt_spec(faces@[g].closing),
            forall|g: int| 0 <= g < i ==> #[trigger] center_flags@[g] == faces@[g].has_center,
            forall|g: int| 0 <= g < i ==> #[trigger] all_flags@[g],
            some_center == (exists|g: int| 0 <= g < i && (#[trigger] faces@[g]).has_center),
        decreases faces@.len() - i,
    {
        let f = &faces[i];
        hit_flags.push(limit.lt(f.closing));
        center_flags.push(f.has_center);
        all_flags.push(true);
        if f.has_center {
            assert(faces@[i as int].has_center);
            some_center = true;
        }
        i += 1;
    }
    let hit = last_largest(&faces, &hit_flags, true);
    let pick: usize = match hit {
        Some(g) => g,
        None => {
            let second = if some_center {
                last_largest(&faces, &center_flags, false)
            } else {
                last_largest(&faces, &all_flags, false)
            };
            match second {
                Some(g) => g,
                None => {
                    proof {
                        let g = choose|g: int|
                            0 <= g < faces@.len() && (#[trigger] faces@[g]).first == 0;
                        if some_center {
                            let h = choose|h: int|
                                0 <= h < faces@.len() && (#[trigger] faces@[h]).has_center;
                            assert(center_flags@[h]);
                        } else {
                            assert(all_flags@[g]);
                        }
                        assert(false);
                    }
                    0
                },
            }
        },
    };
    let first: usize = faces[pick].first;
    proof {
        lemma_pick_is_dominant(
            buf@,
            faces@,
            hit_flags@,
            center_flags@,
            hit,
            some_center,
            pick as int,
        );
    }
    let c = buf[first];
    assert(dominant(buf@, first as int));
    let normal: Vec3 = if provider_is_a {
        c.normal
    } else {
        c.normal.neg()
    };
    Some((c.key, normal))
}

/// The pick among the listed faces is the dominant one.
proof fn lemma_pick_is_dominant(
    buf: Seq<SurfaceContact>,
    faces: Seq<Face>,
    hit_flags: Seq<bool>,
    center_flags: Seq<bool>,
    hit: Option<usize>,
    some_center: bool,
    pick: int,
)
    requires
        forall|g: int|
            0 <= g < faces.len() ==> (#[trigger] faces[g]).sums_up(buf, buf.len() as int),
        as_indices(faces.map_values(|f: Face| f.first)) == indices_where(
            opens_face(buf),
            buf.len(),
        ),
        hit_flags.len() == faces.len(),
        center_flags.len() == faces.len(),
        forall|g: int|
            0 <= g < faces.len() ==> #[trigger] hit_flags[g] == closing_min_spec().lt_spec(
                faces[g].closing,
            ),
        forall|g: int| 0 <= g < faces.len() ==> #[trigger] center_flags[g] == faces[g].has_center,
        some_center == (exists|g: int| 0 <= g < faces.len() && (#[trigger] faces[g]).has_center),
        0 <= pick < faces.len(),
        hit is Some ==> {
            &&& hit_flags[pick]
            &&& forall|g: int|
                0 <= g < faces.len() && hit_flags[g] ==> !smaller_face(
                    faces[pick],
                    #[trigger] faces[g],
                    true,
                )
            &&& forall|g: int|
                pick < g < faces.len() && hit_flags[g] ==> smaller_face(
                    #[trigger] faces[g],
                    faces[pick],
                    true,
                )
        },
        hit is None ==> {
            &&& forall|g: int| 0 <= g < faces.len() ==> !#[trigger] hit_flags[g]
            &&& some_center ==> center_flags[pick]
            &&& forall|g: int|
                0 <= g < faces.len() && (some_center ==> center_flags[g]) ==> !smaller_face(
                    faces[pick],
                    #[trigger] faces[g],
                    false,
                )
            &&& forall|g: int|
                pick < g < faces.len() && (some_center ==> center_flags[g]) ==> smaller_face(
                    #[trigger] faces[g],
                    faces[pick],
                    false,
                )
        },
    ensures
        dominant(buf, faces[pick].first as int),
{
    lemma_face_listed(buf, faces);
    let n = buf.len() as int;
    assert forall|g: int| 0 <= g < faces.len() implies {
        let s = face_of(buf, (#[trigger] faces[g]).first as int);
        &&& s.count == faces[g].count
        &&& s.deepest == faces[g].deepest
        &&& s.closing == faces[g].closing
        &&& s.has_center == faces[g].has_center
    } by {
        assert(faces[g].sums_up(buf, n));
    }
    assert(any_hit(buf) == (hit is Some)) by {
        if hit is Some {
            assert(hit_flags[pick]);
            assert(hits_face(buf, faces[pick].first as int));
        }
        if any_hit(buf) {
            let i = choose|i: int|
                0 <= i < buf.len() && opens_face(buf)(i) && #[trigger] hits_face(buf, i);
            let g = choose|g: int| 0 <= g < faces.len() && (#[trigger] faces[g]).first == i;
            assert(hit_flags[g]);
        }
    }
    assert(any_center(buf) == some_center) by {
        if some_center {
            let g = choose|g: int| 0 <= g < faces.len() && (#[trigger] faces[g]).has_center;
            assert(face_of(buf, faces[g].first as int).has_center);
        }
        if any_center(buf) {
            let i = choose|i: int|
                0 <= i < buf.len() && opens_face(buf)(i) && (#[trigger] face_of(
                    buf,
                    i,
                )).has_center;
            let g = choose|g: int| 0 <= g < faces.len() && (#[trigger] faces[g]).first == i;
            assert(faces[g].has_center);
        }
    }
    let k = faces[pick].first as int;
    assert(elects(buf, k)) by {
        if hit is Some {
            assert(hit_flags[pick]);
        } else if some_center {
            assert(center_flags[pick]);
        }
    }
    assert forall|i: int| #[trigger] elects(buf, i) implies !yields_to(buf, k, i) && (i > k
        ==> yields_to(buf, i, k)) by {
        assert(opens_face(buf)(i));
        let g = choose|g: int| 0 <= g < faces.len() && (#[trigger] faces[g]).first == i;
        if hit is Some {
            assert(hit_flags[g]);
        } else if some_center {
            assert(center_flags[g]);
        }
        assert(!smaller_face(faces[pick], faces[g], hit is Some));
        if i > k {
            if g < pick {
                assert(faces[g].first < faces[pick].first);
            }
            assert(g > pick);
            assert(smaller_face(faces[g], faces[pick], hit is Some));
        }
    }
}

/// The corner contacts of a face.
pub open spec fn corners_of(buf: Seq<SurfaceContact>, key: (i32, i32, i32)) -> spec_fn(
    int,
) -> bool {
    |i: int| buf[i].key == key && buf[i].feature % 16 != 0
}

/// The centre contacts of a face.
pub open spec fn centers_of(buf: Seq<SurfaceContact>, key: (i32, i32, i32)) -> spec_fn(
    int,
) -> bool {
    |i: int| buf[i].key == key && buf[i].feature % 16 == 0
}

/// The contacts of a face in the order in which they are taken: as they come, or
/// corners before centres if there are more than four.
pub open spec fn corner_order(buf: Seq<SurfaceContact>, key: (i32, i32, i32)) -> Seq<int> {
    let all = indices_where(of_face(buf, key), buf.len());
    if all.len() > 4 {
        indices_where(corners_of(buf, key), buf.len()) + indices_where(
            centers_of(buf, key),
            buf.len(),
        )
    } else {
        all
    }
}

/// The point of a contact.
pub open spec fn point_of(c: SurfaceContact) -> ContactPoint {
    ContactPoint { point: c.point, depth: c.depth, feature: c.feature }
}

fn to_point(c: &SurfaceContact) -> (p: ContactPoint)
    ensures
        p == point_of(*c),
{
    ContactPoint { point: c.point, depth: c.depth, feature: c.feature }
}

proof fn lemma_corner_split(buf: Seq<SurfaceContact>, key: (i32, i32, i32), n: nat)
    requires
        n <= buf.len(),
    ensures
        indices_where(corners_of(buf, key), n).len() + indices_where(centers_of(buf, key), n).len()
            == indices_where(of_face(buf, key), n).len(),
    decreases n,
{
    if n > 0 {
        lemma_corner_split(buf, key, (n - 1) as nat);
    }
}

/// The points of a face that the manifold holds: corners first, so that the
/// support is symmetric, and centres only where corners are missing.
pub fn four_corner_points(buf: &[SurfaceContact], key: (i32, i32, i32)) -> (r: ContactPoints)
    ensures
        r@ == corner_order(buf@, key).take(
            if corner_order(buf@, key).len() < 4 {
                corner_order(buf@, key).len() as int
            } else {
                4
            },
        ).map_values(|i: int| point_of(buf@[i])),
        r.space_spec() == 0,
{
    let ghost pa = of_face(buf@, key);
    let ghost pc = corners_of(buf@, key);
    let ghost pz = centers_of(buf@, key);
    let ghost f = |i: int| point_of(buf@[i]);
    let mut all: Vec<ContactPoint> = Vec::new();
    let mut corners: Vec<ContactPoint> = Vec::new();
    let mut centers: Vec<ContactPoint> = Vec::new();
    let mut i: usize = 0;
    assert(all@ =~= indices_where(pa, 0).map_values(f));
    assert(corners@ =~= indices_where(pc, 0).map_values(f));
    assert(centers@ =~= indices_where(pz, 0).map_values(f));
    while i < buf.len()
        invariant
            i <= buf@.len(),
            pa == of_face(buf@, key),
            pc == corners_of(buf@, key),
            pz == centers_of(buf@, key),
            f == (|i: int| point_of(buf@[i])),
            all@ == indices_where(pa, i as nat).map_values(f),
            corners@ == indices_where(pc, i as nat).map_values(f),
            centers@ == indices_where(pz, i as nat).map_values(f),
        decreases buf@.len() - i,
    {
        let c = buf[i];
        if same_key(c.key, key) {
            let p = to_point(&c);
            all.push(p);
            assert(pa(i as int));
            assert(all@ =~= indices_where(pa, (i + 1) as nat).map_values(f));
            if c.feature % 16 == 0 {
                centers.push(p);
                assert(pz(i as int) && !pc(i as int));
                assert(centers@ =~= indices_where(pz, (i + 1) as nat).map_values(f));
            } else {
                corners.push(p);
                assert(pc(i as int) && !pz(i as int));
                assert(corners@ =~= indices_where(pc, (i + 1) as nat).map_values(f));
            }
        } else {
            assert(!pa(i as int) && !pc(i as int) && !pz(i as int));
        }
        i += 1;
    }
    if all.len() > 4 {
        let ghost corners0 = corners@;
        let mut k: usize = 0;
        while k < centers.len()
            invariant
                k <= centers@.len(),
                corners@ == corners0 + centers@.take(k as int),
            decreases centers@.len() - k,
        {
            corners.push(centers[k]);
            k += 1;
            assert(corners@ =~= corners0 + centers@.take(k as int));
        }
        assert(centers@.take(k as int) =~= centers@);
        let r = ContactPoints::from_slice(corners.as_slice());
        proof {
            let order = corner_order(buf@, key);
            lemma_corner_split(buf@, key, buf@.len());
            assert(corners@ =~= order.map_values(f));
            assert(r@ =~= order.take(
                if order.len() < 4 {
                    order.len() as int
                } else {
                    4
                },
            ).map_values(f));
        }
        r
    } else {
        let r = ContactPoints::from_slice(all.as_slice());
        proof {
            let order = corner_order(buf@, key);
            assert(r@ =~= order.take(
                if order.len() < 4 {
                    order.len() as int
                } else {
                    4
                },
            ).map_values(f));
        }
        r
    }
}

/// A face with four corners or more in touch is held by corners alone.
pub proof fn corners_fill_the_manifold(
    buf: Seq<SurfaceContact>,
    key: (i32, i32, i32),
    k: int,
)
    requires
        indices_where(corners_of(buf, key), buf.len()).len() >= 4,
        0 <= k < 4,
    ensures
        corner_order(buf, key).len() >= 4,
        buf[corner_order(buf, key)[k]].key == key,
        buf[corner_order(buf, key)[k]].feature % 16 != 0,
{
    let n = buf.len();
    lemma_corner_split(buf, key, n);
    lemma_indices_where(corners_of(buf, key), n);
    lemma_indices_where(of_face(buf, key), n);
    let corners = indices_where(corners_of(buf, key), n);
    let centers = indices_where(centers_of(buf, key), n);
    let all = indices_where(of_face(buf, key), n);
    if all.len() > 4 {
        assert((corners + centers)[k] == corners[k]);
    } else {
        assert(centers.len() == 0);
        lemma_only_corners(buf, key, n);
        assert(all == corners);
    }
}

proof fn lemma_only_corners(buf: Seq<SurfaceContact>, key: (i32, i32, i32), n: nat)
    requires
        n <= buf.len(),
        indices_where(centers_of(buf, key), n).len() == 0,
    ensures
        indices_where(of_face(buf, key), n) == indices_where(corners_of(buf, key), n),
    decreases n,
{
    if n > 0 {
        lemma_only_corners(buf, key, (n - 1) as nat);
    }
}

/// The points deeper than `limit` as contacts; the first point is named `first`,
/// the next ones count on.
pub fn band_contacts(
    points: &[Vec3],
    depths: &[Scalar],
    limit: Scalar,
    first: u32,
) -> (r: Vec<ContactPoint>)
    requires
        depths@.len() == points@.len(),
        first + points@.len() <= u32::MAX,
    ensures
        r@ == indices_where(deeper_than(depths@, limit), points@.len()).map_values(
            |i: int|
                ContactPoint {
                    point: points@[i],
                    depth: depths@[i],
                    feature: (first + i) as u32,
                },
        ),
{
    let ghost p = deeper_than(depths@, limit);
    let ghost f = |i: int|
        ContactPoint { point: points@[i], depth: depths@[i], feature: (first + i) as u32 };
    let mut r: Vec<ContactPoint> = Vec::new();
    let mut i: usize = 0;
    assert(r@ =~= indices_where(p, 0).map_values(f));
    while i < points.len()
        invariant
            i <= points@.len(),
            depths@.len() == points@.len(),
            first + points@.len() <= u32::MAX,
            p == deeper_than(depths@, limit),
            f == (|i: int|
                ContactPoint {
                    point: points@[i],
                    depth: depths@[i],
                    feature: (first + i) as u32,
                }),
            r@ == indices_where(p, i as nat).map_values(f),
        decreases points@.len() - i,
    {
        if limit.lt(depths[i]) {
            r.push(
                ContactPoint { point: points[i], depth: depths[i], feature: first + i as u32 },
            );
            assert(p(i as int));
            assert(r@ =~= indices_where(p, (i + 1) as nat).map_values(f));
        } else {
            assert(!p(i as int));
        }
        i += 1;
    }
    r
}

} // verus!
