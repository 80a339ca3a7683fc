//! Preparing the points of a manifold: which cached point each one continues, where
//! it acts, and how soft it is. Distances, masses and speeds are measured outside.

use crate::constraint::{
    count_point, match_counted, match_warm_point, matches_spec, resolve_anchor,
    resolve_anchor_spec, softness, tangential_drift, AnchorGeom, PointTerms, Recycled,
    WarmCandidate, WarmMatch,
};
use crate::contact::{ContactPoint, Manifold};
use crate::scalar::{Scalar, Vec3};
use crate::stats::{counted, Counters};
use crate::warm::{
    commit_keeps_what_may_be_needed, commit_spec, distinct_keys, entries_fit, solved, WarmKey,
    WarmOutEntry, WarmPoint, WarmState, WarmTable, NONE,
};
use vstd::prelude::*;

verus! {

/// How a cached normal relates to that of the manifold.
#[derive(Clone, Copy, Debug, PartialEq, Eq, Structural)]
pub struct Agreement {
    /// The normals still agree.
    pub aligned: bool,
    /// The normal has hardly moved at all.
    pub kept: bool,
}

/// What is measured of a contact point once it is known where it acts.
#[derive(Clone, Copy, Debug, PartialEq, Eq, Structural)]
pub struct PointNumbers {
    pub ra: Vec3,
    pub rb: Vec3,
    pub t1: Vec3,
    pub t2: Vec3,
    pub nmass: Scalar,
    pub tmass1: Scalar,
    pub tmass2: Scalar,
    pub tcross: Scalar,
    pub rhs: Scalar,
    pub friction: Scalar,
    /// One of the bodies cannot move.
    pub fixed: bool,
    /// How soft a separated point is, if one of the bodies cannot move and if both
    /// can.
    pub soft_fixed: Scalar,
    pub soft_moving: Scalar,
    /// The cached impulses were at the friction limit.
    pub slid: bool,
    /// The anchors have drifted apart beyond the dead zone.
    pub strayed: bool,
    /// What would pull them together along the tangents.
    pub pull1: Scalar,
    pub pull2: Scalar,
    /// The closing and the correction speed, in thousandths.
    pub closing_milli: u64,
    pub bias_milli: u64,
}

/// The measurements that points are prepared from, for the manifold with a given
/// number: `agree` compares a cached normal with that of the manifold, `probe` a
/// cached point with a contact, `recycle` tells what keeping a cached anchor gives,
/// `bake` makes fresh anchors, and `numbers` measures the rest.
pub struct ContactPrep<A, C, K, B, P> {
    pub agree: A,
    pub probe: C,
    pub recycle: K,
    pub bake: B,
    pub numbers: P,
}

/// The measurements can be asked for anything.
pub open spec fn total_prep<
    A: Fn(usize, Vec3) -> Agreement,
    C: Fn(usize, ContactPoint, WarmPoint) -> WarmCandidate,
    K: Fn(usize, WarmPoint) -> Recycled,
    B: Fn(usize, ContactPoint) -> (Vec3, Vec3),
    P: Fn(usize, ContactPoint, AnchorGeom, Option<WarmPoint>) -> PointNumbers,
>(prep: ContactPrep<A, C, K, B, P>) -> bool {
    &&& forall|mi: usize, n: Vec3| #[trigger] prep.agree.requires((mi, n))
    &&& forall|mi: usize, cp: ContactPoint, w: WarmPoint| #[trigger]
        prep.probe.requires((mi, cp, w))
    &&& forall|mi: usize, w: WarmPoint| #[trigger] prep.recycle.requires((mi, w))
    &&& forall|mi: usize, cp: ContactPoint| #[trigger] prep.bake.requires((mi, cp))
    &&& forall|mi: usize, cp: ContactPoint, g: AnchorGeom, w: Option<WarmPoint>| #[trigger]
        prep.numbers.requires((mi, cp, g, w))
}

/// The points that are cached under a key; none if nothing is.
pub open spec fn cached_points(st: WarmState, key: WarmKey) -> Seq<WarmPoint> {
    if st.has(key) {
        st.at(key).pts_spec()
    } else {
        Seq::empty()
    }
}

/// The candidates are the cached points as they were measured from the contact.
pub open spec fn probed<C: Fn(usize, ContactPoint, WarmPoint) -> WarmCandidate>(
    probe: C,
    mi: usize,
    cp: ContactPoint,
    cached: Seq<WarmPoint>,
    cands: Seq<WarmCandidate>,
) -> bool {
    &&& cands.len() == cached.len()
    &&& forall|i: int|
        0 <= i < cands.len() ==> probe.ensures((mi, cp, cached[i]), #[trigger] cands[i])
}

/// The cached point that was found.
pub open spec fn taken(cached: Seq<WarmPoint>, found: WarmMatch) -> Option<WarmPoint> {
    match found {
        WarmMatch::Exact(i) => Some(cached[i as int]),
        WarmMatch::Fallback(i) => Some(cached[i as int]),
        _ => None,
    }
}

/// A contact starts from the cached point that it matches, if there is one.
pub open spec fn starts_from<C: Fn(usize, ContactPoint, WarmPoint) -> WarmCandidate>(
    probe: C,
    mi: usize,
    cp: ContactPoint,
    cached: Seq<WarmPoint>,
    aligned: bool,
    cands: Seq<WarmCandidate>,
    found: WarmMatch,
    start: Option<WarmPoint>,
) -> bool {
    &&& probed(probe, mi, cp, cached, cands)
    &&& matches_spec(cands, aligned, cp.feature, found)
    &&& start == taken(cached, found)
}

/// What a contact starts from: the cached point that it matches among those cached
/// under `key`.
pub fn cached_start<C: Fn(usize, ContactPoint, WarmPoint) -> WarmCandidate>(
    mi: usize,
    cp: &ContactPoint,
    table: &WarmTable,
    key: WarmKey,
    agreement: Agreement,
    probe: &C,
    counters: &mut Counters,
) -> (start: Option<WarmPoint>)
    requires
        table@.sound(),
        forall|mi: usize, cp: ContactPoint, w: WarmPoint| #[trigger] probe.requires((mi, cp, w)),
    ensures
        !table@.has(key) ==> start is None && *final(counters) == *old(counters),
        exists|cands: Seq<WarmCandidate>, found: WarmMatch| #[trigger]
            starts_from(
                *probe,
                mi,
                *cp,
                cached_points(table@, key),
                agreement.aligned,
                cands,
                found,
                start,
            ) && *final(counters) == match_counted(
                *old(counters),
                cands,
                cp.feature,
                agreement.kept,
                found,
            ),
{
    let slot: u32 = table.lookup(key);
    let cached: Vec<WarmPoint> = if slot == NONE {
        Vec::new()
    } else {
        table.slots[slot as usize].value.pts()
    };
    assert(cached@ =~= cached_points(table@, key));
    let mut cands: Vec<WarmCandidate> = Vec::new();
    let mut i: usize = 0;
    while i < cached.len()
        invariant
            i <= cached@.len(),
            cands@.len() == i,
            forall|mi: usize, cp: ContactPoint, w: WarmPoint| #[trigger]
                probe.requires((mi, cp, w)),
            forall|j: int|
                0 <= j < i ==> probe.ensures((mi, *cp, cached@[j]), #[trigger] cands@[j]),
        decreases cached@.len() - i,
    {
        cands.push(probe(mi, *cp, cached[i]));
        i += 1;
    }
    let found = match_warm_point(
        cp.feature,
        cands.as_slice(),
        agreement.aligned,
        agreement.kept,
        counters,
    );
    let start: Option<WarmPoint> = match found {
        WarmMatch::Exact(k) => Some(cached[k]),
        WarmMatch::Fallback(k) => Some(cached[k]),
        _ => None,
    };
    assert(starts_from(
        *probe,
        mi,
        *cp,
        cached_points(table@, key),
        agreement.aligned,
        cands@,
        found,
        start,
    ));
    start
}

/// How a point was prepared: the candidates it had and the match among them, what
/// keeping the anchor of the match gives, fresh anchors, and the numbers.
pub struct PointStory {
    pub cands: Seq<WarmCandidate>,
    pub found: WarmMatch,
    pub recycled: Recycled,
    pub baked: (Vec3, Vec3),
    pub numbers: PointNumbers,
}

impl PointStory {
    /// Where the point acts.
    pub open spec fn anchor(self, cp: ContactPoint, cached: Seq<WarmPoint>) -> AnchorGeom {
        let warm = match taken(cached, self.found) {
            Some(w) => Some((w, self.recycled)),
            None => None,
        };
        resolve_anchor_spec(cp, warm, self.baked)
    }
}

/// The terms of a point: its numbers, how soft it is, and how its anchors are pulled
/// together.
pub open spec fn terms_of(
    x: PointNumbers,
    anchor: AnchorGeom,
    warm: Option<WarmPoint>,
) -> PointTerms {
    let held = warm is Some && !x.slid && x.strayed;
    PointTerms {
        ra: x.ra,
        rb: x.rb,
        t1: x.t1,
        t2: x.t2,
        nmass: x.nmass,
        tmass1: x.tmass1,
        tmass2: x.tmass2,
        tcross: x.tcross,
        trhs1: if held {
            x.pull1
        } else {
            Scalar::zero_spec()
        },
        trhs2: if held {
            x.pull2
        } else {
            Scalar::zero_spec()
        },
        rhs: x.rhs,
        cfm: if Scalar::zero_spec().le_spec(anchor.depth) {
            Scalar { bits: 0x3f80_0000 }
        } else if x.fixed {
            x.soft_fixed
        } else {
            x.soft_moving
        },
        friction: x.friction,
        anchor,
        warm,
    }
}

/// The point was prepared so.
pub open spec fn point_prepared<
    A: Fn(usize, Vec3) -> Agreement,
    C: Fn(usize, ContactPoint, WarmPoint) -> WarmCandidate,
    K: Fn(usize, WarmPoint) -> Recycled,
    B: Fn(usize, ContactPoint) -> (Vec3, Vec3),
    P: Fn(usize, ContactPoint, AnchorGeom, Option<WarmPoint>) -> PointNumbers,
>(
    prep: ContactPrep<A, C, K, B, P>,
    mi: usize,
    cp: ContactPoint,
    cached: Seq<WarmPoint>,
    agreement: Agreement,
    s: PointStory,
    t: PointTerms,
) -> bool {
    let anchor = s.anchor(cp, cached);
    &&& starts_from(
        prep.probe,
        mi,
        cp,
        cached,
        agreement.aligned,
        s.cands,
        s.found,
        taken(cached, s.found),
    )
    &&& taken(cached, s.found) matches Some(w) ==> prep.recycle.ensures((mi, w), s.recycled)
    &&& prep.bake.ensures((mi, cp), s.baked)
    &&& prep.numbers.ensures((mi, cp, anchor, taken(cached, s.found)), s.numbers)
    &&& t == terms_of(s.numbers, anchor, taken(cached, s.found))
}

/// The counters after a point was prepared.
pub open spec fn point_tallied(
    c: Counters,
    cp: ContactPoint,
    cached: Seq<WarmPoint>,
    agreement: Agreement,
    s: PointStory,
) -> Counters {
    let d = match_counted(c, s.cands, cp.feature, agreement.kept, s.found);
    Counters {
        points: counted(d.points),
        separated: if s.anchor(cp, cached).depth.lt_spec(Scalar::zero_spec()) {
            counted(d.separated)
        } else {
            d.separated
        },
        closing_milli: ((d.closing_milli + s.numbers.closing_milli) % 0x1_0000_0000_0000_0000)
            as u64,
        bias_milli: ((d.bias_milli + s.numbers.bias_milli) % 0x1_0000_0000_0000_0000) as u64,
        ..d
    }
}

/// The counters after the first `n` points of a manifold were prepared.
pub open spec fn points_tallied(
    c: Counters,
    cps: Seq<ContactPoint>,
    cached: Seq<WarmPoint>,
    agreement: Agreement,
    stories: Seq<PointStory>,
    n: int,
) -> Counters
    decreases n,
{
    if n <= 0 {
        c
    } else {
        point_tallied(
            points_tallied(c, cps, cached, agreement, stories, n - 1),
            cps[n - 1],
            cached,
            agreement,
            stories[n - 1],
        )
    }
}

/// The agreement with the normal that is cached under the key; none if nothing is
/// cached.
pub open spec fn agreed<A: Fn(usize, Vec3) -> Agreement>(
    agree: A,
    mi: usize,
    st: WarmState,
    key: WarmKey,
    agreement: Agreement,
) -> bool {
    if st.has(key) {
        agree.ensures((mi, st.at(key).normal), agreement)
    } else {
        agreement == (Agreement { aligned: false, kept: false })
    }
}

/// The cache key of a manifold.
pub open spec fn manifold_key(m: &Manifold) -> WarmKey {
    WarmKey { a: m.a, b: m.b, space: m.points.space_spec() as u32 }
}

/// The points of the manifold were prepared so, each from what is cached under the
/// key of the manifold.
pub open spec fn manifold_prepared<
    A: Fn(usize, Vec3) -> Agreement,
    C: Fn(usize, ContactPoint, WarmPoint) -> WarmCandidate,
    K: Fn(usize, WarmPoint) -> Recycled,
    B: Fn(usize, ContactPoint) -> (Vec3, Vec3),
    P: Fn(usize, ContactPoint, AnchorGeom, Option<WarmPoint>) -> PointNumbers,
>(
    prep: ContactPrep<A, C, K, B, P>,
    mi: usize,
    m: &Manifold,
    st: WarmState,
    agreement: Agreement,
    stories: Seq<PointStory>,
    terms: Seq<PointTerms>,
) -> bool {
    &&& agreed(prep.agree, mi, st, manifold_key(m), agreement)
    &&& terms.len() == m.points@.len()
    &&& stories.len() == terms.len()
    &&& forall|k: int|
        0 <= k < terms.len() ==> point_prepared(
            prep,
            mi,
            m.points@[k],
            cached_points(st, manifold_key(m)),
            agreement,
            stories[k],
            #[trigger] terms[k],
        )
}

/// The terms are those of the manifold, and the counters tell how they were made.
pub open spec fn prepared<
    A: Fn(usize, Vec3) -> Agreement,
    C: Fn(usize, ContactPoint, WarmPoint) -> WarmCandidate,
    K: Fn(usize, WarmPoint) -> Recycled,
    B: Fn(usize, ContactPoint) -> (Vec3, Vec3),
    P: Fn(usize, ContactPoint, AnchorGeom, Option<WarmPoint>) -> PointNumbers,
>(
    prep: ContactPrep<A, C, K, B, P>,
    mi: usize,
    m: &Manifold,
    st: WarmState,
    terms: Seq<PointTerms>,
    before: Counters,
    after: Counters,
) -> bool {
    exists|agreement: Agreement, stories: Seq<PointStory>| #[trigger]
        manifold_prepared(prep, mi, m, st, agreement, stories, terms) && after == points_tallied(
            before,
            m.points@,
            cached_points(st, manifold_key(m)),
            agreement,
            stories,
            terms.len() as int,
        )
}

fn prepare_point<
    A: Fn(usize, Vec3) -> Agreement,
    C: Fn(usize, ContactPoint, WarmPoint) -> WarmCandidate,
    K: Fn(usize, WarmPoint) -> Recycled,
    B: Fn(usize, ContactPoint) -> (Vec3, Vec3),
    P: Fn(usize, ContactPoint, AnchorGeom, Option<WarmPoint>) -> PointNumbers,
>(
    prep: &ContactPrep<A, C, K, B, P>,
    mi: usize,
    cp: &ContactPoint,
    table: &WarmTable,
    key: WarmKey,
    agreement: Agreement,
    counters: &mut Counters,
) -> (r: (PointTerms, Ghost<PointStory>))
    requires
        table@.sound(),
        total_prep(*prep),
    ensures
        point_prepared(
            *prep,
            mi,
            *cp,
            cached_points(table@, key),
            agreement,
            r.1@,
            r.0,
        ),
        *final(counters) == point_tallied(
            *old(counters),
            *cp,
            cached_points(table@, key),
            agreement,
            r.1@,
        ),
{
    let ghost cached = cached_points(table@, key);
    let ghost c0 = *counters;
    let warm = cached_start(mi, cp, table, key, agreement, &prep.probe, counters);
    let ghost c1 = *counters;
    let ghost (cands, found) = choose|cands: Seq<WarmCandidate>, found: WarmMatch| #[trigger]
        starts_from(prep.probe, mi, *cp, cached, agreement.aligned, cands, found, warm) && c1
            == match_counted(c0, cands, cp.feature, agreement.kept, found);
    let baked = (prep.bake)(mi, *cp);
    let none = Recycled {
        within: false,
        midpoint: Vec3::zero(),
        depth: Scalar::zero(),
        separation: Vec3::zero(),
    };
    let recycled: Recycled = match warm {
        Some(w) => (prep.recycle)(mi, w),
        None => none,
    };
    let kept: Option<(WarmPoint, Recycled)> = match warm {
        Some(w) => Some((w, recycled)),
        None => None,
    };
    let anchor = resolve_anchor(cp, kept, baked);
    let x = (prep.numbers)(mi, *cp, anchor, warm);
    count_point(counters, anchor.depth, x.closing_milli, x.bias_milli);
    let slid: Option<bool> = match warm {
        Some(_) => Some(x.slid),
        None => None,
    };
    let (trhs1, trhs2) = tangential_drift(slid, x.strayed, (x.pull1, x.pull2));
    let one = Scalar { bits: 0x3f80_0000 };
    let cfm = softness(anchor.depth, x.fixed, one, x.soft_fixed, x.soft_moving);
    let t = PointTerms {
        ra: x.ra,
        rb: x.rb,
        t1: x.t1,
        t2: x.t2,
        nmass: x.nmass,
        tmass1: x.tmass1,
        tmass2: x.tmass2,
        tcross: x.tcross,
        trhs1,
        trhs2,
        rhs: x.rhs,
        cfm,
        friction: x.friction,
        anchor,
        warm,
    };
    let ghost s = PointStory { cands, found, recycled, baked, numbers: x };
    assert(anchor == s.anchor(*cp, cached));
    (t, Ghost(s))
}

/// Prepares the points of a manifold.
pub fn prepare_points<
    A: Fn(usize, Vec3) -> Agreement,
    C: Fn(usize, ContactPoint, WarmPoint) -> WarmCandidate,
    K: Fn(usize, WarmPoint) -> Recycled,
    B: Fn(usize, ContactPoint) -> (Vec3, Vec3),
    P: Fn(usize, ContactPoint, AnchorGeom, Option<WarmPoint>) -> PointNumbers,
>(
    prep: &ContactPrep<A, C, K, B, P>,
    mi: usize,
    m: &Manifold,
    table: &WarmTable,
    counters: &mut Counters,
) -> (terms: Vec<PointTerms>)
    requires
        table@.sound(),
        total_prep(*prep),
    ensures
        prepared(*prep, mi, m, table@, terms@, *old(counters), *final(counters)),
        terms@.len() == m.points@.len(),
{
    let key = WarmKey { a: m.a, b: m.b, space: m.points.space() as u32 };
    let slot: u32 = table.lookup(key);
    let agreement: Agreement = if slot == NONE {
        Agreement { aligned: false, kept: false }
    } else {
        (prep.agree)(mi, table.slots[slot as usize].value.normal)
    };
    let ghost cached = cached_points(table@, key);
    let ghost c0 = *counters;
    let ghost mut stories: Seq<PointStory> = Seq::empty();
    let mut terms: Vec<PointTerms> = Vec::new();
    let n: usize = m.points.len();
    let mut k: usize = 0;
    while k < n
        invariant
            k <= n,
            n == m.points@.len(),
            table@.sound(),
            total_prep(*prep),
            cached == cached_points(table@, key),
            terms@.len() == k,
            stories.len() == k,
            forall|j: int|
                0 <= j < k ==> point_prepared(
                    *prep,
                    mi,
                    m.points@[j],
                    cached,
                    agreement,
                    stories[j],
                    #[trigger] terms@[j],
                ),
            *counters == points_tallied(c0, m.points@, cached, agreement, stories, k as int),
        decreases n - k,
    {
        let cp = m.points.get(k);
        let ghost old_stories = stories;
        let (t, Ghost(s)) = prepare_point(prep, mi, &cp, table, key, agreement, counters);
        terms.push(t);
        proof {
            stories = stories.push(s);
            lemma_tally_kept(c0, m.points@, cached, agreement, old_stories, stories, k as int);
            assert forall|j: int| 0 <= j < k + 1 implies point_prepared(
                *prep,
                mi,
                m.points@[j],
                cached,
                agreement,
                stories[j],
                #[trigger] terms@[j],
            ) by {
                if j < k {
                    assert(stories[j] == old_stories[j]);
                }
            }
        }
        k += 1;
    }
    assert(manifold_prepared(*prep, mi, m, table@, agreement, stories, terms@));
    terms
}

proof fn lemma_tally_kept(
    c: Counters,
    cps: Seq<ContactPoint>,
    cached: Seq<WarmPoint>,
    agreement: Agreement,
    x: Seq<PointStory>,
    y: Seq<PointStory>,
    n: int,
)
    requires
        0 <= n <= x.len(),
        n <= y.len(),
        forall|j: int| 0 <= j < n ==> #[trigger] x[j] == y[j],
    ensures
        points_tallied(c, cps, cached, agreement, x, n) == points_tallied(
            c,
            cps,
            cached,
            agreement,
            y,
            n,
        ),
    decreases n,
{
    if n > 0 {
        lemma_tally_kept(c, cps, cached, agreement, x, y, n - 1);
        assert(x[n - 1] == y[n - 1]);
    }
}

/// The measurements give the same answer to the same question.
pub open spec fn steady_prep<
    A: Fn(usize, Vec3) -> Agreement,
    C: Fn(usize, ContactPoint, WarmPoint) -> WarmCandidate,
    K: Fn(usize, WarmPoint) -> Recycled,
    B: Fn(usize, ContactPoint) -> (Vec3, Vec3),
    P: Fn(usize, ContactPoint, AnchorGeom, Option<WarmPoint>) -> PointNumbers,
>(prep: ContactPrep<A, C, K, B, P>) -> bool {
    &&& forall|mi: usize, n: Vec3, r: Agreement, s: Agreement| #[trigger]
        prep.agree.ensures((mi, n), r) && #[trigger] prep.agree.ensures((mi, n), s) ==> r == s
    &&& forall|mi: usize, cp: ContactPoint, w: WarmPoint, r: WarmCandidate, s: WarmCandidate|
        #[trigger] prep.probe.ensures((mi, cp, w), r) && #[trigger] prep.probe.ensures(
            (mi, cp, w),
            s,
        ) ==> r == s
    &&& forall|mi: usize, w: WarmPoint, r: Recycled, s: Recycled| #[trigger]
        prep.recycle.ensures((mi, w), r) && #[trigger] prep.recycle.ensures((mi, w), s) ==> r == s
    &&& forall|mi: usize, cp: ContactPoint, r: (Vec3, Vec3), s: (Vec3, Vec3)| #[trigger]
        prep.bake.ensures((mi, cp), r) && #[trigger] prep.bake.ensures((mi, cp), s) ==> r == s
    &&& forall|
        mi: usize,
        cp: ContactPoint,
        g: AnchorGeom,
        w: Option<WarmPoint>,
        r: PointNumbers,
        s: PointNumbers,
    | #[trigger]
        prep.numbers.ensures((mi, cp, g, w), r) && #[trigger] prep.numbers.ensures(
            (mi, cp, g, w),
            s,
        ) ==> r == s
}

/// What a manifold starts from is fixed by the cache: preparing it twice gives the
/// same terms.
pub proof fn preparing_is_determined<
    A: Fn(usize, Vec3) -> Agreement,
    C: Fn(usize, ContactPoint, WarmPoint) -> WarmCandidate,
    K: Fn(usize, WarmPoint) -> Recycled,
    B: Fn(usize, ContactPoint) -> (Vec3, Vec3),
    P: Fn(usize, ContactPoint, AnchorGeom, Option<WarmPoint>) -> PointNumbers,
>(
    prep: ContactPrep<A, C, K, B, P>,
    mi: usize,
    m: &Manifold,
    st: WarmState,
    x: Seq<PointTerms>,
    y: Seq<PointTerms>,
    cx: (Counters, Counters),
    cy: (Counters, Counters),
)
    requires
        steady_prep(prep),
        prepared(prep, mi, m, st, x, cx.0, cx.1),
        prepared(prep, mi, m, st, y, cy.0, cy.1),
    ensures
        x == y,
{
    let cached = cached_points(st, manifold_key(m));
    let (ax, sx) = choose|agreement: Agreement, stories: Seq<PointStory>| #[trigger]
        manifold_prepared(prep, mi, m, st, agreement, stories, x) && cx.1 == points_tallied(
            cx.0,
            m.points@,
            cached,
            agreement,
            stories,
            x.len() as int,
        );
    let (ay, sy) = choose|agreement: Agreement, stories: Seq<PointStory>| #[trigger]
        manifold_prepared(prep, mi, m, st, agreement, stories, y) && cy.1 == points_tallied(
            cy.0,
            m.points@,
            cached,
            agreement,
            stories,
            y.len() as int,
        );
    assert(ax == ay);
    assert forall|k: int| 0 <= k < x.len() implies x[k] == y[k] by {
        let cp = m.points@[k];
        let (s, t) = (sx[k], sy[k]);
        assert(point_prepared(prep, mi, cp, cached, ax, s, x[k]));
        assert(point_prepared(prep, mi, cp, cached, ay, t, y[k]));
        assert forall|i: int| 0 <= i < s.cands.len() implies s.cands[i] == t.cands[i] by {
            assert(prep.probe.ensures((mi, cp, cached[i]), s.cands[i]));
            assert(prep.probe.ensures((mi, cp, cached[i]), t.cands[i]));
        }
        assert(s.cands =~= t.cands);
        crate::constraint::match_is_unique(s.cands, ax.aligned, cp.feature, s.found, t.found);
        assert(s.anchor(cp, cached) == t.anchor(cp, cached));
    }
    assert(x =~= y);
}

/// A solve starts from what an earlier one stored: after a commit the points of a
/// manifold continue points of the entry with its key, and none of any other.
pub proof fn solves_start_from_what_was_stored<
    A: Fn(usize, Vec3) -> Agreement,
    C: Fn(usize, ContactPoint, WarmPoint) -> WarmCandidate,
    K: Fn(usize, WarmPoint) -> Recycled,
    B: Fn(usize, ContactPoint) -> (Vec3, Vec3),
    P: Fn(usize, ContactPoint, AnchorGeom, Option<WarmPoint>) -> PointNumbers,
>(
    prep: ContactPrep<A, C, K, B, P>,
    mi: usize,
    m: &Manifold,
    st: WarmState,
    es: Seq<WarmOutEntry>,
    awake: Seq<bool>,
    stamp: u32,
    i: int,
    terms: Seq<PointTerms>,
    counts: (Counters, Counters),
)
    requires
        st.sound(),
        st.complete(),
        st.keys_below(awake.len() as int),
        entries_fit(st, es, awake.len() as int),
        distinct_keys(es),
        st.slots.len() + es.len() <= u32::MAX,
        0 <= i < es.len(),
        es[i].key == manifold_key(m),
        prepared(
            prep,
            mi,
            m,
            commit_spec(st, es, true, awake, stamp),
            terms,
            counts.0,
            counts.1,
        ),
    ensures
        cached_points(commit_spec(st, es, true, awake, stamp), manifold_key(m))
            == es[i].value.pts_spec(),
        forall|k: int|
            0 <= k < terms.len() ==> ((#[trigger] terms[k]).warm matches Some(w)
                ==> es[i].value.pts_spec().contains(w)),
{
    let key = manifold_key(m);
    let t = commit_spec(st, es, true, awake, stamp);
    commit_keeps_what_may_be_needed(st, es, awake, stamp, key);
    assert(solved(es, key));
    let cached = cached_points(t, key);
    assert(cached =~= es[i].value.pts_spec());
    let (agreement, stories) = choose|agreement: Agreement, stories: Seq<PointStory>| #[trigger]
        manifold_prepared(prep, mi, m, t, agreement, stories, terms) && counts.1
            == points_tallied(
            counts.0,
            m.points@,
            cached,
            agreement,
            stories,
            terms.len() as int,
        );
    assert forall|k: int| 0 <= k < terms.len() implies ((#[trigger] terms[k]).warm matches Some(w)
        ==> es[i].value.pts_spec().contains(w)) by {
        let s = stories[k];
        assert(point_prepared(prep, mi, m.points@[k], cached, agreement, s, terms[k]));
        match s.found {
            WarmMatch::Exact(j) => {
                assert(cached.contains(cached[j as int]));
            },
            WarmMatch::Fallback(j) => {
                assert(cached.contains(cached[j as int]));
            },
            _ => {},
        }
    }
}

} // verus!
