//! Choosing by index: the indices that satisfy a predicate, and the place of the
//! smallest value.

use crate::scalar::{Scalar, Vec3};
use vstd::prelude::*;

verus! {

/// The indices below `n` that satisfy `p`, in ascending order.
pub open spec fn indices_where(p: spec_fn(int) -> bool, n: nat) -> Seq<int>
    decreases n,
{
    if n == 0 {
        Seq::empty()
    } else if p(n - 1) {
        indices_where(p, (n - 1) as nat).push(n - 1)
    } else {
        indices_where(p, (n - 1) as nat)
    }
}

/// The list holds exactly the indices that satisfy the predicate, in strictly
/// ascending order.
pub proof fn lemma_indices_where(p: spec_fn(int) -> bool, n: nat)
    ensures
        forall|k: int|
            0 <= k < indices_where(p, n).len() ==> 0 <= #[trigger] indices_where(p, n)[k] < n && p(
                indices_where(p, n)[k],
            ),
        forall|j: int, k: int|
            0 <= j < k < indices_where(p, n).len() ==> #[trigger] indices_where(p, n)[j]
                < #[trigger] indices_where(p, n)[k],
        forall|i: int| 0 <= i < n && p(i) ==> #[trigger] indices_where(p, n).contains(i),
        indices_where(p, n).len() <= n,
    decreases n,
{
    if n > 0 {
        let m = (n - 1) as nat;
        lemma_indices_where(p, m);
        let s = indices_where(p, m);
        let t = indices_where(p, n);
        assert forall|i: int| 0 <= i < n && p(i) implies #[trigger] t.contains(i) by {
            if i == n - 1 {
                assert(t[t.len() - 1] == i);
            } else {
                assert(s.contains(i));
                let k = choose|k: int| 0 <= k < s.len() && s[k] == i;
                assert(t[k] == i);
            }
        }
    }
}

/// An index is listed exactly when it satisfies the predicate.
pub proof fn lemma_indices_where_contains(p: spec_fn(int) -> bool, n: nat, i: int)
    ensures
        indices_where(p, n).contains(i) <==> 0 <= i < n && p(i),
{
    lemma_indices_where(p, n);
    if indices_where(p, n).contains(i) {
        let k = choose|k: int| 0 <= k < indices_where(p, n).len() && indices_where(p, n)[k] == i;
        assert(indices_where(p, n)[k] == i);
    }
}

/// The list depends only on the predicate below the bound.
pub proof fn lemma_indices_where_same(p: spec_fn(int) -> bool, q: spec_fn(int) -> bool, n: nat)
    requires
        forall|i: int| 0 <= i < n ==> #[trigger] p(i) == q(i),
    ensures
        indices_where(p, n) == indices_where(q, n),
    decreases n,
{
    if n > 0 {
        lemma_indices_where_same(p, q, (n - 1) as nat);
        assert(p(n - 1) == q(n - 1));
    }
}

/// The values of an index list held as machine integers.
pub open spec fn ints_u32(s: Seq<u32>) -> Seq<int> {
    s.map_values(|x: u32| x as int)
}

/// The values of an index list held as machine integers.
pub open spec fn ints_usize(s: Seq<usize>) -> Seq<int> {
    s.map_values(|x: usize| x as int)
}

/// `k` is the first of the smallest values below `limit` among those picked.
pub open spec fn first_least(
    d: Seq<Scalar>,
    pick: spec_fn(int) -> bool,
    limit: Scalar,
    k: int,
) -> bool {
    &&& 0 <= k < d.len()
    &&& pick(k)
    &&& d[k].lt_spec(limit)
    &&& forall|j: int| 0 <= j < d.len() && pick(j) ==> !(#[trigger] d[j]).lt_spec(d[k])
    &&& forall|j: int| 0 <= j < k && pick(j) ==> !(#[trigger] d[j]).le_spec(d[k])
}

/// No picked value is below `limit`.
pub open spec fn none_below(d: Seq<Scalar>, pick: spec_fn(int) -> bool, limit: Scalar) -> bool {
    forall|j: int| 0 <= j < d.len() && pick(j) ==> !(#[trigger] d[j]).lt_spec(limit)
}

/// The picks of a list of flags.
pub open spec fn flagged(flags: Seq<bool>) -> spec_fn(int) -> bool {
    |i: int| flags[i]
}

/// Every index.
pub open spec fn everything() -> spec_fn(int) -> bool {
    |i: int| true
}

/// Finds the first of the smallest flagged values below `limit`.
pub fn find_first_least(d: &[Scalar], flags: &[bool], limit: Scalar) -> (r: Option<usize>)
    requires
        flags@.len() == d@.len(),
    ensures
        match r {
            Some(k) => first_least(d@, flagged(flags@), limit, k as int),
            None => none_below(d@, flagged(flags@), limit),
        },
{
    let ghost pick = flagged(flags@);
    let mut best: Option<usize> = None;
    let mut least: Scalar = limit;
    let mut i: usize = 0;
    while i < d.len()
        invariant
            flags@.len() == d@.len(),
            pick == flagged(flags@),
            i <= d@.len(),
            match best {
                Some(k) => k < i && least == d@[k as int] && first_least(
                    d@.take(i as int),
                    pick,
                    limit,
                    k as int,
                ),
                None => least == limit && none_below(d@.take(i as int), pick, limit),
            },
        decreases d@.len() - i,
    {
        let ghost seen = d@.take(i as int);
        let ghost next = d@.take(i + 1);
        let ghost old_best = best;
        assert(next =~= seen.push(d@[i as int]));
        if flags[i] && d[i].lt(least) {
            best = Some(i);
            least = d[i];
        }
        proof {
            match best {
                Some(k) => {
                    assert(next[k as int] == d@[k as int]);
                    assert forall|j: int| 0 <= j < next.len() && pick(j) implies !(
                    #[trigger] next[j]).lt_spec(next[k as int]) by {
                        if j < i {
                            assert(seen[j] == next[j]);
                        }
                    }
                    assert forall|j: int| 0 <= j < k && pick(j) implies !(
                    #[trigger] next[j]).le_spec(next[k as int]) by {
                        assert(seen[j] == next[j]);
                        if old_best is Some {
                            let o = old_best->0;
                            assert(seen[o as int] == d@[o as int]);
                        }
                    }
                },
                None => {
                    assert forall|j: int| 0 <= j < next.len() && pick(j) implies !(
                    #[trigger] next[j]).lt_spec(limit) by {
                        if j < i {
                            assert(seen[j] == next[j]);
                        }
                    }
                },
            }
        }
        i += 1;
    }
    assert(d@.take(i as int) =~= d@);
    best
}

/// There is at most one first smallest value.
pub proof fn first_least_is_unique(
    d: Seq<Scalar>,
    pick: spec_fn(int) -> bool,
    limit: Scalar,
    j: int,
    k: int,
)
    requires
        first_least(d, pick, limit, j),
        first_least(d, pick, limit, k),
    ensures
        j == k,
{
    if j < k {
        assert(!d[j].le_spec(d[k]));
        assert(!d[k].lt_spec(d[j]));
    } else if k < j {
        assert(!d[k].le_spec(d[j]));
        assert(!d[j].lt_spec(d[k]));
    }
}

/// Two vectors that a question finds alike.
pub open spec fn alike_by<F: Fn(Vec3, Vec3) -> bool>(f: F) -> spec_fn(Vec3, Vec3) -> bool {
    |a: Vec3, b: Vec3| f.ensures((a, b), true)
}

/// The vectors kept of the first `n`: those in use that are not like one kept
/// before.
pub open spec fn distinct_of(
    items: Seq<Vec3>,
    usable: Seq<bool>,
    alike: spec_fn(Vec3, Vec3) -> bool,
    n: int,
) -> Seq<Vec3>
    decreases n,
{
    if n <= 0 {
        Seq::empty()
    } else {
        let before = distinct_of(items, usable, alike, n - 1);
        if usable[n - 1] && forall|k: int|
            0 <= k < before.len() ==> !alike(#[trigger] before[k], items[n - 1]) {
            before.push(items[n - 1])
        } else {
            before
        }
    }
}

/// Keeps one of each group of like vectors, the first.
pub fn keep_distinct<F: Fn(Vec3, Vec3) -> bool>(
    items: &[Vec3],
    usable: &[bool],
    alike: F,
) -> (r: Vec<Vec3>)
    requires
        usable@.len() == items@.len(),
        forall|a: Vec3, b: Vec3| #[trigger] alike.requires((a, b)),
        forall|a: Vec3, b: Vec3|
            !(#[trigger] alike.ensures((a, b), true) && alike.ensures((a, b), false)),
    ensures
        r@ == distinct_of(items@, usable@, alike_by(alike), items@.len() as int),
{
    let ghost like = alike_by(alike);
    let mut r: Vec<Vec3> = Vec::new();
    let mut n: usize = 0;
    while n < items.len()
        invariant
            n <= items@.len(),
            usable@.len() == items@.len(),
            forall|a: Vec3, b: Vec3| #[trigger] alike.requires((a, b)),
            forall|a: Vec3, b: Vec3|
                !(#[trigger] alike.ensures((a, b), true) && alike.ensures((a, b), false)),
            like == alike_by(alike),
            r@ == distinct_of(items@, usable@, like, n as int),
        decreases items@.len() - n,
    {
        if usable[n] {
            let d = items[n];
            let mut dup: bool = false;
            let mut k: usize = 0;
            while k < r.len()
                invariant
                    k <= r@.len(),
                    forall|a: Vec3, b: Vec3| #[trigger] alike.requires((a, b)),
                    forall|a: Vec3, b: Vec3|
                        !(#[trigger] alike.ensures((a, b), true) && alike.ensures(
                            (a, b),
                            false,
                        )),
                    like == alike_by(alike),
                    dup == (exists|j: int| 0 <= j < k && like(#[trigger] r@[j], d)),
                decreases r@.len() - k,
            {
                if alike(r[k], d) {
                    assert(like(r@[k as int], d));
                    dup = true;
                }
                k += 1;
            }
            if !dup {
                assert(forall|j: int| 0 <= j < r@.len() ==> !like(#[trigger] r@[j], d));
                r.push(d);
            }
        }
        n += 1;
    }
    r
}

/// No two of the vectors kept are alike.
pub proof fn kept_vectors_are_distinct(
    items: Seq<Vec3>,
    usable: Seq<bool>,
    alike: spec_fn(Vec3, Vec3) -> bool,
    n: int,
    i: int,
    j: int,
)
    requires
        0 <= n <= items.len(),
        usable.len() == items.len(),
        0 <= i < j < distinct_of(items, usable, alike, n).len(),
    ensures
        !alike(distinct_of(items, usable, alike, n)[i], distinct_of(items, usable, alike, n)[j]),
    decreases n,
{
    if n > 0 {
        let before = distinct_of(items, usable, alike, n - 1);
        let now = distinct_of(items, usable, alike, n);
        if now.len() == before.len() {
            kept_vectors_are_distinct(items, usable, alike, n - 1, i, j);
        } else if j < before.len() {
            kept_vectors_are_distinct(items, usable, alike, n - 1, i, j);
        } else {
            assert(now[i] == before[i]);
        }
    }
}

} // verus!
