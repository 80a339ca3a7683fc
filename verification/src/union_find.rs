//! Disjoint sets of bodies, each represented by its smallest index.
//!
//! A parent never exceeds its child, so following parents ends at the smallest
//! index of the set.

use vstd::prelude::*;

verus! {

/// Every entry is a valid index that does not exceed its own position.
pub open spec fn forest(parent: Seq<u32>) -> bool {
    forall|i: int| 0 <= i < parent.len() ==> #[trigger] parent[i] <= i
}

/// The representative reached from `i`.
pub open spec fn root_of(parent: Seq<u32>, i: int) -> int
    decreases i,
{
    if 0 <= i < parent.len() && parent[i] < i {
        root_of(parent, parent[i] as int)
    } else {
        i
    }
}

/// A representative is a fixed point at or below the index it represents.
pub proof fn lemma_root_is_fixed(parent: Seq<u32>, i: int)
    requires
        forest(parent),
        0 <= i < parent.len(),
    ensures
        0 <= root_of(parent, i) <= i,
        parent[root_of(parent, i)] == root_of(parent, i),
        root_of(parent, root_of(parent, i)) == root_of(parent, i),
    decreases i,
{
    if parent[i] < i {
        lemma_root_is_fixed(parent, parent[i] as int);
    }
}

/// Pointing `x` at another node with the same representative, not above `x`,
/// changes no representative.
proof fn lemma_shortcut_keeps_roots(parent: Seq<u32>, x: int, g: u32, i: int)
    requires
        forest(parent),
        0 <= x < parent.len(),
        parent[x] < x,
        g < x,
        root_of(parent, g as int) == root_of(parent, x),
        0 <= i < parent.len(),
    ensures
        forest(parent.update(x, g)),
        root_of(parent.update(x, g), i) == root_of(parent, i),
    decreases i,
{
    let p2 = parent.update(x, g);
    assert forall|k: int| 0 <= k < p2.len() implies #[trigger] p2[k] <= k by {
        if k != x {
            assert(p2[k] == parent[k]);
        }
    }
    if i == x {
        lemma_shortcut_keeps_roots(parent, x, g, g as int);
    } else if parent[i] < i {
        lemma_shortcut_keeps_roots(parent, x, g, parent[i] as int);
    }
}

/// Hanging the representative `hi` under the smaller representative `lo` sends
/// exactly the set of `hi` to `lo`.
proof fn lemma_link_roots(parent: Seq<u32>, lo: u32, hi: u32, i: int)
    requires
        forest(parent),
        lo < hi < parent.len(),
        parent[lo as int] == lo,
        parent[hi as int] == hi,
        0 <= i < parent.len(),
    ensures
        forest(parent.update(hi as int, lo)),
        root_of(parent.update(hi as int, lo), i) == if root_of(parent, i) == hi {
            lo as int
        } else {
            root_of(parent, i)
        },
    decreases i,
{
    let p2 = parent.update(hi as int, lo);
    assert forall|k: int| 0 <= k < p2.len() implies #[trigger] p2[k] <= k by {
        if k != hi {
            assert(p2[k] == parent[k]);
        }
    }
    if i == hi {
        lemma_link_roots(parent, lo, hi, lo as int);
    } else if parent[i] < i {
        lemma_link_roots(parent, lo, hi, parent[i] as int);
    }
}

/// The element is met on the way from `x` to its representative, which goes from
/// each element to the parent of its parent.
pub open spec fn visited(parent: Seq<u32>, x: int, i: int) -> bool
    decreases x,
{
    i == x || (0 <= x < parent.len() && parent[x] < x && parent[parent[x] as int] < x && visited(
        parent,
        parent[parent[x] as int] as int,
        i,
    ))
}

/// Nothing above `x` is met on the way from it.
proof fn lemma_visited_below(parent: Seq<u32>, x: int, i: int)
    requires
        visited(parent, x, i),
    ensures
        i <= x,
    decreases x,
{
    if i != x {
        lemma_visited_below(parent, parent[parent[x] as int] as int, i);
    }
}

/// Finds the representative of `x`, halving the path on the way: each element met
/// gets the parent of its parent, and no other changes. No representative changes.
pub fn find_small_root(parent: &mut Vec<u32>, x: u32) -> (r: u32)
    requires
        forest(old(parent)@),
        x < old(parent)@.len(),
    ensures
        r == root_of(old(parent)@, x as int),
        forest(final(parent)@),
        final(parent)@.len() == old(parent)@.len(),
        forall|i: int|
            0 <= i < old(parent)@.len() ==> #[trigger] final(parent)@[i] == if visited(
                old(parent)@,
                x as int,
                i,
            ) {
                old(parent)@[old(parent)@[i] as int]
            } else {
                old(parent)@[i]
            },
        forall|i: int|
            0 <= i < old(parent)@.len() ==> #[trigger] root_of(final(parent)@, i) == root_of(
                old(parent)@,
                i,
            ),
{
    let mut x: u32 = x;
    let ghost start = x as int;
    let ghost first = parent@;
    proof {
        assert forall|i: int| start < i implies !visited(first, start, i) by {
            if visited(first, start, i) {
                lemma_visited_below(first, start, i);
            }
        }
    }
    while parent[x as usize] != x
        invariant
            first == old(parent)@,
            forest(first),
            forest(parent@),
            x < parent@.len(),
            x <= start,
            parent@.len() == first.len(),
            0 <= start < parent@.len(),
            root_of(parent@, x as int) == root_of(first, start),
            forall|i: int| 0 <= i <= x ==> #[trigger] parent@[i] == first[i],
            forall|i: int| 0 <= i <= x ==> visited(first, start, i) == visited(first, x as int, i),
            forall|i: int|
                x < i < first.len() ==> #[trigger] parent@[i] == if visited(first, start, i) {
                    first[first[i] as int]
                } else {
                    first[i]
                },
            forall|i: int|
                0 <= i < parent@.len() ==> #[trigger] root_of(parent@, i) == root_of(first, i),
        decreases x,
    {
        let g: u32 = parent[x as usize];
        let gg: u32 = parent[g as usize];
        let ghost before = parent@;
        proof {
            assert(before[x as int] <= x);
            assert(before[g as int] <= g);
            assert(first[x as int] == g && first[g as int] == gg);
            assert(root_of(before, gg as int) == root_of(before, g as int));
            assert(root_of(before, g as int) == root_of(before, x as int));
            lemma_shortcut_keeps_roots(before, x as int, gg, x as int);
            assert forall|i: int| 0 <= i < before.len() implies #[trigger] root_of(
                before.update(x as int, gg),
                i,
            ) == root_of(first, i) by {
                lemma_shortcut_keeps_roots(before, x as int, gg, i);
                assert(root_of(before, i) == root_of(first, i));
            }
            assert forall|i: int| gg < i <= x implies visited(first, start, i) == (i == x) by {
                assert(visited(first, start, i) == visited(first, x as int, i));
                if visited(first, gg as int, i) {
                    lemma_visited_below(first, gg as int, i);
                }
            }
        }
        parent.set(x as usize, gg);
        x = gg;
    }
    proof {
        assert forall|i: int| 0 <= i < first.len() implies #[trigger] parent@[i] == if visited(
            first,
            start,
            i,
        ) {
            first[first[i] as int]
        } else {
            first[i]
        } by {
            if i <= x {
                assert(first[x as int] == x);
            }
        }
    }
    x
}

/// The representatives after the sets of `x` and `y` are merged.
pub open spec fn merged_root(parent: Seq<u32>, x: int, y: int, i: int) -> int {
    let rx = root_of(parent, x);
    let ry = root_of(parent, y);
    let r = root_of(parent, i);
    if r == rx || r == ry {
        if rx < ry {
            rx
        } else {
            ry
        }
    } else {
        r
    }
}

/// The sets of `x` and `y` are merged, and all others are as before.
pub open spec fn unioned(before: Seq<u32>, after: Seq<u32>, x: u32, y: u32) -> bool {
    &&& forest(after)
    &&& after.len() == before.len()
    &&& forall|i: int|
        0 <= i < before.len() ==> #[trigger] root_of(after, i) == merged_root(
            before,
            x as int,
            y as int,
            i,
        )
}

/// Merges the sets of `x` and `y`; the smaller representative stands for both.
pub fn union_small_root(parent: &mut Vec<u32>, x: u32, y: u32)
    requires
        forest(old(parent)@),
        x < old(parent)@.len(),
        y < old(parent)@.len(),
    ensures
        unioned(old(parent)@, final(parent)@, x, y),
{
    let rx: u32 = find_small_root(parent, x);
    let ry: u32 = find_small_root(parent, y);
    let ghost before = parent@;
    proof {
        lemma_root_is_fixed(before, x as int);
        lemma_root_is_fixed(before, y as int);
    }
    if rx != ry && rx < ry {
        proof {
            assert forall|i: int| 0 <= i < before.len() implies #[trigger] root_of(
                before.update(ry as int, rx),
                i,
            ) == merged_root(old(parent)@, x as int, y as int, i) by {
                lemma_link_roots(before, rx, ry, i);
                assert(root_of(before, i) == root_of(old(parent)@, i));
            }
            lemma_link_roots(before, rx, ry, 0);
        }
        parent.set(ry as usize, rx);
    } else if rx != ry {
        proof {
            assert forall|i: int| 0 <= i < before.len() implies #[trigger] root_of(
                before.update(rx as int, ry),
                i,
            ) == merged_root(old(parent)@, x as int, y as int, i) by {
                lemma_link_roots(before, ry, rx, i);
                assert(root_of(before, i) == root_of(old(parent)@, i));
            }
            lemma_link_roots(before, ry, rx, 0);
        }
        parent.set(rx as usize, ry);
    }
}

/// Two elements are named together by one of the pairs.
pub open spec fn paired(pairs: Seq<(u32, u32)>, i: int, j: int) -> bool {
    exists|k: int|
        0 <= k < pairs.len() && (((#[trigger] pairs[k]).0 == i && pairs[k].1 == j) || (pairs[k].0
            == j && pairs[k].1 == i))
}

/// A path on which each element is paired with the next.
pub open spec fn path(pairs: Seq<(u32, u32)>, p: Seq<int>) -> bool {
    p.len() >= 1 && forall|t: int| 0 <= t < p.len() - 1 ==> paired(pairs, #[trigger] p[t], p[t + 1])
}

/// Two elements are the ends of a path.
pub open spec fn joined(pairs: Seq<(u32, u32)>, i: int, j: int) -> bool {
    exists|p: Seq<int>| #[trigger] path(pairs, p) && p[0] == i && p.last() == j
}

/// Unions made one after the other for all the pairs, starting with every element
/// by itself.
pub open spec fn union_run(pairs: Seq<(u32, u32)>, states: Seq<Seq<u32>>) -> bool {
    &&& states.len() == pairs.len() + 1
    &&& forall|i: int| 0 <= i < states[0].len() ==> #[trigger] states[0][i] == i
    &&& forall|k: int|
        0 <= k < pairs.len() ==> (#[trigger] pairs[k]).0 < states[0].len() && pairs[k].1
            < states[0].len()
    &&& forall|k: int|
        0 <= k < pairs.len() ==> unioned(
            #[trigger] states[k],
            states[k + 1],
            pairs[k].0,
            pairs[k].1,
        )
}

/// Paths that share an end join, and every path can be read backwards.
proof fn lemma_joined(pairs: Seq<(u32, u32)>, i: int, j: int, k: int)
    ensures
        joined(pairs, i, i),
        paired(pairs, i, j) ==> joined(pairs, i, j),
        joined(pairs, i, j) ==> joined(pairs, j, i),
        joined(pairs, i, j) && joined(pairs, j, k) ==> joined(pairs, i, k),
{
    let one = seq![i];
    assert(path(pairs, one) && one[0] == i && one.last() == i);
    if paired(pairs, i, j) {
        let two = seq![i, j];
        assert(path(pairs, two) && two[0] == i && two.last() == j);
    }
    if joined(pairs, i, j) {
        let p = choose|p: Seq<int>| #[trigger] path(pairs, p) && p[0] == i && p.last() == j;
        let back = p.reverse();
        assert forall|t: int| 0 <= t < back.len() - 1 implies paired(
            pairs,
            #[trigger] back[t],
            back[t + 1],
        ) by {
            let u = p.len() - 2 - t;
            assert(paired(pairs, p[u], p[u + 1]));
        }
        assert(path(pairs, back) && back[0] == j && back.last() == i);
        if joined(pairs, j, k) {
            let q = choose|q: Seq<int>| #[trigger] path(pairs, q) && q[0] == j && q.last() == k;
            let r = p + q.subrange(1, q.len() as int);
            assert forall|t: int| 0 <= t < r.len() - 1 implies paired(
                pairs,
                #[trigger] r[t],
                r[t + 1],
            ) by {
                if t < p.len() - 1 {
                    assert(paired(pairs, p[t], p[t + 1]));
                } else {
                    let u = t - (p.len() - 1);
                    assert(paired(pairs, q[u], q[u + 1]));
                    assert(r[t] == q[u]);
                    assert(r[t + 1] == q[u + 1]);
                }
            }
            assert(path(pairs, r) && r[0] == i && r.last() == k);
        }
    }
}

/// Whatever pairs one list names are joined alike by a list that names them too.
proof fn lemma_joined_grows(fewer: Seq<(u32, u32)>, more: Seq<(u32, u32)>, i: int, j: int)
    requires
        forall|x: int, y: int| paired(fewer, x, y) ==> #[trigger] paired(more, x, y),
        joined(fewer, i, j),
    ensures
        joined(more, i, j),
{
    let p = choose|p: Seq<int>| #[trigger] path(fewer, p) && p[0] == i && p.last() == j;
    assert forall|t: int| 0 <= t < p.len() - 1 implies paired(
        more,
        #[trigger] p[t],
        p[t + 1],
    ) by {
        assert(paired(fewer, p[t], p[t + 1]));
    }
    assert(path(more, p));
}

/// After some of the unions, elements with one representative are joined.
proof fn lemma_same_root_is_joined(
    pairs: Seq<(u32, u32)>,
    states: Seq<Seq<u32>>,
    k: int,
    i: int,
    j: int,
)
    requires
        union_run(pairs, states),
        0 <= k <= pairs.len(),
        0 <= i < states[0].len(),
        0 <= j < states[0].len(),
        root_of(states[k], i) == root_of(states[k], j),
    ensures
        joined(pairs, i, j),
    decreases k,
{
    lemma_run_keeps_shape(pairs, states, k);
    if k == 0 {
        lemma_joined(pairs, i, j, j);
    } else {
        let (before, after) = (states[k - 1], states[k - 1 + 1]);
        lemma_run_keeps_shape(pairs, states, k - 1);
        assert(unioned(before, after, pairs[k - 1].0, pairs[k - 1].1));
        let (x, y) = (pairs[k - 1].0 as int, pairs[k - 1].1 as int);
        if root_of(before, i) == root_of(before, j) {
            lemma_same_root_is_joined(pairs, states, k - 1, i, j);
        } else {
            assert(paired(pairs, x, y) && paired(pairs, y, x));
            lemma_joined(pairs, x, y, y);
            lemma_joined(pairs, y, x, x);
            assert(root_of(after, i) == merged_root(before, x, y, i));
            assert(root_of(after, j) == merged_root(before, x, y, j));
            if root_of(before, i) == root_of(before, x) {
                lemma_same_root_is_joined(pairs, states, k - 1, i, x);
                lemma_same_root_is_joined(pairs, states, k - 1, y, j);
                lemma_joined(pairs, i, x, y);
                lemma_joined(pairs, i, y, j);
            } else {
                lemma_same_root_is_joined(pairs, states, k - 1, i, y);
                lemma_same_root_is_joined(pairs, states, k - 1, x, j);
                lemma_joined(pairs, i, y, x);
                lemma_joined(pairs, i, x, j);
            }
        }
    }
}

/// Every state of a run is a forest over the same elements.
proof fn lemma_run_keeps_shape(pairs: Seq<(u32, u32)>, states: Seq<Seq<u32>>, k: int)
    requires
        union_run(pairs, states),
        0 <= k <= pairs.len(),
    ensures
        forest(states[k]),
        states[k].len() == states[0].len(),
    decreases k,
{
    if k > 0 {
        lemma_run_keeps_shape(pairs, states, k - 1);
        assert(unioned(states[k - 1], states[k - 1 + 1], pairs[k - 1].0, pairs[k - 1].1));
    }
}

/// Elements that a pair has named have one representative from then on.
proof fn lemma_paired_stay_together(
    pairs: Seq<(u32, u32)>,
    states: Seq<Seq<u32>>,
    q: int,
    k: int,
)
    requires
        union_run(pairs, states),
        0 <= q < k <= pairs.len(),
    ensures
        root_of(states[k], pairs[q].0 as int) == root_of(states[k], pairs[q].1 as int),
    decreases k,
{
    let (x, y) = (pairs[q].0 as int, pairs[q].1 as int);
    lemma_run_keeps_shape(pairs, states, k - 1);
    assert(unioned(states[k - 1], states[k - 1 + 1], pairs[k - 1].0, pairs[k - 1].1));
    assert(0 <= x < states[k - 1].len() && 0 <= y < states[k - 1].len());
    let (a, b) = (pairs[k - 1].0 as int, pairs[k - 1].1 as int);
    assert(root_of(states[k], x) == merged_root(states[k - 1], a, b, x));
    assert(root_of(states[k], y) == merged_root(states[k - 1], a, b, y));
    if q < k - 1 {
        lemma_paired_stay_together(pairs, states, q, k - 1);
    }
}

/// Along a path all representatives agree once the unions are made.
proof fn lemma_path_has_one_root(
    pairs: Seq<(u32, u32)>,
    states: Seq<Seq<u32>>,
    p: Seq<int>,
    t: int,
)
    requires
        union_run(pairs, states),
        path(pairs, p),
        0 <= t < p.len(),
        0 <= p[0] < states[0].len(),
    ensures
        0 <= p[t] < states[0].len(),
        root_of(states.last(), p[t]) == root_of(states.last(), p[0]),
    decreases t,
{
    if t > 0 {
        lemma_path_has_one_root(pairs, states, p, t - 1);
        let (x, y) = (p[t - 1], p[t - 1 + 1]);
        assert(paired(pairs, p[t - 1], p[t - 1 + 1]));
        let q = choose|q: int|
            0 <= q < pairs.len() && (((#[trigger] pairs[q]).0 == x && pairs[q].1 == y) || (
            pairs[q].0 == y && pairs[q].1 == x));
        lemma_paired_stay_together(pairs, states, q, pairs.len() as int);
    }
}

/// After unions for a list of pairs, starting with every element by itself, two
/// elements have one representative exactly when the pairs join them, and the
/// representative is the least element joined to them.
pub proof fn unions_find_the_least(
    pairs: Seq<(u32, u32)>,
    states: Seq<Seq<u32>>,
    i: int,
    j: int,
)
    requires
        union_run(pairs, states),
        0 <= i < states[0].len(),
        0 <= j < states[0].len(),
    ensures
        forest(states.last()),
        states.last().len() == states[0].len(),
        (root_of(states.last(), i) == root_of(states.last(), j)) == joined(pairs, i, j),
        joined(pairs, i, root_of(states.last(), i)),
        joined(pairs, i, j) ==> root_of(states.last(), i) <= j,
{
    let n = pairs.len() as int;
    lemma_run_keeps_shape(pairs, states, n);
    let last = states.last();
    lemma_root_is_fixed(last, i);
    lemma_root_is_fixed(last, j);
    if root_of(last, i) == root_of(last, j) {
        lemma_same_root_is_joined(pairs, states, n, i, j);
    }
    lemma_same_root_is_joined(pairs, states, n, i, root_of(last, i));
    if joined(pairs, i, j) {
        let p = choose|p: Seq<int>| #[trigger] path(pairs, p) && p[0] == i && p.last() == j;
        lemma_path_has_one_root(pairs, states, p, p.len() - 1);
    }
}

/// Neither the order of the unions nor the order of the two elements in any of
/// them, nor a repetition, changes a representative.
pub proof fn order_of_unions_changes_nothing(
    p1: Seq<(u32, u32)>,
    s1: Seq<Seq<u32>>,
    p2: Seq<(u32, u32)>,
    s2: Seq<Seq<u32>>,
    i: int,
)
    requires
        union_run(p1, s1),
        union_run(p2, s2),
        s1[0].len() == s2[0].len(),
        forall|x: int, y: int| #[trigger] paired(p1, x, y) == #[trigger] paired(p2, x, y),
        0 <= i < s1[0].len(),
    ensures
        root_of(s1.last(), i) == root_of(s2.last(), i),
{
    unions_find_the_least(p1, s1, i, i);
    unions_find_the_least(p2, s2, i, i);
    let (r1, r2) = (root_of(s1.last(), i), root_of(s2.last(), i));
    lemma_root_is_fixed(s1.last(), i);
    lemma_root_is_fixed(s2.last(), i);
    lemma_joined_grows(p1, p2, i, r1);
    lemma_joined_grows(p2, p1, i, r2);
    unions_find_the_least(p1, s1, i, r2);
    unions_find_the_least(p2, s2, i, r1);
}

} // verus!
