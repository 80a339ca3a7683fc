//! Stable sorting by integer keys.

use vstd::prelude::*;

verus! {

/// A key of four parts; the first part counts most.
#[derive(Clone, Copy, Debug, PartialEq, Eq, Structural)]
pub struct SortKey {
    pub a: i64,
    pub b: i64,
    pub c: i64,
    pub d: i64,
}

/// The first key is smaller.
pub open spec fn key_lt(k: SortKey, l: SortKey) -> bool {
    k.a < l.a || (k.a == l.a && (k.b < l.b || (k.b == l.b && (k.c < l.c || (k.c == l.c && k.d
        < l.d)))))
}

/// Item `p` comes before item `q`: its key is smaller, or equal and it stood
/// before it.
pub open spec fn goes_before(keys: Seq<SortKey>, p: int, q: int) -> bool {
    key_lt(keys[p], keys[q]) || (keys[p] == keys[q] && p < q)
}

/// The order lists every item once, each before the next.
pub open spec fn stable_order_of(keys: Seq<SortKey>, order: Seq<int>) -> bool {
    &&& order.len() == keys.len()
    &&& forall|i: int| 0 <= i < order.len() ==> 0 <= #[trigger] order[i] < keys.len()
    &&& forall|p: int| 0 <= p < keys.len() ==> #[trigger] order.contains(p)
    &&& forall|i: int, j: int|
        0 <= i < j < order.len() ==> goes_before(keys, #[trigger] order[i], #[trigger] order[j])
}

/// There is only one such order.
pub proof fn stable_order_is_unique(keys: Seq<SortKey>, r: Seq<int>, s: Seq<int>)
    requires
        stable_order_of(keys, r),
        stable_order_of(keys, s),
    ensures
        r == s,
{
    lemma_orders_agree(keys, r, s, keys.len() as int);
    assert(r =~= s);
}

proof fn lemma_orders_agree(keys: Seq<SortKey>, r: Seq<int>, s: Seq<int>, n: int)
    requires
        stable_order_of(keys, r),
        stable_order_of(keys, s),
        0 <= n <= keys.len(),
    ensures
        forall|i: int| 0 <= i < n ==> #[trigger] r[i] == s[i],
    decreases n,
{
    if n > 0 {
        let i = n - 1;
        lemma_orders_agree(keys, r, s, i);
        let p = r[i];
        let q = s[i];
        if p != q {
            assert(s.contains(p));
            assert(r.contains(q));
            let x = choose|x: int| 0 <= x < s.len() && s[x] == p;
            let y = choose|y: int| 0 <= y < r.len() && r[y] == q;
            if x < i {
                assert(r[x] == s[x]);
                assert(goes_before(keys, r[x], r[i]));
            }
            if y < i {
                assert(r[y] == s[y]);
                assert(goes_before(keys, s[y], s[i]));
            }
            assert(x > i && y > i);
            assert(goes_before(keys, s[i], s[x]));
            assert(goes_before(keys, r[i], r[y]));
        }
    }
}

fn less(k: SortKey, l: SortKey) -> (r: bool)
    ensures
        r == key_lt(k, l),
{
    k.a < l.a || (k.a == l.a && (k.b < l.b || (k.b == l.b && (k.c < l.c || (k.c == l.c && k.d
        < l.d)))))
}

/// The indices of an order.
pub open spec fn as_indices(order: Seq<usize>) -> Seq<int> {
    order.map_values(|i: usize| i as int)
}

/// Sorts by key; equal keys keep their order.
pub fn stable_order(keys: &[SortKey]) -> (order: Vec<usize>)
    ensures
        stable_order_of(keys@, as_indices(order@)),
{
    let mut order: Vec<usize> = Vec::new();
    let mut n: usize = 0;
    while n < keys.len()
        invariant
            n <= keys@.len(),
            order@.len() == n,
            forall|i: int| 0 <= i < n ==> #[trigger] order@[i] < n,
            forall|p: int| 0 <= p < n ==> #[trigger] order@.contains(p as usize),
            forall|i: int, j: int|
                0 <= i < j < n ==> goes_before(
                    keys@,
                    #[trigger] order@[i] as int,
                    #[trigger] order@[j] as int,
                ),
        decreases keys@.len() - n,
    {
        let mut pos: usize = 0;
        while pos < n && !less(keys[n], keys[order[pos]])
            invariant
                n < keys@.len(),
                order@.len() == n,
                pos <= n,
                forall|i: int| 0 <= i < n ==> #[trigger] order@[i] < n,
                forall|i: int| 0 <= i < pos ==> !key_lt(keys@[n as int], keys@[#[trigger] order@[i] as int]),
            decreases n - pos,
        {
            pos += 1;
        }
        let ghost before = order@;
        order.insert(pos, n);
        proof {
            assert forall|p: int| 0 <= p < n + 1 implies #[trigger] order@.contains(p as usize) by {
                if p == n {
                    assert(order@[pos as int] == n);
                } else {
                    assert(before.contains(p as usize));
                    let k = choose|k: int| 0 <= k < before.len() && before[k] == p as usize;
                    if k < pos {
                        assert(order@[k] == p as usize);
                    } else {
                        assert(order@[k + 1] == p as usize);
                    }
                }
            }
            assert forall|i: int, j: int| 0 <= i < j < n + 1 implies goes_before(
                keys@,
                #[trigger] order@[i] as int,
                #[trigger] order@[j] as int,
            ) by {
                if j < pos {
                    assert(order@[i] == before[i] && order@[j] == before[j]);
                } else if j == pos {
                    assert(order@[i] == before[i]);
                    assert(!key_lt(keys@[n as int], keys@[before[i] as int]));
                } else if i < pos {
                    assert(order@[i] == before[i] && order@[j] == before[j - 1]);
                } else if i == pos {
                    assert(order@[j] == before[j - 1]);
                    assert(key_lt(keys@[n as int], keys@[before[pos as int] as int]));
                    if pos < j - 1 {
                        assert(goes_before(
                            keys@,
                            before[pos as int] as int,
                            before[j - 1] as int,
                        ));
                    }
                } else {
                    assert(order@[i] == before[i - 1] && order@[j] == before[j - 1]);
                }
            }
            assert forall|i: int| 0 <= i < n + 1 implies #[trigger] order@[i] < n + 1 by {
                if i < pos {
                    assert(order@[i] == before[i]);
                } else if i > pos {
                    assert(order@[i] == before[i - 1]);
                }
            }
        }
        n += 1;
    }
    proof {
        let r = as_indices(order@);
        assert forall|p: int| 0 <= p < keys@.len() implies #[trigger] r.contains(p) by {
            assert(order@.contains(p as usize));
            let k = choose|k: int| 0 <= k < order@.len() && order@[k] == p as usize;
            assert(r[k] == p);
        }
        assert forall|i: int, j: int| 0 <= i < j < r.len() implies goes_before(
            keys@,
            #[trigger] r[i],
            #[trigger] r[j],
        ) by {
            assert(r[i] == order@[i] && r[j] == order@[j]);
        }
        assert forall|i: int| 0 <= i < r.len() implies 0 <= #[trigger] r[i] < keys@.len() by {
            assert(r[i] == order@[i]);
        }
    }
    order
}

} // verus!
