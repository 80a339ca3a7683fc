//! What the cache of impulses promises.

use crate::constraint::{warm_entry, ContactConstraint};
use crate::guarantees::contacts::held_for;
use crate::guarantees::solving::kept_of;
use crate::warm::{
    commit_keeps_what_may_be_needed, commit_spec, distinct_keys, entries_fit, joined, solved, WarmKey, WarmManifold,
    WarmOutEntry, WarmPoint, WarmState, WarmTable,
};
use vstd::prelude::*;

verus! {

/// All entries, list after list.
pub open spec fn all_of(outs: Seq<Vec<WarmOutEntry>>) -> Seq<WarmOutEntry> {
    Seq::new(outs.len(), |g: int| outs[g]@).flatten()
}

proof fn lemma_all(outs: Seq<Vec<WarmOutEntry>>, k: int)
    requires
        0 <= k <= outs.len(),
    ensures
        joined(outs, k) == Seq::new(k as nat, |g: int| outs[g]@).flatten(),
    decreases k,
{
    if k > 0 {
        lemma_all(outs, k - 1);
        let f = |g: int| outs[g]@;
        let before = Seq::new((k - 1) as nat, f);
        before.lemma_flatten_push(f(k - 1));
        assert(Seq::new(k as nat, f) =~= before.push(f(k - 1)));
    }
}

/// An entry carries the two bodies and the feature space.
pub open spec fn written_for(es: Seq<WarmOutEntry>, a: u32, b: u32, space: u32) -> bool {
    exists|i: int|
        0 <= i < es.len() && (#[trigger] es[i]).key.a == a && es[i].key.b == b && es[i].key.space
            == space
}

/// Cache `t` holds what it must, given what it held and what was handed back: all that was
/// handed back, under the new stamp, and of the rest what has a sleeping body; nothing
/// without contacts.
pub open spec fn cache_rule(
    st: WarmState,
    es: Seq<WarmOutEntry>,
    any: bool,
    awake: Seq<bool>,
    stamp: u32,
    t: WarmState,
) -> bool {
    &&& !any ==> forall|a: u32, b: u32, space: u32| (#[trigger] held_for(t, a, b, space)) is None
    &&& any ==> forall|i: int|
        0 <= i < es.len() ==> {
            let e = #[trigger] es[i];
            let v = held_for(t, e.key.a, e.key.b, e.key.space);
            &&& v is Some
            &&& v.unwrap().points@ == e.value.points@
            &&& v.unwrap().n == e.value.n
            &&& v.unwrap().normal == e.value.normal
            &&& v.unwrap().seen == stamp
        }
    &&& any ==> forall|a: u32, b: u32, space: u32|
        #![trigger held_for(t, a, b, space)]
        {
            let held = held_for(st, a, b, space);
            !written_for(es, a, b, space) && (held is Some ==> held.unwrap().seen != stamp)
                ==> held_for(t, a, b, space) == if held is Some && (!awake[a as int]
                || !awake[b as int]) {
                held
            } else {
                None
            }
        }
}

pub proof fn lemma_cached(
    st: WarmState,
    es: Seq<WarmOutEntry>,
    any: bool,
    awake: Seq<bool>,
    stamp: u32,
)
    requires
        st.sound(),
        st.complete(),
        st.keys_below(awake.len() as int),
        entries_fit(st, es, awake.len() as int),
        distinct_keys(es),
        st.slots.len() + es.len() <= u32::MAX,
    ensures
        cache_rule(st, es, any, awake, stamp, commit_spec(st, es, any, awake, stamp)),
{
    let t = commit_spec(st, es, any, awake, stamp);
    if any {
        assert forall|i: int| 0 <= i < es.len() implies {
            let e = #[trigger] es[i];
            let v = held_for(t, e.key.a, e.key.b, e.key.space);
            &&& v is Some
            &&& v.unwrap().points@ == e.value.points@
            &&& v.unwrap().n == e.value.n
            &&& v.unwrap().normal == e.value.normal
            &&& v.unwrap().seen == stamp
        } by {
            let k = es[i].key;
            commit_keeps_what_may_be_needed(st, es, awake, stamp, k);
            assert(solved(es, k));
            assert(t.has(k));
            assert(held_for(t, k.a, k.b, k.space) == Some(t.at(k)));
        }
        assert forall|a: u32, b: u32, space: u32|
            #![trigger held_for(t, a, b, space)]
            {
                let held = held_for(st, a, b, space);
                !written_for(es, a, b, space) && (held is Some ==> held.unwrap().seen != stamp)
            } implies held_for(t, a, b, space) == if held_for(st, a, b, space) is Some && (
        !awake[a as int] || !awake[b as int]) {
            held_for(st, a, b, space)
        } else {
            None
        } by {
            let key = WarmKey { a, b, space };
            commit_keeps_what_may_be_needed(st, es, awake, stamp, key);
            assert(!solved(es, key)) by {
                if solved(es, key) {
                    let q = choose|q: int| 0 <= q < es.len() && (#[trigger] es[q]).key == key;
                    assert(es[q].key.a == a);
                }
            }
            assert(held_for(t, a, b, space) is Some == t.has(key));
            assert(held_for(st, a, b, space) is Some == st.has(key));
        }
    }
}

/// After a solve the cache holds, for every contact that was solved, what was handed back
/// for it, under the new stamp; of the contacts that were not solved it holds those that
/// it held and one of whose bodies sleeps, unchanged; and nothing else. Without any
/// contact in the scene it is empty.
pub proof fn the_cache_holds_what_was_solved(
    table: &mut WarmTable,
    outs: &Vec<Vec<WarmOutEntry>>,
    any_manifold: bool,
    awake: &Vec<bool>,
    a: u32,
    b: u32,
    space: u32,
    i: int,
)
    requires
        call_ensures(WarmTable::commit_warm_slots, (table, outs, any_manifold, awake), ()),
        old(table)@.sound(),
        old(table)@.complete(),
        old(table)@.keys_below(awake@.len() as int),
        entries_fit(old(table)@, joined(outs@, outs@.len() as int), awake@.len() as int),
        distinct_keys(joined(outs@, outs@.len() as int)),
        old(table)@.slots.len() + joined(outs@, outs@.len() as int).len() <= u32::MAX,
        held_for(old(table)@, a, b, space) is Some ==> held_for(old(table)@, a, b, space).unwrap().seen
            != final(table).stamp,
    ensures
        final(table).stamp == (old(table).stamp + 1) % 0x1_0000_0000,
        !any_manifold ==> held_for(final(table)@, a, b, space) is None,
        any_manifold && 0 <= i < all_of(outs@).len() ==> {
            let e = all_of(outs@)[i];
            let v = held_for(final(table)@, e.key.a, e.key.b, e.key.space);
            &&& v is Some
            &&& v.unwrap().points@ == e.value.points@
            &&& v.unwrap().n == e.value.n
            &&& v.unwrap().normal == e.value.normal
            &&& v.unwrap().seen == final(table).stamp
        },
        any_manifold && !written_for(all_of(outs@), a, b, space) ==> held_for(
            final(table)@,
            a,
            b,
            space,
        ) == if held_for(old(table)@, a, b, space) is Some && (!awake@[a as int]
            || !awake@[b as int]) {
            held_for(old(table)@, a, b, space)
        } else {
            None
        },
{
    let es = joined(outs@, outs@.len() as int);
    lemma_all(outs@, outs@.len() as int);
    assert(es == all_of(outs@));
    let key = WarmKey { a, b, space };
    if any_manifold {
        commit_keeps_what_may_be_needed(old(table)@, es, awake@, final(table).stamp, key);
        if 0 <= i < es.len() {
            let k = es[i].key;
            commit_keeps_what_may_be_needed(old(table)@, es, awake@, final(table).stamp, k);
            assert(solved(es, k));
            let t = final(table)@;
            assert(t.has(k));
            assert(held_for(t, k.a, k.b, k.space) == Some(t.at(k)));
        }
        if !written_for(es, a, b, space) {
            assert(!solved(es, key)) by {
                if solved(es, key) {
                    let q = choose|q: int| 0 <= q < es.len() && (#[trigger] es[q]).key == key;
                    assert(es[q].key.a == a);
                }
            }
            assert(held_for(final(table)@, a, b, space) is Some == final(table)@.has(key));
            assert(held_for(old(table)@, a, b, space) is Some == old(table)@.has(key));
        }
    }
}

/// A key leads to the slot that carries it, and to none exactly if nothing is cached under
/// it; different keys pack to different numbers.
pub proof fn keys_lead_to_their_slots(
    table: &WarmTable,
    k: WarmKey,
    l: WarmKey,
    slot: u32,
    p: u128,
    q: u128,
)
    requires
        table@.sound(),
        call_ensures(WarmTable::lookup, (table, k), slot),
        call_ensures(WarmKey::packed, (k,), p),
        call_ensures(WarmKey::packed, (l,), q),
    ensures
        slot == 0xffff_ffff <==> held_for(table@, k.a, k.b, k.space) is None,
        slot != 0xffff_ffff ==> slot < table.slots@.len() && table.slots@[slot as int].key == k
            && held_for(table@, k.a, k.b, k.space) == Some(table.slots@[slot as int].value),
        p == q <==> k == l,
        p == k.a * 0x1_0000_0000_0000_0000 + k.b * 0x1_0000_0000 + k.space,
{
    crate::warm::packing_tells_keys_apart(k, l);
}

/// A cached manifold hands out its points in use, at most four, in order; an empty one has
/// none.
pub proof fn cached_points_are_handed_out(
    m: &WarmManifold,
    r: Vec<WarmPoint>,
    empty: WarmManifold,
    blank: WarmPoint,
    j: int,
)
    requires
        call_ensures(WarmManifold::pts, (m,), r),
        call_ensures(WarmManifold::empty, (), empty),
        call_ensures(WarmPoint::empty, (), blank),
    ensures
        r@.len() == if m.n < 4 {
            m.n as int
        } else {
            4
        },
        0 <= j < r@.len() ==> r@[j] == m.points@[j],
        empty.n == 0,
        blank.pn.bits == 0 && blank.pt1.bits == 0 && blank.pt2.bits == 0 && blank.feature == 0,
{
}

/// What a solved contact hands back is what is to be kept of it.
pub proof fn contacts_hand_back_what_is_kept(c: &ContactConstraint, e: WarmOutEntry)
    requires
        c.points@.len() <= 4,
        call_ensures(warm_entry, (c,), e),
    ensures
        kept_of(e, *c),
{
}

} // verus!
