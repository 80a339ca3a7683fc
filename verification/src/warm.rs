//! The cache of solved impulses, kept in dense slots.
//!
//! A key names two bodies and a feature space. The index leads from a key to
//! its slot; freed slots are reused last in, first out.

use crate::scalar::{Scalar, Vec3};
use std::collections::HashMap;
use vstd::prelude::*;

verus! {

/// The solved impulses of one contact point, with the anchors they belong to.
#[derive(Clone, Copy, Debug, PartialEq, Eq, Structural)]
pub struct WarmPoint {
    pub pn: Scalar,
    pub pt1: Scalar,
    pub pt2: Scalar,
    pub feature: u32,
    pub la: Vec3,
    pub lb: Vec3,
    pub depth0: Scalar,
}

impl WarmPoint {
    /// No impulse, no feature.
    pub open spec fn empty_spec() -> WarmPoint {
        WarmPoint {
            pn: Scalar::zero_spec(),
            pt1: Scalar::zero_spec(),
            pt2: Scalar::zero_spec(),
            feature: 0,
            la: Vec3::zero_spec(),
            lb: Vec3::zero_spec(),
            depth0: Scalar::zero_spec(),
        }
    }

    /// No impulse, no feature.
    pub fn empty() -> (r: WarmPoint)
        ensures
            r == WarmPoint::empty_spec(),
    {
        WarmPoint {
            pn: Scalar::zero(),
            pt1: Scalar::zero(),
            pt2: Scalar::zero(),
            feature: 0,
            la: Vec3::zero(),
            lb: Vec3::zero(),
            depth0: Scalar::zero(),
        }
    }
}

/// The cached points of one manifold: the first `n` of `points`. `seen` is the
/// stamp of the solve that wrote them.
#[derive(Clone, Copy, Debug)]
pub struct WarmManifold {
    pub normal: Vec3,
    pub points: [WarmPoint; 4],
    pub n: u8,
    pub seen: u32,
}

impl WarmManifold {
    /// Whether the point count fits the array.
    pub open spec fn wf(&self) -> bool {
        self.n <= 4
    }

    /// The points in use.
    pub open spec fn pts_spec(&self) -> Seq<WarmPoint> {
        self.points@.take(if self.n <= 4 {
            self.n as int
        } else {
            4
        })
    }

    /// No points.
    pub fn empty() -> (r: WarmManifold)
        ensures
            r.wf(),
            r.n == 0,
            r.seen == 0,
            r.normal == Vec3::zero_spec(),
    {
        WarmManifold { normal: Vec3::zero(), points: [WarmPoint::empty(); 4], n: 0, seen: 0 }
    }

    /// The points in use.
    pub fn pts(&self) -> (r: Vec<WarmPoint>)
        ensures
            r@ == self.pts_spec(),
    {
        let mut r: Vec<WarmPoint> = Vec::new();
        let mut i: usize = 0;
        while i < 4 && i < self.n as usize
            invariant
                i <= self.n,
                i <= 4,
                r@.len() == i,
                forall|j: int| 0 <= j < i ==> r@[j] == self.points@[j],
            decreases self.n - i,
        {
            r.push(self.points[i]);
            i += 1;
        }
        assert(r@ =~= self.pts_spec());
        r
    }
}

/// Two bodies and the feature space of one manifold between them.
#[derive(Clone, Copy, Debug, PartialEq, Eq, Structural)]
pub struct WarmKey {
    pub a: u32,
    pub b: u32,
    pub space: u32,
}

/// Stands for "no body" and for "no slot".
pub const NONE: u32 = 0xffff_ffff;

impl WarmKey {
    /// The key of a slot that holds nothing.
    pub open spec fn dead_spec() -> WarmKey {
        WarmKey { a: NONE, b: NONE, space: NONE }
    }

    /// The key of a slot that holds nothing.
    pub fn dead() -> (r: WarmKey)
        ensures
            r == WarmKey::dead_spec(),
    {
        WarmKey { a: NONE, b: NONE, space: NONE }
    }

    /// The three parts of the key as one number.
    pub open spec fn packed_spec(self) -> u128 {
        (self.a * 0x1_0000_0000_0000_0000 + self.b * 0x1_0000_0000 + self.space) as u128
    }

    /// The three parts of the key as one number.
    pub fn packed(self) -> (r: u128)
        ensures
            r == self.packed_spec(),
    {
        self.a as u128 * 0x1_0000_0000_0000_0000 + self.b as u128 * 0x1_0000_0000
            + self.space as u128
    }
}

/// Different keys pack to different numbers.
pub proof fn packing_tells_keys_apart(k: WarmKey, l: WarmKey)
    ensures
        k.packed_spec() == l.packed_spec() <==> k == l,
{
}

/// One slot: a key and what is cached under it.
#[derive(Clone, Copy, Debug)]
pub struct WarmSlot {
    pub key: WarmKey,
    pub value: WarmManifold,
}

/// What a solve hands back for one manifold: the slot it was read from, or
/// `NONE` if the key was not cached.
#[derive(Clone, Copy, Debug)]
pub struct WarmOutEntry {
    pub slot: u32,
    pub key: WarmKey,
    pub value: WarmManifold,
}

/// The contents of a cache.
pub struct WarmState {
    pub slots: Seq<WarmSlot>,
    pub free: Seq<u32>,
    pub index: Map<u128, u32>,
}

/// The cache.
pub struct WarmTable {
    pub slots: Vec<WarmSlot>,
    pub free: Vec<u32>,
    pub index: HashMap<u128, u32>,
    pub stamp: u32,
}

impl View for WarmTable {
    type V = WarmState;

    open spec fn view(&self) -> WarmState {
        WarmState { slots: self.slots@, free: self.free@, index: self.index@ }
    }
}

impl WarmState {
    /// Free slots are exactly the slots that hold nothing, each once; an indexed
    /// key leads to a slot that carries it.
    pub open spec fn sound(self) -> bool {
        &&& self.slots.len() <= u32::MAX
        &&& self.free.no_duplicates()
        &&& forall|k: int|
            0 <= k < self.free.len() ==> (#[trigger] self.free[k]) < self.slots.len()
                && self.slots[self.free[k] as int].key.a == NONE
        &&& forall|s: int|
            0 <= s < self.slots.len() && (#[trigger] self.slots[s]).key.a == NONE
                ==> self.free.contains(s as u32)
        &&& forall|p: u128| #[trigger]
            self.index.contains_key(p) ==> self.index[p] < self.slots.len()
                && self.slots[self.index[p] as int].key.packed_spec() == p
                && self.slots[self.index[p] as int].key.a != NONE
    }

    /// Every slot that holds something is the one its key leads to.
    pub open spec fn complete(self) -> bool {
        forall|s: int|
            0 <= s < self.slots.len() && (#[trigger] self.slots[s]).key.a != NONE
                ==> self.index.contains_key(self.slots[s].key.packed_spec())
                && self.index[self.slots[s].key.packed_spec()] == s
    }

    /// Whether something is cached under `key`.
    pub open spec fn has(self, key: WarmKey) -> bool {
        self.index.contains_key(key.packed_spec())
    }

    /// What is cached under `key`.
    pub open spec fn at(self, key: WarmKey) -> WarmManifold {
        self.slots[self.index[key.packed_spec()] as int].value
    }

    /// All keys name bodies below `n`.
    pub open spec fn keys_below(self, n: int) -> bool {
        forall|s: int|
            0 <= s < self.slots.len() && (#[trigger] self.slots[s]).key.a != NONE
                ==> self.slots[s].key.a < n && self.slots[s].key.b < n
    }
}

/// The manifold as written by the solve with this stamp.
pub open spec fn stamped(v: WarmManifold, stamp: u32) -> WarmManifold {
    WarmManifold { seen: stamp, ..v }
}

/// The cache after one entry is written: in place, into the slot freed last, or
/// into a new slot.
pub open spec fn write_entry(st: WarmState, e: WarmOutEntry, stamp: u32) -> WarmState {
    let slot = WarmSlot { key: e.key, value: stamped(e.value, stamp) };
    if e.slot != NONE {
        WarmState { slots: st.slots.update(e.slot as int, slot), ..st }
    } else if st.free.len() > 0 {
        WarmState {
            slots: st.slots.update(st.free.last() as int, slot),
            free: st.free.drop_last(),
            index: st.index.insert(e.key.packed_spec(), st.free.last()),
        }
    } else {
        WarmState {
            slots: st.slots.push(slot),
            free: st.free,
            index: st.index.insert(e.key.packed_spec(), st.slots.len() as u32),
        }
    }
}

/// The cache after all entries are written, in order.
pub open spec fn write_entries(st: WarmState, es: Seq<WarmOutEntry>, stamp: u32) -> WarmState
    decreases es.len(),
{
    if es.len() == 0 {
        st
    } else {
        write_entry(write_entries(st, es.drop_last(), stamp), es.last(), stamp)
    }
}

/// The slot is stale: it was not written by this solve, and both bodies are
/// awake, so their contact is gone.
pub open spec fn stale(slot: WarmSlot, awake: Seq<bool>, stamp: u32) -> bool {
    slot.key.a != NONE && slot.value.seen != stamp && awake[slot.key.a as int]
        && awake[slot.key.b as int]
}

/// The cache after slot `i` is freed if it is stale.
pub open spec fn prune_slot(st: WarmState, i: int, awake: Seq<bool>, stamp: u32) -> WarmState {
    if stale(st.slots[i], awake, stamp) {
        WarmState {
            slots: st.slots.update(
                i,
                (WarmSlot { key: WarmKey::dead_spec(), value: st.slots[i].value }),
            ),
            free: st.free.push(i as u32),
            index: st.index.remove(st.slots[i].key.packed_spec()),
        }
    } else {
        st
    }
}

/// The cache after the stale ones among the first `n` slots are freed, in order.
pub open spec fn prune_slots(st: WarmState, n: nat, awake: Seq<bool>, stamp: u32) -> WarmState
    decreases n,
{
    if n == 0 {
        st
    } else {
        prune_slot(prune_slots(st, (n - 1) as nat, awake, stamp), n - 1, awake, stamp)
    }
}

/// The lists below `k`, one after the other.
pub open spec fn joined(outs: Seq<Vec<WarmOutEntry>>, k: int) -> Seq<WarmOutEntry>
    decreases k,
{
    if k <= 0 {
        Seq::empty()
    } else {
        joined(outs, k - 1) + outs[k - 1]@
    }
}

/// Every entry goes to the slot its key led to, or its key led nowhere.
pub open spec fn entries_fit(st: WarmState, es: Seq<WarmOutEntry>, n: int) -> bool {
    forall|i: int|
        0 <= i < es.len() ==> {
            let e = #[trigger] es[i];
            &&& e.key.a < n
            &&& e.key.b < n
            &&& e.key.a != NONE
            &&& if e.slot == NONE {
                !st.has(e.key)
            } else {
                st.has(e.key) && st.index[e.key.packed_spec()] == e.slot
            }
        }
}

/// The cache after a solve: nothing if there was no manifold, otherwise what was
/// solved and what may still be needed.
pub open spec fn commit_spec(
    st: WarmState,
    es: Seq<WarmOutEntry>,
    any_manifold: bool,
    awake: Seq<bool>,
    stamp: u32,
) -> WarmState {
    if any_manifold {
        let written = write_entries(st, es, stamp);
        prune_slots(written, written.slots.len(), awake, stamp)
    } else {
        WarmState { slots: Seq::empty(), free: Seq::empty(), index: Map::empty() }
    }
}

/// What stays true while entries are written: the cache is sound, entries not
/// yet written still fit, and it grows by at most one slot an entry.
pub open spec fn writing(st: WarmState, st0: WarmState, es: Seq<WarmOutEntry>, k: int) -> bool {
    &&& st.sound()
    &&& st.slots.len() <= st0.slots.len() + k
    &&& st.slots.len() >= st0.slots.len()
    &&& forall|i: int|
        0 <= i < es.len() && (#[trigger] es[i]).slot != NONE ==> st.has(es[i].key)
            && st.index[es[i].key.packed_spec()] == es[i].slot
    &&& forall|p: u128| #[trigger]
        st.index.contains_key(p) ==> st0.index.contains_key(p) || exists|i: int|
            0 <= i < k && (#[trigger] es[i]).key.packed_spec() == p && es[i].slot == NONE
}

/// Writing one entry keeps what stays true.
proof fn lemma_write_entry(st: WarmState, st0: WarmState, es: Seq<WarmOutEntry>, k: int, n: int, stamp: u32)
    requires
        entries_fit(st0, es, n),
        0 <= k < es.len(),
        writing(st, st0, es, k),
        st0.slots.len() + es.len() <= u32::MAX,
    ensures
        writing(write_entry(st, es[k], stamp), st0, es, k + 1),
{
    let e = es[k];
    let t = write_entry(st, e, stamp);
    packing_tells_keys_apart(e.key, e.key);
    if e.slot != NONE {
        assert(t.index == st.index);
        assert forall|s: int| 0 <= s < t.slots.len() && (#[trigger] t.slots[s]).key.a
            == NONE implies t.free.contains(s as u32) by {
            assert(s != e.slot);
            assert(t.slots[s] == st.slots[s]);
        }
        assert forall|q: int| 0 <= q < t.free.len() implies (#[trigger] t.free[q]) < t.slots.len()
            && t.slots[t.free[q] as int].key.a == NONE by {
            assert(st.slots[st.free[q] as int].key.a == NONE);
            assert(st.slots[e.slot as int].key.a != NONE);
        }
        assert forall|p: u128| #[trigger] t.index.contains_key(p) implies t.index[p] < t.slots.len()
            && t.slots[t.index[p] as int].key.packed_spec() == p && t.slots[t.index[p] as int].key.a
            != NONE by {
            assert(st.index.contains_key(p));
            if st.index[p] == e.slot {
                packing_tells_keys_apart(st.slots[e.slot as int].key, e.key);
            }
        }
    } else {
        let f = if st.free.len() > 0 {
            st.free.last()
        } else {
            st.slots.len() as u32
        };
        assert(st.free.len() > 0 ==> st.free[st.free.len() - 1] == f);
        assert forall|s: int| 0 <= s < t.slots.len() && (#[trigger] t.slots[s]).key.a
            == NONE implies t.free.contains(s as u32) by {
            assert(s != f);
            assert(t.slots[s] == st.slots[s]);
            assert(st.free.contains(s as u32));
            let q = choose|q: int| 0 <= q < st.free.len() && st.free[q] == s as u32;
            assert(t.free[q] == s as u32);
        }
        assert forall|q: int| 0 <= q < t.free.len() implies (#[trigger] t.free[q]) < t.slots.len()
            && t.slots[t.free[q] as int].key.a == NONE by {
            assert(t.free[q] == st.free[q]);
            assert(st.slots[st.free[q] as int].key.a == NONE);
        }
        assert forall|p: u128| #[trigger] t.index.contains_key(p) implies t.index[p] < t.slots.len()
            && t.slots[t.index[p] as int].key.packed_spec() == p && t.slots[t.index[p] as int].key.a
            != NONE by {
            if p != e.key.packed_spec() {
                assert(st.index.contains_key(p));
                assert(st.slots[st.index[p] as int].key.a != NONE);
            }
        }
        assert forall|p: u128| #[trigger] t.index.contains_key(p) implies st0.index.contains_key(p)
            || exists|i: int|
            0 <= i < k + 1 && (#[trigger] es[i]).key.packed_spec() == p && es[i].slot == NONE by {
            if p == e.key.packed_spec() {
                assert(es[k].key.packed_spec() == p);
            } else {
                assert(st.index.contains_key(p));
                if !st0.index.contains_key(p) {
                    let i = choose|i: int|
                        0 <= i < k && (#[trigger] es[i]).key.packed_spec() == p && es[i].slot
                            == NONE;
                    assert(es[i].key.packed_spec() == p);
                }
            }
        }
    }
    assert forall|i: int| 0 <= i < es.len() && (#[trigger] es[i]).slot != NONE implies t.has(
        es[i].key,
    ) && t.index[es[i].key.packed_spec()] == es[i].slot by {
        assert(st.has(es[i].key));
        if e.slot == NONE {
            assert(!st0.has(e.key));
            assert(st0.has(es[i].key));
        }
    }
}

/// Freeing one slot keeps a sound cache sound.
proof fn lemma_prune_slot_sound(st: WarmState, i: int, awake: Seq<bool>, stamp: u32)
    requires
        st.sound(),
        0 <= i < st.slots.len(),
    ensures
        prune_slot(st, i, awake, stamp).sound(),
        prune_slot(st, i, awake, stamp).slots.len() == st.slots.len(),
{
    let t = prune_slot(st, i, awake, stamp);
    if stale(st.slots[i], awake, stamp) {
        assert(!st.free.contains(i as u32)) by {
            if st.free.contains(i as u32) {
                let q = choose|q: int| 0 <= q < st.free.len() && st.free[q] == i as u32;
                assert(st.slots[st.free[q] as int].key.a == NONE);
            }
        }
        assert forall|s: int| 0 <= s < t.slots.len() && (#[trigger] t.slots[s]).key.a
            == NONE implies t.free.contains(s as u32) by {
            if s == i {
                assert(t.free[t.free.len() - 1] == i as u32);
            } else {
                assert(t.slots[s] == st.slots[s]);
                let q = choose|q: int| 0 <= q < st.free.len() && st.free[q] == s as u32;
                assert(t.free[q] == s as u32);
            }
        }
        assert forall|q: int| 0 <= q < t.free.len() implies (#[trigger] t.free[q]) < t.slots.len()
            && t.slots[t.free[q] as int].key.a == NONE by {
            if q < st.free.len() {
                assert(t.free[q] == st.free[q]);
            }
        }
        assert forall|p: u128| #[trigger] t.index.contains_key(p) implies t.index[p] < t.slots.len()
            && t.slots[t.index[p] as int].key.packed_spec() == p && t.slots[t.index[p] as int].key.a
            != NONE by {
            assert(st.index.contains_key(p));
            assert(st.index[p] != i) by {
                if st.index[p] == i {
                    assert(st.slots[i].key.packed_spec() == p);
                }
            }
        }
    }
}

/// Writing entries never loses what stays true.
proof fn lemma_write_entries(st0: WarmState, es: Seq<WarmOutEntry>, k: int, n: int, stamp: u32)
    requires
        st0.sound(),
        entries_fit(st0, es, n),
        0 <= k <= es.len(),
        st0.slots.len() + es.len() <= u32::MAX,
    ensures
        writing(write_entries(st0, es.take(k), stamp), st0, es, k),
    decreases k,
{
    if k == 0 {
        assert(es.take(0).len() == 0);
    } else {
        lemma_write_entries(st0, es, k - 1, n, stamp);
        assert(es.take(k).drop_last() =~= es.take(k - 1));
        assert(es.take(k).last() == es[k - 1]);
        lemma_write_entry(
            write_entries(st0, es.take(k - 1), stamp),
            st0,
            es,
            k - 1,
            n,
            stamp,
        );
    }
}

/// Written keys name existing bodies if all old keys and all entries do.
proof fn lemma_write_keys(st0: WarmState, es: Seq<WarmOutEntry>, k: int, n: int, stamp: u32)
    requires
        st0.sound(),
        st0.slots.len() + es.len() <= u32::MAX,
        entries_fit(st0, es, n),
        st0.keys_below(n),
        0 <= k <= es.len(),
    ensures
        write_entries(st0, es.take(k), stamp).keys_below(n),
    decreases k,
{
    if k == 0 {
        assert(es.take(0).len() == 0);
    } else {
        lemma_write_keys(st0, es, k - 1, n, stamp);
        lemma_write_entries(st0, es, k - 1, n, stamp);
        assert(es.take(k).drop_last() =~= es.take(k - 1));
        assert(es.take(k).last() == es[k - 1]);
        let st = write_entries(st0, es.take(k - 1), stamp);
        let t = write_entries(st0, es.take(k), stamp);
        assert(t == write_entry(st, es[k - 1], stamp));
        assert(st.free.len() > 0 ==> st.free[st.free.len() - 1] == st.free.last());
        assert forall|s: int| 0 <= s < t.slots.len() && (#[trigger] t.slots[s]).key.a
            != NONE implies t.slots[s].key.a < n && t.slots[s].key.b < n by {
            if s < st.slots.len() && t.slots[s] == st.slots[s] {
                assert(st.slots[s].key.a != NONE);
            } else {
                assert(t.slots[s].key == es[k - 1].key);
            }
        }
    }
}

/// Freeing slots keeps the cache sound and leaves later slots alone.
proof fn lemma_prune_slots(st: WarmState, k: nat, awake: Seq<bool>, stamp: u32)
    requires
        st.sound(),
        k <= st.slots.len(),
    ensures
        prune_slots(st, k, awake, stamp).sound(),
        prune_slots(st, k, awake, stamp).slots.len() == st.slots.len(),
        forall|s: int|
            k <= s < st.slots.len() ==> #[trigger] prune_slots(st, k, awake, stamp).slots[s]
                == st.slots[s],
        forall|s: int|
            0 <= s < k ==> #[trigger] prune_slots(st, k, awake, stamp).slots[s] == (if stale(
                st.slots[s],
                awake,
                stamp,
            ) {
                WarmSlot { key: WarmKey::dead_spec(), value: st.slots[s].value }
            } else {
                st.slots[s]
            }),
    decreases k,
{
    if k > 0 {
        lemma_prune_slots(st, (k - 1) as nat, awake, stamp);
        lemma_prune_slot_sound(
            prune_slots(st, (k - 1) as nat, awake, stamp),
            k - 1,
            awake,
            stamp,
        );
    }
}

/// The lists below a bound only grow with it.
proof fn lemma_joined_len(outs: Seq<Vec<WarmOutEntry>>, j: int, k: int)
    requires
        0 <= j <= k,
    ensures
        joined(outs, j).len() <= joined(outs, k).len(),
        forall|i: int|
            0 <= i < joined(outs, j).len() ==> #[trigger] joined(outs, k)[i] == joined(outs, j)[i],
    decreases k - j,
{
    if j < k {
        lemma_joined_len(outs, j, k - 1);
    }
}

impl WarmTable {
    /// An empty cache.
    pub fn new() -> (r: WarmTable)
        ensures
            r@.slots.len() == 0,
            r@.free.len() == 0,
            r@.index == Map::<u128, u32>::empty(),
            r.stamp == 0,
            r@.sound(),
            r@.complete(),
    {
        WarmTable { slots: Vec::new(), free: Vec::new(), index: HashMap::new(), stamp: 0 }
    }

    /// The slot that the key leads to, or `NONE`.
    pub fn lookup(&self, key: WarmKey) -> (slot: u32)
        requires
            self@.sound(),
        ensures
            slot == if self@.has(key) {
                self@.index[key.packed_spec()]
            } else {
                NONE
            },
            slot != NONE <==> self@.has(key),
            slot != NONE ==> slot < self@.slots.len() && self@.slots[slot as int].key == key,
    {
        broadcast use vstd::std_specs::hash::group_hash_axioms;

        let p: u128 = key.packed();
        match self.index.get(&p) {
            Some(s) => {
                proof {
                    packing_tells_keys_apart(self@.slots[*s as int].key, key);
                }
                *s
            },
            None => NONE,
        }
    }

    /// Writes one entry with the current stamp.
    fn write(&mut self, e: &WarmOutEntry)
        requires
            old(self)@.sound(),
            old(self)@.slots.len() < u32::MAX,
            e.slot != NONE ==> e.slot < old(self)@.slots.len(),
        ensures
            final(self)@ == write_entry(old(self)@, *e, old(self).stamp),
            final(self).stamp == old(self).stamp,
    {
        broadcast use vstd::std_specs::hash::group_hash_axioms;

        let mut value = e.value;
        value.seen = self.stamp;
        let slot = WarmSlot { key: e.key, value };
        if e.slot != NONE {
            self.slots.set(e.slot as usize, slot);
        } else {
            match self.free.pop() {
                Some(f) => {
                    assert(old(self)@.free[old(self)@.free.len() - 1] == f);
                    self.slots.set(f as usize, slot);
                    self.index.insert(e.key.packed(), f);
                },
                None => {
                    let f: u32 = self.slots.len() as u32;
                    self.slots.push(slot);
                    self.index.insert(e.key.packed(), f);
                },
            }
        }
    }

    /// Frees slot `i` if it is stale.
    fn prune(&mut self, i: usize, awake: &Vec<bool>)
        requires
            i < old(self)@.slots.len(),
            old(self)@.slots.len() <= u32::MAX,
            old(self)@.slots[i as int].key.a != NONE ==> old(self)@.slots[i as int].key.a
                < awake@.len() && old(self)@.slots[i as int].key.b < awake@.len(),
        ensures
            final(self)@ == prune_slot(old(self)@, i as int, awake@, old(self).stamp),
            final(self).stamp == old(self).stamp,
    {
        broadcast use vstd::std_specs::hash::group_hash_axioms;

        let slot = self.slots[i];
        if slot.key.a == NONE {
            return;
        }
        let both_awake: bool = awake[slot.key.a as usize] && awake[slot.key.b as usize];
        if slot.value.seen != self.stamp && both_awake {
            self.index.remove(&slot.key.packed());
            self.slots.set(i, WarmSlot { key: WarmKey::dead(), value: slot.value });
            self.free.push(i as u32);
        }
    }

    /// Takes over what a solve hands back, under a new stamp, and frees what is
    /// stale. Without any manifold the cache is emptied.
    pub fn commit_warm_slots(
        &mut self,
        outs: &Vec<Vec<WarmOutEntry>>,
        any_manifold: bool,
        awake: &Vec<bool>,
    )
        requires
            old(self)@.sound(),
            old(self)@.keys_below(awake@.len() as int),
            entries_fit(old(self)@, joined(outs@, outs@.len() as int), awake@.len() as int),
            old(self)@.slots.len() + joined(outs@, outs@.len() as int).len() <= u32::MAX,
        ensures
            final(self).stamp == (if old(self).stamp == u32::MAX {
                0
            } else {
                (old(self).stamp + 1) as u32
            }),
            final(self)@ == commit_spec(
                old(self)@,
                joined(outs@, outs@.len() as int),
                any_manifold,
                awake@,
                final(self).stamp,
            ),
            final(self)@.sound(),
            final(self)@.keys_below(awake@.len() as int),
    {
        let ghost st0 = self@;
        let ghost es = joined(outs@, outs@.len() as int);
        let ghost n = awake@.len() as int;
        let stamp: u32 = self.stamp.wrapping_add(1);
        self.stamp = stamp;
        let ghost mut done: int = 0;
        proof {
            assert(es.take(0) =~= Seq::<WarmOutEntry>::empty());
        }
        let mut g: usize = 0;
        while g < outs.len()
            invariant
                g <= outs@.len(),
                st0.sound(),
                es == joined(outs@, outs@.len() as int),
                entries_fit(st0, es, n),
                st0.slots.len() + es.len() <= u32::MAX,
                self.stamp == stamp,
                done == joined(outs@, g as int).len(),
                done <= es.len(),
                self@ == write_entries(st0, es.take(done), stamp),
            decreases outs@.len() - g,
        {
            let ghost base = done;
            proof {
                lemma_joined_len(outs@, (g + 1) as int, outs@.len() as int);
            }
            let m: usize = outs[g].len();
            let mut i: usize = 0;
            while i < m
                invariant
                    g < outs@.len(),
                    m == outs@[g as int]@.len(),
                    i <= m,
                    st0.sound(),
                    entries_fit(st0, es, n),
                    st0.slots.len() + es.len() <= u32::MAX,
                    self.stamp == stamp,
                    base == joined(outs@, g as int).len(),
                    base + m <= es.len(),
                    forall|q: int|
                        0 <= q < joined(outs@, (g + 1) as int).len() ==> #[trigger] es[q] == joined(
                            outs@,
                            (g + 1) as int,
                        )[q],
                    done == base + i,
                    self@ == write_entries(st0, es.take(done), stamp),
                decreases m - i,
            {
                let e = outs[g][i];
                proof {
                    assert(joined(outs@, (g + 1) as int)[done] == e);
                    assert(es[done] == e);
                    lemma_write_entries(st0, es, done, n, stamp);
                    assert(es.take(done + 1).drop_last() =~= es.take(done));
                    assert(es.take(done + 1).last() == e);
                }
                self.write(&e);
                proof {
                    done = done + 1;
                }
                i += 1;
            }
            g += 1;
        }
        proof {
            assert(es.take(done) =~= es);
            lemma_write_entries(st0, es, es.len() as int, n, stamp);
            lemma_write_keys(st0, es, es.len() as int, n, stamp);
            assert(es.take(es.len() as int) =~= es);
        }
        if !any_manifold {
            self.slots.clear();
            self.free.clear();
            self.index.clear();
            proof {
                assert(self@.slots =~= Seq::<WarmSlot>::empty());
                assert(self@.free =~= Seq::<u32>::empty());
            }
        } else {
            let ghost st1 = self@;
            let total: usize = self.slots.len();
            let mut i: usize = 0;
            while i < total
                invariant
                    i <= total,
                    total == st1.slots.len(),
                    st1.sound(),
                    st1.keys_below(n),
                    n == awake@.len(),
                    self.stamp == stamp,
                    self@ == prune_slots(st1, i as nat, awake@, stamp),
                decreases total - i,
            {
                proof {
                    lemma_prune_slots(st1, i as nat, awake@, stamp);
                    assert(self@.slots[i as int] == st1.slots[i as int]);
                }
                self.prune(i, awake);
                i += 1;
            }
            proof {
                lemma_prune_slots(st1, total as nat, awake@, stamp);
                let t = self@;
                assert forall|s: int| 0 <= s < t.slots.len() && (#[trigger] t.slots[s]).key.a
                    != NONE implies t.slots[s].key.a < n && t.slots[s].key.b < n by {
                    assert(st1.slots[s].key.a != NONE);
                }
            }
        }
    }
}

/// No two entries carry the same key.
pub open spec fn distinct_keys(es: Seq<WarmOutEntry>) -> bool {
    forall|i: int, j: int|
        0 <= i < j < es.len() ==> (#[trigger] es[i]).key != (#[trigger] es[j]).key
}

/// One of the entries carries the key.
pub open spec fn solved(es: Seq<WarmOutEntry>, key: WarmKey) -> bool {
    exists|i: int| 0 <= i < es.len() && (#[trigger] es[i]).key == key
}

/// After writing entries with distinct keys the cache is complete, and holds the
/// entries on top of what it held.
proof fn lemma_written(st0: WarmState, es: Seq<WarmOutEntry>, k: int, n: int, stamp: u32)
    requires
        st0.sound(),
        st0.complete(),
        entries_fit(st0, es, n),
        distinct_keys(es),
        0 <= k <= es.len(),
        st0.slots.len() + es.len() <= u32::MAX,
    ensures
        ({
            let st = write_entries(st0, es.take(k), stamp);
            &&& st.sound()
            &&& st.complete()
            &&& forall|key: WarmKey| #[trigger] st.has(key) <==> st0.has(key) || solved(es.take(k), key)
            &&& forall|i: int|
                0 <= i < k ==> st.at((#[trigger] es[i]).key) == stamped(es[i].value, stamp)
            &&& forall|key: WarmKey|
                st0.has(key) && !solved(es.take(k), key) ==> #[trigger] st.at(key) == st0.at(key)
        }),
    decreases k,
{
    lemma_write_entries(st0, es, k, n, stamp);
    if k == 0 {
        assert(es.take(0).len() == 0);
    } else {
        lemma_written(st0, es, k - 1, n, stamp);
        lemma_write_entries(st0, es, k - 1, n, stamp);
        let es1 = es.take(k - 1);
        let es2 = es.take(k);
        assert(es2.drop_last() =~= es1);
        assert(es2.last() == es[k - 1]);
        let st = write_entries(st0, es1, stamp);
        let t = write_entries(st0, es2, stamp);
        let e = es[k - 1];
        assert(t == write_entry(st, e, stamp));
        let f = if e.slot != NONE {
            e.slot
        } else if st.free.len() > 0 {
            st.free.last()
        } else {
            st.slots.len() as u32
        };
        assert(st.free.len() > 0 ==> st.free[st.free.len() - 1] == st.free.last());
        assert(!solved(es1, e.key)) by {
            if solved(es1, e.key) {
                let i = choose|i: int| 0 <= i < es1.len() && (#[trigger] es1[i]).key == e.key;
                assert(es[i].key == e.key);
            }
        }
        assert forall|key: WarmKey| solved(es2, key) <==> solved(es1, key) || key == e.key by {
            if solved(es2, key) {
                let i = choose|i: int| 0 <= i < es2.len() && (#[trigger] es2[i]).key == key;
                if i < k - 1 {
                    assert(es1[i].key == key);
                }
            }
            if solved(es1, key) {
                let i = choose|i: int| 0 <= i < es1.len() && (#[trigger] es1[i]).key == key;
                assert(es2[i].key == key);
            }
            if key == e.key {
                assert(es2[k - 1].key == key);
            }
        }
        assert(t.slots[f as int] == WarmSlot { key: e.key, value: stamped(e.value, stamp) });
        assert(t.has(e.key) && t.index[e.key.packed_spec()] == f);
        assert forall|key: WarmKey| key != e.key implies t.has(key) == st.has(key) && (st.has(key)
            ==> t.index[key.packed_spec()] == st.index[key.packed_spec()]) by {
            packing_tells_keys_apart(key, e.key);
        }
        assert forall|key: WarmKey| key != e.key && st.has(key) implies t.at(key) == st.at(key) by {
            packing_tells_keys_apart(key, e.key);
            let s = st.index[key.packed_spec()];
            packing_tells_keys_apart(st.slots[s as int].key, key);
            assert(st.slots[s as int].key == key);
            if e.slot != NONE {
                assert(st.slots[e.slot as int].key.packed_spec() == e.key.packed_spec());
                packing_tells_keys_apart(st.slots[e.slot as int].key, e.key);
            }
            assert(s != f);
        }
        assert forall|key: WarmKey| #[trigger] t.has(key) <==> st0.has(key) || solved(es2, key) by {
            assert(st.has(key) <==> st0.has(key) || solved(es1, key));
        }
        assert forall|i: int| 0 <= i < k implies t.at((#[trigger] es[i]).key) == stamped(
            es[i].value,
            stamp,
        ) by {
            if i < k - 1 {
                assert(es1[i].key == es[i].key);
                assert(solved(es1, es[i].key));
                assert(st.has(es[i].key));
                assert(es[i].key != es[k - 1].key);
            }
        }
        assert forall|key: WarmKey| st0.has(key) && !solved(es2, key) implies #[trigger] t.at(key)
            == st0.at(key) by {
            assert(st.has(key));
            assert(st.at(key) == st0.at(key));
        }
        assert forall|s: int| 0 <= s < t.slots.len() && (#[trigger] t.slots[s]).key.a
            != NONE implies t.index.contains_key(t.slots[s].key.packed_spec())
            && t.index[t.slots[s].key.packed_spec()] == s by {
            if s != f {
                assert(t.slots[s] == st.slots[s]);
                let key = st.slots[s].key;
                assert(st.index[key.packed_spec()] == s);
                if key == e.key {
                    assert(st.has(e.key));
                    assert(st0.has(e.key));
                    assert(e.slot != NONE);
                    assert(st.index[e.key.packed_spec()] == e.slot);
                } else {
                    packing_tells_keys_apart(key, e.key);
                }
            }
        }
    }
}

/// Freeing stale slots of a complete cache removes exactly their keys.
proof fn lemma_pruned(st: WarmState, k: nat, awake: Seq<bool>, stamp: u32)
    requires
        st.sound(),
        st.complete(),
        k <= st.slots.len(),
    ensures
        ({
            let t = prune_slots(st, k, awake, stamp);
            &&& t.sound()
            &&& t.complete()
            &&& forall|p: u128| #[trigger]
                t.index.contains_key(p) <==> st.index.contains_key(p) && !(st.index[p] < k && stale(
                    st.slots[st.index[p] as int],
                    awake,
                    stamp,
                ))
            &&& forall|p: u128| #[trigger]
                t.index.contains_key(p) ==> t.index[p] == st.index[p] && t.slots[t.index[p] as int]
                    == st.slots[st.index[p] as int]
        }),
    decreases k,
{
    lemma_prune_slots(st, k, awake, stamp);
    if k > 0 {
        let j = (k - 1) as nat;
        lemma_pruned(st, j, awake, stamp);
        lemma_prune_slots(st, j, awake, stamp);
        let u = prune_slots(st, j, awake, stamp);
        let t = prune_slots(st, k, awake, stamp);
        assert(u.slots[j as int] == st.slots[j as int]);
        let pj = st.slots[j as int].key.packed_spec();
        if stale(st.slots[j as int], awake, stamp) {
            assert(st.index.contains_key(pj) && st.index[pj] == j);
            assert forall|p: u128| #[trigger] t.index.contains_key(p) <==> st.index.contains_key(p)
                && !(st.index[p] < k && stale(st.slots[st.index[p] as int], awake, stamp)) by {
                assert(t.index.contains_key(p) <==> u.index.contains_key(p) && p != pj);
                if st.index.contains_key(p) && st.index[p] == j {
                    assert(st.slots[j as int].key.packed_spec() == p);
                }
            }
            assert forall|s: int| 0 <= s < t.slots.len() && (#[trigger] t.slots[s]).key.a
                != NONE implies t.index.contains_key(t.slots[s].key.packed_spec())
                && t.index[t.slots[s].key.packed_spec()] == s by {
                assert(s != j);
                assert(t.slots[s] == u.slots[s]);
                if u.slots[s].key.packed_spec() == pj {
                    assert(u.index[pj] == s);
                    assert(u.index.contains_key(pj));
                    assert(u.index[pj] == st.index[pj]);
                }
            }
        } else {
            assert(t == u);
            assert forall|p: u128| #[trigger] t.index.contains_key(p) <==> st.index.contains_key(p)
                && !(st.index[p] < k && stale(st.slots[st.index[p] as int], awake, stamp)) by {
                assert(u.index.contains_key(p) <==> st.index.contains_key(p) && !(st.index[p] < j
                    && stale(st.slots[st.index[p] as int], awake, stamp)));
            }
        }
    }
}

/// After a solve the cache holds what was solved, under the new stamp, and of
/// what it held before exactly the keys with a sleeping body: their contacts
/// were not looked at and cannot have gone. (A key written exactly one round of
/// the stamp ago also stays.) A cache in which every slot is reachable stays so.
pub proof fn commit_keeps_what_may_be_needed(
    st: WarmState,
    es: Seq<WarmOutEntry>,
    awake: Seq<bool>,
    stamp: u32,
    key: WarmKey,
)
    requires
        st.sound(),
        st.complete(),
        st.keys_below(awake.len() as int),
        entries_fit(st, es, awake.len() as int),
        distinct_keys(es),
        st.slots.len() + es.len() <= u32::MAX,
    ensures
        ({
            let t = commit_spec(st, es, true, awake, stamp);
            &&& t.sound()
            &&& t.complete()
            &&& t.has(key) <==> solved(es, key) || (st.has(key) && !(awake[key.a as int]
                && awake[key.b as int] && st.at(key).seen != stamp))
            &&& forall|i: int|
                0 <= i < es.len() && (#[trigger] es[i]).key == key ==> t.at(key) == stamped(
                    es[i].value,
                    stamp,
                )
            &&& t.has(key) && !solved(es, key) ==> t.at(key) == st.at(key)
        }),
{
    let n = awake.len() as int;
    lemma_written(st, es, es.len() as int, n, stamp);
    assert(es.take(es.len() as int) =~= es);
    let w = write_entries(st, es, stamp);
    lemma_pruned(w, w.slots.len(), awake, stamp);
    let t = commit_spec(st, es, true, awake, stamp);
    let p = key.packed_spec();
    if w.has(key) {
        packing_tells_keys_apart(w.slots[w.index[p] as int].key, key);
    }
    if st.has(key) {
        packing_tells_keys_apart(st.slots[st.index[p] as int].key, key);
    }
    if solved(es, key) {
        let i = choose|i: int| 0 <= i < es.len() && (#[trigger] es[i]).key == key;
        assert(w.at(es[i].key) == stamped(es[i].value, stamp));
        assert(t.has(key));
        assert(t.at(key) == w.at(key));
        assert forall|j: int| 0 <= j < es.len() && (#[trigger] es[j]).key == key implies t.at(key)
            == stamped(es[j].value, stamp) by {
            assert(w.at(es[j].key) == stamped(es[j].value, stamp));
        }
    } else {
        assert forall|j: int| 0 <= j < es.len() && (#[trigger] es[j]).key == key implies t.at(key)
            == stamped(es[j].value, stamp) by {
            assert(solved(es, key));
        }
        if st.has(key) {
            assert(w.at(key) == st.at(key));
        }
    }
}

} // verus!
