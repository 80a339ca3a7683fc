//! What comparing runs and counting promises.

use crate::body::BodySet;
use crate::constraint::{count_point, match_warm_point, WarmCandidate, WarmMatch};
use crate::replay::{
    body_bytes, bodies_bytes, fnv_from, le32, le64, quat_bytes, state_bytes, vec3_bytes, Fnv1aHash,
    Hasher, Recorder, StateHash,
};
use crate::scalar::{Scalar, Vec3};
use crate::sleep::count_wait_ms;
use crate::stats::Counters;
use vstd::prelude::*;

verus! {

/// The hash of bytes from a value on: byte after byte, mixed in and multiplied.
pub open spec fn hashed(h: u64, bytes: Seq<u8>) -> u64 {
    bytes.fold_left(
        h,
        |h: u64, b: u8| (((h ^ (b as u64)) * 0x100_0000_01b3) % 0x1_0000_0000_0000_0000) as u64,
    )
}

proof fn lemma_hashed(h: u64, bytes: Seq<u8>)
    ensures
        fnv_from(h, bytes) == hashed(h, bytes),
    decreases bytes.len(),
{
    if bytes.len() > 0 {
        lemma_hashed(h, bytes.drop_last());
    }
}

/// A hash starts from the offset and takes every byte in; a value counts as its four
/// bytes, the lowest first, and a vector as its three values.
pub proof fn every_byte_is_hashed(
    fresh: Hasher,
    a: &mut Hasher,
    bytes: &[u8],
    b: &mut Hasher,
    v: Scalar,
    c: &mut Hasher,
    p: Vec3,
    r: u64,
)
    requires
        call_ensures(Hasher::new, (), fresh),
        call_ensures(Hasher::push, (a, bytes), ()),
        call_ensures(Hasher::push_scalar, (b, v), ()),
        call_ensures(Hasher::push_vec3, (c, p), ()),
        call_ensures(Hasher::finish, (*final(c),), r),
    ensures
        fresh.value() == 0xcbf2_9ce4_8422_2325,
        final(a).value() == hashed(old(a).value(), bytes@),
        final(b).value() == hashed(old(b).value(), word_bytes(v.bits)),
        r == hashed(
            old(c).value(),
            word_bytes(p.x.bits) + word_bytes(p.y.bits) + word_bytes(p.z.bits),
        ),
{
    lemma_hashed(old(a).value(), bytes@);
    lemma_hashed(old(b).value(), le32(v.bits));
    lemma_hashed(old(c).value(), vec3_bytes(p));
    assert(le32(v.bits) =~= word_bytes(v.bits));
    assert(le32(p.x.bits) =~= word_bytes(p.x.bits));
    assert(le32(p.y.bits) =~= word_bytes(p.y.bits));
    assert(le32(p.z.bits) =~= word_bytes(p.z.bits));
}

/// The four bytes of a word, the lowest first.
pub open spec fn word_bytes(v: u32) -> Seq<u8> {
    Seq::new(
        4,
        |j: int|
            if j == 0 {
                (v % 256) as u8
            } else if j == 1 {
                ((v / 256) % 256) as u8
            } else if j == 2 {
                ((v / 65536) % 256) as u8
            } else {
                (v / 16777216) as u8
            },
    )
}

/// Word `k` of a body: position, rotation, velocity and spin, value after value.
pub open spec fn body_word(bodies: &BodySet, i: int, k: int) -> u32 {
    let (p, q, v, w) = (
        bodies.position@[i],
        bodies.rotation@[i],
        bodies.linvel@[i],
        bodies.angvel@[i],
    );
    if k == 0 {
        p.x.bits
    } else if k == 1 {
        p.y.bits
    } else if k == 2 {
        p.z.bits
    } else if k == 3 {
        q.x.bits
    } else if k == 4 {
        q.y.bits
    } else if k == 5 {
        q.z.bits
    } else if k == 6 {
        q.w.bits
    } else if k == 7 {
        v.x.bits
    } else if k == 8 {
        v.y.bits
    } else if k == 9 {
        v.z.bits
    } else if k == 10 {
        w.x.bits
    } else if k == 11 {
        w.y.bits
    } else {
        w.z.bits
    }
}

/// The bytes of a body: whether it is dynamic, and its thirteen words.
pub open spec fn body_record(bodies: &BodySet, i: int) -> Seq<u8> {
    Seq::new(
        53,
        |j: int|
            if j == 0 {
                if bodies.dynamic@[i] {
                    1u8
                } else {
                    0u8
                }
            } else {
                word_bytes(body_word(bodies, i, (j - 1) / 4))[(j - 1) % 4]
            },
    )
}

proof fn lemma_body(bodies: &BodySet, i: int)
    ensures
        body_bytes(bodies, i) == body_record(bodies, i),
{
    let (p, q, v, w) = (
        bodies.position@[i],
        bodies.rotation@[i],
        bodies.linvel@[i],
        bodies.angvel@[i],
    );
    assert(vec3_bytes(p).len() == 12 && quat_bytes(q).len() == 16);
    assert(body_bytes(bodies, i).len() == 53);
    assert forall|j: int| 0 <= j < 53 implies body_bytes(bodies, i)[j] == #[trigger] body_record(
        bodies,
        i,
    )[j] by {
        if j > 0 {
            let k = (j - 1) / 4;
            let m = (j - 1) % 4;
            assert(j - 1 == 4 * k + m && 0 <= m < 4 && 0 <= k < 13);
            if k < 3 {
                assert(body_bytes(bodies, i)[j] == vec3_bytes(p)[j - 1]);
            } else if k < 7 {
                assert(body_bytes(bodies, i)[j] == quat_bytes(q)[j - 13]);
            } else if k < 10 {
                assert(body_bytes(bodies, i)[j] == vec3_bytes(v)[j - 29]);
            } else {
                assert(body_bytes(bodies, i)[j] == vec3_bytes(w)[j - 41]);
            }
        }
    }
    assert(body_bytes(bodies, i) =~= body_record(bodies, i));
}

proof fn lemma_records(bodies: &BodySet, n: int)
    requires
        n >= 0,
    ensures
        bodies_bytes(bodies, n) == Seq::new(n as nat, |i: int| body_record(bodies, i)).flatten(),
    decreases n,
{
    if n > 0 {
        lemma_records(bodies, n - 1);
        lemma_body(bodies, n - 1);
        let f = |i: int| body_record(bodies, i);
        let before = Seq::new((n - 1) as nat, f);
        before.lemma_flatten_push(f(n - 1));
        assert(Seq::new(n as nat, f) =~= before.push(f(n - 1)));
    }
}

/// The hash of a scene is that of the number of its bodies, in eight bytes, and of the
/// record of every body in order.
pub proof fn scenes_hash_every_body(hasher: &Fnv1aHash, bodies: &BodySet)
    requires
        bodies.wf(),
    ensures
        hasher.hash_of(bodies) == hashed(
            0xcbf2_9ce4_8422_2325,
            word_bytes(bodies.dynamic@.len() as u32) + word_bytes(0) + Seq::new(
                bodies.dynamic@.len(),
                |i: int| body_record(bodies, i),
            ).flatten(),
        ),
{
    let n = bodies.count() as int;
    lemma_records(bodies, n);
    lemma_hashed(0xcbf2_9ce4_8422_2325, state_bytes(bodies));
    assert(n as u64 / 0x1_0000_0000 == 0);
    assert(le32(n as u32) =~= word_bytes(n as u32));
    assert(le32(0) =~= word_bytes(0));
    assert(le64(n as u64) == le32(n as u32) + le32(0));
}

/// A recorder keeps a hash exactly at every tick that its period divides, in order, a
/// period of zero counting as one; two of them match exactly if they kept the same.
pub proof fn recorders_keep_every_period(
    rec: &mut Recorder,
    tick: u64,
    hash: u64,
    other: &Recorder,
    same: bool,
)
    requires
        call_ensures(Recorder::observe, (rec, tick, hash), ()),
        call_ensures(Recorder::matches, (&*final(rec), other), same),
    ensures
        final(rec).period == old(rec).period,
        old(rec).period <= 1 || tick % old(rec).period == 0 ==> final(rec).hashes@ == old(rec).hashes@.push((tick, hash)),
        old(rec).period > 1 && tick % old(rec).period != 0 ==> final(rec).hashes@ == old(rec).hashes@,
        same <==> final(rec).hashes@ == other.hashes@,
{
}

/// Adding counters adds every one of them, and keeps the longer of the longest waits.
pub proof fn counters_add_up(c: &mut Counters, d: &Counters)
    requires
        call_ensures(Counters::merge, (c, d), ()),
    ensures
        final(c).sleep_wait_max_ms >= old(c).sleep_wait_max_ms,
        final(c).sleep_wait_max_ms >= d.sleep_wait_max_ms,
        final(c).sleep_wait_max_ms == old(c).sleep_wait_max_ms || final(c).sleep_wait_max_ms
            == d.sleep_wait_max_ms,
        final(c).sleep_fast == (old(c).sleep_fast + d.sleep_fast) % 0x1_0000_0000_0000_0000,
        final(c).sleep_wait == (old(c).sleep_wait + d.sleep_wait) % 0x1_0000_0000_0000_0000,
        final(c).sleep_slept == (old(c).sleep_slept + d.sleep_slept) % 0x1_0000_0000_0000_0000,
        final(c).sleep_fast_body == (old(c).sleep_fast_body + d.sleep_fast_body)
            % 0x1_0000_0000_0000_0000,
        final(c).sleep_body_all == (old(c).sleep_body_all + d.sleep_body_all)
            % 0x1_0000_0000_0000_0000,
        final(c).normal_flip == (old(c).normal_flip + d.normal_flip) % 0x1_0000_0000_0000_0000,
        final(c).normal_same == (old(c).normal_same + d.normal_same) % 0x1_0000_0000_0000_0000,
        final(c).fallback_side == (old(c).fallback_side + d.fallback_side) % 0x1_0000_0000_0000_0000,
        final(c).fallback_clip == (old(c).fallback_clip + d.fallback_clip) % 0x1_0000_0000_0000_0000,
        final(c).fallback_hash == (old(c).fallback_hash + d.fallback_hash) % 0x1_0000_0000_0000_0000,
        final(c).fallback_same == (old(c).fallback_same + d.fallback_same) % 0x1_0000_0000_0000_0000,
        final(c).warm_exact == (old(c).warm_exact + d.warm_exact) % 0x1_0000_0000_0000_0000,
        final(c).warm_fallback == (old(c).warm_fallback + d.warm_fallback) % 0x1_0000_0000_0000_0000,
        final(c).warm_miss == (old(c).warm_miss + d.warm_miss) % 0x1_0000_0000_0000_0000,
        final(c).points == (old(c).points + d.points) % 0x1_0000_0000_0000_0000,
        final(c).separated == (old(c).separated + d.separated) % 0x1_0000_0000_0000_0000,
        final(c).closing_milli == (old(c).closing_milli + d.closing_milli) % 0x1_0000_0000_0000_0000,
        final(c).bias_milli == (old(c).bias_milli + d.bias_milli) % 0x1_0000_0000_0000_0000,
{
}

/// Every lookup of a cached point is counted once: by feature, by distance or as a miss;
/// none if nothing could be looked up. A match by distance also tells whether the normal
/// was kept and how its feature differs: by its side, else by its kind, else by its
/// name, else not at all.
pub proof fn lookups_are_counted_once(
    feature: u32,
    cands: &[WarmCandidate],
    aligned: bool,
    kept: bool,
    c: &mut Counters,
    r: WarmMatch,
)
    requires
        call_ensures(match_warm_point, (feature, cands, aligned, kept, c), r),
    ensures
        final(c).warm_exact == (old(c).warm_exact + if r is Exact {
            1int
        } else {
            0
        }) % 0x1_0000_0000_0000_0000,
        final(c).warm_fallback == (old(c).warm_fallback + if r is Fallback {
            1int
        } else {
            0
        }) % 0x1_0000_0000_0000_0000,
        final(c).warm_miss == (old(c).warm_miss + if r is Miss {
            1int
        } else {
            0
        }) % 0x1_0000_0000_0000_0000,
        r is Unaligned <==> !aligned || cands@.len() == 0,
        final(c).normal_same == (old(c).normal_same + if r is Fallback && kept {
            1int
        } else {
            0
        }) % 0x1_0000_0000_0000_0000,
        final(c).normal_flip == (old(c).normal_flip + if r is Fallback && !kept {
            1int
        } else {
            0
        }) % 0x1_0000_0000_0000_0000,
        r matches WarmMatch::Fallback(k) ==> {
            let was = cands@[k as int].feature;
            let side = (feature & 0x8000_0000 != 0) != (was & 0x8000_0000 != 0);
            let kind = (feature & 0x4000_0000 != 0) != (was & 0x4000_0000 != 0);
            let name = feature & 0x3fff_ffff != was & 0x3fff_ffff;
            &&& final(c).fallback_side == (old(c).fallback_side + if side {
                1int
            } else {
                0
            }) % 0x1_0000_0000_0000_0000
            &&& final(c).fallback_clip == (old(c).fallback_clip + if !side && kind {
                1int
            } else {
                0
            }) % 0x1_0000_0000_0000_0000
            &&& final(c).fallback_hash == (old(c).fallback_hash + if !side && !kind && name {
                1int
            } else {
                0
            }) % 0x1_0000_0000_0000_0000
            &&& final(c).fallback_same == (old(c).fallback_same + if !side && !kind && !name {
                1int
            } else {
                0
            }) % 0x1_0000_0000_0000_0000
        },
        final(c).points == old(c).points,
        final(c).sleep_fast == old(c).sleep_fast,
{
}

/// Every prepared point is counted, the separated ones again, and their speeds add up;
/// the longest wait is kept.
pub proof fn points_are_counted_once(
    c: &mut Counters,
    depth: Scalar,
    closing: u64,
    bias: u64,
    d: &mut Counters,
    ms: u64,
)
    requires
        call_ensures(count_point, (c, depth, closing, bias), ()),
        call_ensures(count_wait_ms, (d, ms), ()),
    ensures
        final(c).points == (old(c).points + 1) % 0x1_0000_0000_0000_0000,
        final(c).separated == (old(c).separated + if 0x8000_0000 < depth.bits <= 0xff80_0000 {
            1int
        } else {
            0
        }) % 0x1_0000_0000_0000_0000,
        final(c).closing_milli == (old(c).closing_milli + closing) % 0x1_0000_0000_0000_0000,
        final(c).bias_milli == (old(c).bias_milli + bias) % 0x1_0000_0000_0000_0000,
        final(c).warm_exact == old(c).warm_exact,
        final(d).sleep_wait_max_ms >= ms && final(d).sleep_wait_max_ms >= old(d).sleep_wait_max_ms,
        final(d).sleep_wait_max_ms == ms || final(d).sleep_wait_max_ms == old(d).sleep_wait_max_ms,
        final(d).sleep_wait == old(d).sleep_wait,
{
}

} // verus!
