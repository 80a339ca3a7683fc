//! Hashing the state of a scene, and recording hashes to compare two runs.

use crate::body::BodySet;
use crate::scalar::{Quat, Scalar, Vec3};
use vstd::arithmetic::div_mod::lemma_mul_mod_noop_left;
use vstd::prelude::*;

verus! {

/// Where the hash starts.
pub const FNV_OFFSET: u64 = 0xcbf2_9ce4_8422_2325;

/// The factor of every step.
pub const FNV_PRIME: u64 = 0x100_0000_01b3;

/// Two to the 64th.
pub open spec fn word() -> int {
    0x1_0000_0000_0000_0000
}

/// The hash after one more byte.
pub open spec fn fnv_step(h: u64, b: u8) -> u64 {
    (((h ^ (b as u64)) * FNV_PRIME) % 0x1_0000_0000_0000_0000) as u64
}

/// The hash after more bytes.
pub open spec fn fnv_from(h: u64, bytes: Seq<u8>) -> u64
    decreases bytes.len(),
{
    if bytes.len() == 0 {
        h
    } else {
        fnv_step(fnv_from(h, bytes.drop_last()), bytes.last())
    }
}

/// The hash of the bytes.
pub open spec fn fnv(bytes: Seq<u8>) -> u64 {
    fnv_from(FNV_OFFSET, bytes)
}

/// The four bytes of a number, lowest first.
pub open spec fn le32(v: u32) -> Seq<u8> {
    seq![
        (v % 256) as u8,
        ((v / 256) % 256) as u8,
        ((v / 65536) % 256) as u8,
        (v / 16777216) as u8,
    ]
}

/// The eight bytes of a number, lowest first.
pub open spec fn le64(v: u64) -> Seq<u8> {
    le32((v % 0x1_0000_0000) as u32) + le32((v / 0x1_0000_0000) as u32)
}

/// The bytes of a vector.
pub open spec fn vec3_bytes(v: Vec3) -> Seq<u8> {
    le32(v.x.bits) + le32(v.y.bits) + le32(v.z.bits)
}

/// The bytes of a rotation.
pub open spec fn quat_bytes(q: Quat) -> Seq<u8> {
    le32(q.x.bits) + le32(q.y.bits) + le32(q.z.bits) + le32(q.w.bits)
}

/// The bytes of a body: its kind, pose and velocities. Whether it sleeps is left
/// out.
pub open spec fn body_bytes(bodies: &BodySet, i: int) -> Seq<u8> {
    seq![
        if bodies.dynamic@[i] { 1u8 } else { 0u8 },
    ] + vec3_bytes(bodies.position@[i]) + quat_bytes(bodies.rotation@[i]) + vec3_bytes(
        bodies.linvel@[i],
    ) + vec3_bytes(bodies.angvel@[i])
}

/// The bytes of the first `n` bodies.
pub open spec fn bodies_bytes(bodies: &BodySet, n: int) -> Seq<u8>
    decreases n,
{
    if n <= 0 {
        Seq::empty()
    } else {
        bodies_bytes(bodies, n - 1) + body_bytes(bodies, n - 1)
    }
}

/// The bytes of a scene: how many bodies there are, then the bodies in order.
pub open spec fn state_bytes(bodies: &BodySet) -> Seq<u8> {
    le64(bodies.count() as u64) + bodies_bytes(bodies, bodies.count() as int)
}

/// The hash of bytes one after the other.
pub proof fn lemma_fnv_append(h: u64, x: Seq<u8>, y: Seq<u8>)
    ensures
        fnv_from(h, x + y) == fnv_from(fnv_from(h, x), y),
    decreases y.len(),
{
    if y.len() == 0 {
        assert(x + y =~= x);
    } else {
        lemma_fnv_append(h, x, y.drop_last());
        assert((x + y).drop_last() =~= x + y.drop_last());
        assert((x + y).last() == y.last());
    }
}

/// A running hash.
pub struct Hasher {
    state: u64,
}

impl Hasher {
    /// The hash so far.
    pub closed spec fn value(&self) -> u64 {
        self.state
    }

    /// The hash of no bytes.
    pub fn new() -> (r: Hasher)
        ensures
            r.value() == FNV_OFFSET,
    {
        Hasher { state: FNV_OFFSET }
    }

    /// Takes one byte in.
    fn push_byte(&mut self, b: u8)
        ensures
            final(self).value() == fnv_step(old(self).value(), b),
    {
        self.state = (self.state ^ (b as u64)).wrapping_mul(FNV_PRIME);
    }

    /// Takes bytes in.
    pub fn push(&mut self, bytes: &[u8])
        ensures
            final(self).value() == fnv_from(old(self).value(), bytes@),
    {
        let ghost start = self.value();
        let mut i: usize = 0;
        assert(bytes@.take(0) =~= Seq::<u8>::empty());
        while i < bytes.len()
            invariant
                i <= bytes@.len(),
                self.value() == fnv_from(start, bytes@.take(i as int)),
            decreases bytes@.len() - i,
        {
            proof {
                assert(bytes@.take(i + 1).drop_last() =~= bytes@.take(i as int));
                assert(bytes@.take(i + 1).last() == bytes@[i as int]);
            }
            self.push_byte(bytes[i]);
            i += 1;
        }
        assert(bytes@.take(i as int) =~= bytes@);
    }

    /// Takes the four bytes of a number in, lowest first.
    fn push_u32(&mut self, v: u32)
        ensures
            final(self).value() == fnv_from(old(self).value(), le32(v)),
    {
        let bytes: [u8; 4] = [
            (v % 256) as u8,
            ((v / 256) % 256) as u8,
            ((v / 65536) % 256) as u8,
            (v / 16777216) as u8,
        ];
        assert(bytes@ =~= le32(v));
        self.push(bytes.as_slice());
    }

    /// Takes the bit pattern of a value in, lowest byte first.
    pub fn push_scalar(&mut self, v: Scalar)
        ensures
            final(self).value() == fnv_from(old(self).value(), le32(v.bits)),
    {
        self.push_u32(v.bits);
    }

    /// Takes a vector in.
    pub fn push_vec3(&mut self, v: Vec3)
        ensures
            final(self).value() == fnv_from(old(self).value(), vec3_bytes(v)),
    {
        let ghost h = self.value();
        self.push_scalar(v.x);
        self.push_scalar(v.y);
        self.push_scalar(v.z);
        proof {
            lemma_fnv_append(h, le32(v.x.bits), le32(v.y.bits));
            lemma_fnv_append(h, le32(v.x.bits) + le32(v.y.bits), le32(v.z.bits));
        }
    }

    /// The hash.
    pub fn finish(self) -> (r: u64)
        ensures
            r == self.value(),
    {
        self.state
    }
}

/// A way to hash the state of a scene.
pub trait StateHash {
    /// The hash of a scene.
    spec fn hash_of(&self, bodies: &BodySet) -> u64;

    /// The hash of a scene.
    fn hash_bodies(&self, bodies: &BodySet) -> (r: u64)
        requires
            bodies.wf(),
        ensures
            r == self.hash_of(bodies),
    ;
}

/// The FNV-1a hash with 64 bits.
#[derive(Clone, Copy, Debug)]
pub struct Fnv1aHash;

impl StateHash for Fnv1aHash {
    open spec fn hash_of(&self, bodies: &BodySet) -> u64 {
        fnv(state_bytes(bodies))
    }

    fn hash_bodies(&self, bodies: &BodySet) -> (r: u64) {
        let mut h = Hasher::new();
        let n: usize = bodies.len();
        let count: u64 = n as u64;
        h.push_u32((count % 0x1_0000_0000) as u32);
        h.push_u32((count / 0x1_0000_0000) as u32);
        let ghost head = le64(count);
        proof {
            lemma_fnv_append(
                FNV_OFFSET,
                le32((count % 0x1_0000_0000) as u32),
                le32((count / 0x1_0000_0000) as u32),
            );
            assert(head + bodies_bytes(bodies, 0) =~= head);
        }
        let mut i: usize = 0;
        while i < n
            invariant
                bodies.wf(),
                n == bodies.count(),
                i <= n,
                h.value() == fnv(head + bodies_bytes(bodies, i as int)),
            decreases n - i,
        {
            let ghost h0 = h.value();
            let kind: [u8; 1] = [
                if bodies.dynamic[i] {
                    1u8
                } else {
                    0u8
                },
            ];
            let ghost k = kind@;
            assert(k =~= seq![if bodies.dynamic@[i as int] { 1u8 } else { 0u8 }]);
            h.push(kind.as_slice());
            h.push_vec3(bodies.position[i]);
            let q = bodies.rotation[i];
            h.push_scalar(q.x);
            h.push_scalar(q.y);
            h.push_scalar(q.z);
            h.push_scalar(q.w);
            h.push_vec3(bodies.linvel[i]);
            h.push_vec3(bodies.angvel[i]);
            proof {
                let p = vec3_bytes(bodies.position@[i as int]);
                let r = quat_bytes(q);
                let l = vec3_bytes(bodies.linvel@[i as int]);
                let a = vec3_bytes(bodies.angvel@[i as int]);
                lemma_fnv_append(h0, k, p);
                let h1 = fnv_from(h0, k + p);
                lemma_fnv_append(h1, le32(q.x.bits), le32(q.y.bits));
                lemma_fnv_append(h1, le32(q.x.bits) + le32(q.y.bits), le32(q.z.bits));
                lemma_fnv_append(
                    h1,
                    le32(q.x.bits) + le32(q.y.bits) + le32(q.z.bits),
                    le32(q.w.bits),
                );
                lemma_fnv_append(h0, k + p, r);
                lemma_fnv_append(h0, k + p + r, l);
                lemma_fnv_append(h0, k + p + r + l, a);
                let before = head + bodies_bytes(bodies, i as int);
                let body = body_bytes(bodies, i as int);
                assert(body == k + p + r + l + a);
                lemma_fnv_append(FNV_OFFSET, before, body);
                assert(head + bodies_bytes(bodies, i + 1) =~= before + body);
            }
            i += 1;
        }
        h.finish()
    }
}

/// The factor of a step has an inverse, so a step forgets nothing of the hash
/// before it.
proof fn lemma_step_injective(g: u64, h: u64, b: u8)
    ensures
        fnv_step(g, b) == fnv_step(h, b) ==> g == h,
{
    let (x, y) = (g ^ (b as u64), h ^ (b as u64));
    lemma_factor_injective(x, y);
    assert((g ^ (b as u64)) == (h ^ (b as u64)) ==> g == h) by (bit_vector);
}

/// Multiplying by the factor loses nothing.
proof fn lemma_factor_injective(x: u64, y: u64)
    ensures
        (x * FNV_PRIME) % word() == (y * FNV_PRIME) % word() ==> x == y,
{
    let inv: int = 0xce96_5057_aff6_957b;
    assert((FNV_PRIME * inv) % word() == 1);
    if (x * FNV_PRIME) % word() == (y * FNV_PRIME) % word() {
        lemma_undo(x, inv);
        lemma_undo(y, inv);
    }
}

proof fn lemma_undo(x: u64, inv: int)
    requires
        inv == 0xce96_5057_aff6_957b,
    ensures
        (((x * FNV_PRIME) % word()) * inv) % word() == x,
{
    lemma_mul_mod_noop_left(x * FNV_PRIME, inv, word());
    assert((x * FNV_PRIME) * inv == x * (FNV_PRIME * inv)) by (nonlinear_arith);
    let one = FNV_PRIME * inv;
    let q = one / word();
    assert(one == word() * q + 1);
    assert(x * one == word() * (x * q) + x) by (nonlinear_arith)
        requires
            one == word() * q + 1,
    ;
    vstd::arithmetic::div_mod::lemma_mod_multiples_vanish(x * q, x as int, word());
    vstd::arithmetic::div_mod::lemma_small_mod(x as nat, word() as nat);
}

/// The same bytes keep two hashes apart or together.
proof fn lemma_from_injective(g: u64, h: u64, bytes: Seq<u8>)
    ensures
        fnv_from(g, bytes) == fnv_from(h, bytes) ==> g == h,
    decreases bytes.len(),
{
    if bytes.len() > 0 {
        lemma_from_injective(g, h, bytes.drop_last());
        lemma_step_injective(
            fnv_from(g, bytes.drop_last()),
            fnv_from(h, bytes.drop_last()),
            bytes.last(),
        );
    }
}

/// States whose bytes differ in exactly one place have different hashes.
pub proof fn one_changed_byte_changes_the_hash(x: Seq<u8>, y: Seq<u8>, k: int)
    requires
        x.len() == y.len(),
        0 <= k < x.len(),
        x[k] != y[k],
        forall|i: int| 0 <= i < x.len() && i != k ==> x[i] == y[i],
    ensures
        fnv(x) != fnv(y),
{
    let head = x.take(k);
    let tail = x.skip(k + 1);
    assert(y.take(k) =~= head);
    assert(y.skip(k + 1) =~= tail);
    assert(x =~= head.push(x[k]) + tail);
    assert(y =~= head.push(y[k]) + tail);
    let h = fnv(head);
    lemma_fnv_append(FNV_OFFSET, head.push(x[k]), tail);
    lemma_fnv_append(FNV_OFFSET, head.push(y[k]), tail);
    assert(head.push(x[k]).drop_last() =~= head);
    assert(head.push(y[k]).drop_last() =~= head);
    let (hx, hy) = (fnv_step(h, x[k]), fnv_step(h, y[k]));
    assert(fnv(head.push(x[k])) == hx);
    assert(fnv(head.push(y[k])) == hy);
    let (bx, by) = (x[k] as u64, y[k] as u64);
    lemma_factor_injective(h ^ bx, h ^ by);
    assert(bx != by ==> (h ^ bx) != (h ^ by)) by (bit_vector);
    assert(hx != hy);
    lemma_from_injective(hx, hy, tail);
}

/// Scenes with equal physical state have equal hashes, whoever sleeps.
pub proof fn equal_states_hash_equal(a: &BodySet, b: &BodySet)
    requires
        a.dynamic@ == b.dynamic@,
        a.position@ == b.position@,
        a.rotation@ == b.rotation@,
        a.linvel@ == b.linvel@,
        a.angvel@ == b.angvel@,
    ensures
        fnv(state_bytes(a)) == fnv(state_bytes(b)),
{
    lemma_equal_bytes(a, b, a.count() as int);
}

proof fn lemma_equal_bytes(a: &BodySet, b: &BodySet, n: int)
    requires
        a.dynamic@ == b.dynamic@,
        a.position@ == b.position@,
        a.rotation@ == b.rotation@,
        a.linvel@ == b.linvel@,
        a.angvel@ == b.angvel@,
    ensures
        bodies_bytes(a, n) == bodies_bytes(b, n),
    decreases n,
{
    if n > 0 {
        lemma_equal_bytes(a, b, n - 1);
    }
}

/// Records a hash every `period` ticks.
pub struct Recorder {
    pub period: u64,
    pub hashes: Vec<(u64, u64)>,
}

/// The period in use: at least one.
pub open spec fn effective_period(period: u64) -> u64 {
    if period < 1 {
        1
    } else {
        period
    }
}

/// What is recorded of the first `n` observations.
pub open spec fn recorded(period: u64, seen: Seq<(u64, u64)>, n: int) -> Seq<(u64, u64)>
    decreases n,
{
    if n <= 0 {
        Seq::empty()
    } else if seen[n - 1].0 % effective_period(period) == 0 {
        recorded(period, seen, n - 1).push(seen[n - 1])
    } else {
        recorded(period, seen, n - 1)
    }
}

impl Recorder {
    /// Nothing recorded yet.
    pub fn new(period: u64) -> (r: Recorder)
        ensures
            r.period == period,
            r.hashes@ == Seq::<(u64, u64)>::empty(),
    {
        let r = Recorder { period, hashes: Vec::new() };
        assert(r.hashes@ =~= Seq::<(u64, u64)>::empty());
        r
    }

    /// Records the hash if the tick is a multiple of the period.
    pub fn observe(&mut self, tick: u64, hash: u64)
        ensures
            final(self).period == old(self).period,
            final(self).hashes@ == if tick % effective_period(old(self).period) == 0 {
                old(self).hashes@.push((tick, hash))
            } else {
                old(self).hashes@
            },
    {
        let p: u64 = if self.period < 1 {
            1
        } else {
            self.period
        };
        if tick % p == 0 {
            self.hashes.push((tick, hash));
        }
    }

    /// Whether both recorded the same ticks and hashes.
    pub fn matches(&self, other: &Recorder) -> (r: bool)
        ensures
            r == (self.hashes@ == other.hashes@),
    {
        if self.hashes.len() != other.hashes.len() {
            return false;
        }
        let mut i: usize = 0;
        while i < self.hashes.len()
            invariant
                i <= self.hashes@.len(),
                self.hashes@.len() == other.hashes@.len(),
                forall|j: int| 0 <= j < i ==> self.hashes@[j] == other.hashes@[j],
            decreases self.hashes@.len() - i,
        {
            let a = self.hashes[i];
            let b = other.hashes[i];
            if a.0 != b.0 || a.1 != b.1 {
                assert(self.hashes@[i as int] != other.hashes@[i as int]);
                return false;
            }
            i += 1;
        }
        assert(self.hashes@ =~= other.hashes@);
        true
    }
}

/// Of the ticks from one to `n` every one that is a multiple of the period is
/// recorded: `n` divided by the period, rounded down.
pub proof fn every_period_is_recorded(period: u64, seen: Seq<(u64, u64)>, n: int)
    requires
        0 <= n <= seen.len(),
        forall|i: int| 0 <= i < seen.len() ==> (#[trigger] seen[i]).0 == i + 1,
    ensures
        recorded(period, seen, n).len() == n / (effective_period(period) as int),
        forall|k: int|
            0 <= k < recorded(period, seen, n).len() ==> (#[trigger] recorded(period, seen, n)[k]).0
                == (k + 1) * effective_period(period),
    decreases n,
{
    let p = effective_period(period) as int;
    if n > 0 {
        every_period_is_recorded(period, seen, n - 1);
        assert(seen[n - 1].0 == n);
        let q = (n - 1) / p;
        let r = (n - 1) % p;
        vstd::arithmetic::div_mod::lemma_fundamental_div_mod(n - 1, p);
        assert(n - 1 == p * q + r);
        assert(0 <= r < p);
        if r == p - 1 {
            assert(n == p * (q + 1)) by (nonlinear_arith)
                requires
                    n - 1 == p * q + p - 1,
            ;
            vstd::arithmetic::div_mod::lemma_div_multiples_vanish(q + 1, p);
            vstd::arithmetic::div_mod::lemma_mod_multiples_basic(q + 1, p);
            assert((q + 1) * p == p * (q + 1)) by (nonlinear_arith);
        } else {
            vstd::arithmetic::div_mod::lemma_fundamental_div_mod_converse(n, p, q, r + 1);
        }
    } else {
        vstd::arithmetic::div_mod::lemma_basic_div(0, p);
    }
}

} // verus!
