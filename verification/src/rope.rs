//! Ropes: chains of particles held together by distance constraints.

use crate::scalar::{Scalar, Vec3};
use vstd::prelude::*;

verus! {

/// A rope. A particle without inverse mass is pinned.
pub struct Rope {
    pub pos: Vec<Vec3>,
    pub prev: Vec<Vec3>,
    pub vel: Vec<Vec3>,
    pub inv_mass: Vec<Scalar>,
    pub lambda: Vec<Scalar>,
    pub rest_len: Scalar,
    pub compliance: Scalar,
    pub radius: Scalar,
    pub substeps: u32,
    pub skin: Scalar,
    pub damping: Scalar,
}

/// How many particles a rope has: as many as asked, but at least two.
pub open spec fn node_count_spec(nodes: usize) -> usize {
    if nodes < 2 {
        2
    } else {
        nodes
    }
}

/// How many particles a rope has.
pub fn node_count(nodes: usize) -> (n: usize)
    ensures
        n == node_count_spec(nodes),
{
    if nodes < 2 {
        2
    } else {
        nodes
    }
}

/// The inverse mass of a free particle.
pub open spec fn free_mass() -> Scalar {
    Scalar { bits: 0x3f80_0000 }
}

/// A link between two neighbours, as a constraint sees it.
#[derive(Clone, Copy, Debug, PartialEq, Eq, Structural)]
pub struct Link {
    pub p: Vec3,
    pub q: Vec3,
    pub wp: Scalar,
    pub wq: Scalar,
}

/// What a constraint makes of a link: the new ends and the multiplier.
#[derive(Clone, Copy, Debug, PartialEq, Eq, Structural)]
pub struct Pulled {
    pub p: Vec3,
    pub q: Vec3,
    pub lambda: Scalar,
}

impl Rope {
    /// There are at least two particles, and one link fewer.
    pub open spec fn wf(&self) -> bool {
        &&& self.pos@.len() >= 2
        &&& self.prev@.len() == self.pos@.len()
        &&& self.vel@.len() == self.pos@.len()
        &&& self.inv_mass@.len() == self.pos@.len()
        &&& self.lambda@.len() == self.pos@.len() - 1
    }

    /// The particle does not move.
    pub open spec fn pinned(&self, i: int) -> bool {
        self.inv_mass@[i].is_zero_spec()
    }

    /// Everything but positions, velocities and multipliers is that of the other.
    pub open spec fn same_rope(&self, other: &Rope) -> bool {
        &&& self.inv_mass@ == other.inv_mass@
        &&& self.rest_len == other.rest_len
        &&& self.compliance == other.compliance
        &&& self.radius == other.radius
        &&& self.substeps == other.substeps
        &&& self.skin == other.skin
        &&& self.damping == other.damping
        &&& self.pos@.len() == other.pos@.len()
    }

    /// A rope through the points, at rest and pinned at both ends.
    pub fn span(points: Vec<Vec3>, rest_len: Scalar, radius: Scalar) -> (r: Rope)
        requires
            points@.len() >= 2,
        ensures
            r.wf(),
            r.pos@ == points@,
            r.prev@ == points@,
            forall|i: int| 0 <= i < points@.len() ==> #[trigger] r.vel@[i] == Vec3::zero_spec(),
            forall|i: int|
                0 <= i < points@.len() ==> #[trigger] r.inv_mass@[i] == if i == 0 || i
                    == points@.len() - 1 {
                    Scalar::zero_spec()
                } else {
                    free_mass()
                },
            forall|i: int|
                0 <= i < points@.len() - 1 ==> #[trigger] r.lambda@[i] == Scalar::zero_spec(),
            r.rest_len == rest_len,
            r.compliance == Scalar::zero_spec(),
            r.radius == radius,
            r.substeps == 8,
            r.skin == (Scalar { bits: 0x3c23_d70a }),
            r.damping == free_mass(),
    {
        let n: usize = points.len();
        let mut prev: Vec<Vec3> = Vec::new();
        let mut vel: Vec<Vec3> = Vec::new();
        let mut inv_mass: Vec<Scalar> = Vec::new();
        let mut lambda: Vec<Scalar> = Vec::new();
        let mut i: usize = 0;
        while i < n
            invariant
                n == points@.len(),
                n >= 2,
                i <= n,
                prev@ == points@.take(i as int),
                vel@.len() == i,
                inv_mass@.len() == i,
                lambda@.len() == if i == n {
                    n - 1
                } else {
                    i as int
                },
                forall|j: int| 0 <= j < i ==> #[trigger] vel@[j] == Vec3::zero_spec(),
                forall|j: int|
                    0 <= j < i ==> #[trigger] inv_mass@[j] == if j == 0 || j == n - 1 {
                        Scalar::zero_spec()
                    } else {
                        free_mass()
                    },
                forall|j: int|
                    0 <= j < lambda@.len() ==> #[trigger] lambda@[j] == Scalar::zero_spec(),
            decreases n - i,
        {
            prev.push(points[i]);
            vel.push(Vec3::zero());
            if i == 0 || i == n - 1 {
                inv_mass.push(Scalar::zero());
            } else {
                inv_mass.push(Scalar { bits: 0x3f80_0000 });
            }
            if i < n - 1 {
                lambda.push(Scalar::zero());
            }
            i += 1;
            assert(prev@ =~= points@.take(i as int));
        }
        assert(prev@ =~= points@);
        Rope {
            pos: points,
            prev,
            vel,
            inv_mass,
            lambda,
            rest_len,
            compliance: Scalar::zero(),
            radius,
            substeps: 8,
            skin: Scalar { bits: 0x3c23_d70a },
            damping: Scalar { bits: 0x3f80_0000 },
        }
    }

    /// How many particles there are.
    pub fn nodes(&self) -> (n: usize)
        ensures
            n == self.pos@.len(),
    {
        self.pos.len()
    }

    /// Pins or frees a particle; a number without a particle is ignored.
    pub fn set_pinned(&mut self, i: usize, pinned: bool)
        requires
            old(self).wf(),
        ensures
            final(self).wf(),
            final(self).inv_mass@ == if i < old(self).pos@.len() {
                old(self).inv_mass@.update(
                    i as int,
                    if pinned {
                        Scalar::zero_spec()
                    } else {
                        free_mass()
                    },
                )
            } else {
                old(self).inv_mass@
            },
            *final(self) == (Rope { inv_mass: final(self).inv_mass, ..*old(self) }),
    {
        if i < self.inv_mass.len() {
            let m: Scalar = if pinned {
                Scalar::zero()
            } else {
                Scalar { bits: 0x3f80_0000 }
            };
            self.inv_mass.set(i, m);
        }
    }
}

/// The particles after the prediction: pinned ones stay and lose their velocity,
/// free ones move as `predict` says; all remember where they were.
pub open spec fn predicted<P: Fn(Vec3, Vec3) -> (Vec3, Vec3)>(
    predict: P,
    before: &Rope,
    after: &Rope,
) -> bool {
    &&& after.wf()
    &&& after.same_rope(before)
    &&& after.prev@ == before.pos@
    &&& forall|i: int|
        0 <= i < before.pos@.len() ==> if before.pinned(i) {
            #[trigger] after.pos@[i] == before.pos@[i] && after.vel@[i] == Vec3::zero_spec()
        } else {
            predict.ensures((before.pos@[i], before.vel@[i]), (after.pos@[i], after.vel@[i]))
        }
}

/// The positions with a particle put elsewhere, unless it is pinned.
pub open spec fn shifted(w: Seq<Scalar>, pos: Seq<Vec3>, i: int, p: Vec3) -> Seq<Vec3> {
    if w[i].is_zero_spec() {
        pos
    } else {
        pos.update(i, p)
    }
}

/// One link: it is left alone, or its multiplier and those of its ends that are
/// free are what `pull` gives.
pub open spec fn link_step<S: Fn(Link) -> Option<Pulled>>(
    pull: S,
    w: Seq<Scalar>,
    before: (Seq<Vec3>, Seq<Scalar>),
    after: (Seq<Vec3>, Seq<Scalar>),
    k: int,
) -> bool {
    let link = Link { p: before.0[k], q: before.0[k + 1], wp: w[k], wq: w[k + 1] };
    exists|r: Option<Pulled>| #[trigger]
        pull.ensures((link,), r) && match r {
            None => after == before,
            Some(t) => after.0 == shifted(w, shifted(w, before.0, k, t.p), k + 1, t.q) && after.1
                == before.1.update(k, t.lambda),
        }
}

/// The links pulled one after the other, from zero multipliers.
pub open spec fn linked<S: Fn(Link) -> Option<Pulled>>(
    pull: S,
    before: &Rope,
    after: &Rope,
    chain: Seq<(Seq<Vec3>, Seq<Scalar>)>,
) -> bool {
    &&& chain.len() == before.pos@.len()
    &&& chain[0] == (
        before.pos@,
        Seq::new((before.pos@.len() - 1) as nat, |i: int| Scalar::zero_spec()),
    )
    &&& chain[before.pos@.len() - 1] == (after.pos@, after.lambda@)
    &&& forall|k: int|
        0 <= k < before.pos@.len() - 1 ==> link_step(
            pull,
            before.inv_mass@,
            #[trigger] chain[k],
            chain[k + 1],
            k,
        )
}

impl Rope {
    /// Moves the free particles ahead.
    fn predict_all<P: Fn(Vec3, Vec3) -> (Vec3, Vec3)>(&mut self, predict: &P)
        requires
            old(self).wf(),
            forall|p: Vec3, v: Vec3| #[trigger] predict.requires((p, v)),
        ensures
            predicted(*predict, old(self), final(self)),
            final(self).lambda@ == old(self).lambda@,
    {
        let ghost before = *self;
        let n: usize = self.pos.len();
        let mut i: usize = 0;
        while i < n
            invariant
                i <= n,
                n == before.pos@.len(),
                before.wf(),
                self.wf(),
                self.same_rope(&before),
                self.lambda@ == before.lambda@,
                forall|p: Vec3, v: Vec3| #[trigger] predict.requires((p, v)),
                forall|j: int| 0 <= j < i ==> #[trigger] self.prev@[j] == before.pos@[j],
                forall|j: int|
                    0 <= j < i ==> if before.pinned(j) {
                        #[trigger] self.pos@[j] == before.pos@[j] && self.vel@[j]
                            == Vec3::zero_spec()
                    } else {
                        predict.ensures(
                            (before.pos@[j], before.vel@[j]),
                            (self.pos@[j], self.vel@[j]),
                        )
                    },
                forall|j: int|
                    i <= j < n ==> #[trigger] self.pos@[j] == before.pos@[j] && self.vel@[j]
                        == before.vel@[j],
            decreases n - i,
        {
            assert(self.pos@[i as int] == before.pos@[i as int]);
            let p = self.pos[i];
            let ghost mid = *self;
            self.prev.set(i, p);
            if self.inv_mass[i].is_zero() {
                self.vel.set(i, Vec3::zero());
            } else {
                let (p2, v2) = predict(p, self.vel[i]);
                self.pos.set(i, p2);
                self.vel.set(i, v2);
            }
            proof {
                assert forall|j: int| 0 <= j < i + 1 implies if before.pinned(j) {
                    #[trigger] self.pos@[j] == before.pos@[j] && self.vel@[j] == Vec3::zero_spec()
                } else {
                    predict.ensures(
                        (before.pos@[j], before.vel@[j]),
                        (self.pos@[j], self.vel@[j]),
                    )
                } by {
                    if j < i {
                        assert(mid.pos@[j] == self.pos@[j] && mid.vel@[j] == self.vel@[j]);
                    }
                }
                assert forall|j: int| i + 1 <= j < n implies #[trigger] self.pos@[j]
                    == before.pos@[j] && self.vel@[j] == before.vel@[j] by {
                    assert(mid.pos@[j] == before.pos@[j]);
                }
            }
            i += 1;
        }
        assert(self.prev@ =~= before.pos@);
    }

    /// Pulls the links, from the first to the last.
    fn pull_all<S: Fn(Link) -> Option<Pulled>>(&mut self, pull: &S)
        requires
            old(self).wf(),
            forall|l: Link| #[trigger] pull.requires((l,)),
        ensures
            final(self).wf(),
            final(self).same_rope(old(self)),
            final(self).prev@ == old(self).prev@,
            final(self).vel@ == old(self).vel@,
            exists|chain: Seq<(Seq<Vec3>, Seq<Scalar>)>| #[trigger]
                linked(*pull, old(self), final(self), chain),
    {
        let ghost before = *self;
        let n: usize = self.pos.len();
        let mut i: usize = 0;
        while i < n - 1
            invariant
                i <= n - 1,
                n >= 2,
                n == before.pos@.len(),
                before.wf(),
                self.wf(),
                self.same_rope(&before),
                self.pos@ == before.pos@,
                self.prev@ == before.prev@,
                self.vel@ == before.vel@,
                forall|j: int| 0 <= j < i ==> self.lambda@[j] == Scalar::zero_spec(),
            decreases n - 1 - i,
        {
            self.lambda.set(i, Scalar::zero());
            i += 1;
        }
        let ghost mut chain: Seq<(Seq<Vec3>, Seq<Scalar>)> = seq![(self.pos@, self.lambda@)];
        assert(self.lambda@ =~= Seq::new((n - 1) as nat, |i: int| Scalar::zero_spec()));
        let mut k: usize = 0;
        while k < n - 1
            invariant
                k <= n - 1,
                n >= 2,
                n == before.pos@.len(),
                before.wf(),
                self.wf(),
                self.same_rope(&before),
                self.prev@ == before.prev@,
                self.vel@ == before.vel@,
                forall|l: Link| #[trigger] pull.requires((l,)),
                chain.len() == k + 1,
                chain[0] == (
                    before.pos@,
                    Seq::new((n - 1) as nat, |i: int| Scalar::zero_spec()),
                ),
                chain[k as int] == (self.pos@, self.lambda@),
                forall|q: int|
                    0 <= q < k ==> link_step(
                        *pull,
                        before.inv_mass@,
                        #[trigger] chain[q],
                        chain[q + 1],
                        q,
                    ),
            decreases n - 1 - k,
        {
            let link = Link {
                p: self.pos[k],
                q: self.pos[k + 1],
                wp: self.inv_mass[k],
                wq: self.inv_mass[k + 1],
            };
            let ghost now = (self.pos@, self.lambda@);
            let r = pull(link);
            if let Some(t) = r {
                if !self.inv_mass[k].is_zero() {
                    self.pos.set(k, t.p);
                }
                if !self.inv_mass[k + 1].is_zero() {
                    self.pos.set(k + 1, t.q);
                }
                self.lambda.set(k, t.lambda);
            }
            proof {
                assert(pull.ensures((link,), r));
                assert(link_step(
                    *pull,
                    before.inv_mass@,
                    now,
                    (self.pos@, self.lambda@),
                    k as int,
                ));
                let old_chain = chain;
                chain = chain.push((self.pos@, self.lambda@));
                assert forall|q: int| 0 <= q < k + 1 implies link_step(
                    *pull,
                    before.inv_mass@,
                    #[trigger] chain[q],
                    chain[q + 1],
                    q,
                ) by {
                    if q < k {
                        assert(chain[q] == old_chain[q] && chain[q + 1] == old_chain[q + 1]);
                    }
                }
            }
            k += 1;
        }
        assert(linked(*pull, &before, self, chain));
    }

    /// Pushes the free particles out of what they penetrate.
    fn push_out_all<C: Fn(usize, Vec3) -> Vec3>(&mut self, push_out: &C)
        requires
            old(self).wf(),
            forall|i: usize, p: Vec3| #[trigger] push_out.requires((i, p)),
        ensures
            pushed_out(*push_out, old(self), final(self)),
    {
        let ghost before = *self;
        let n: usize = self.pos.len();
        let mut i: usize = 0;
        while i < n
            invariant
                i <= n,
                n == before.pos@.len(),
                before.wf(),
                self.wf(),
                self.same_rope(&before),
                self.prev@ == before.prev@,
                self.vel@ == before.vel@,
                self.lambda@ == before.lambda@,
                forall|i: usize, p: Vec3| #[trigger] push_out.requires((i, p)),
                forall|j: int|
                    0 <= j < i ==> if before.pinned(j) {
                        #[trigger] self.pos@[j] == before.pos@[j]
                    } else {
                        push_out.ensures((j as usize, before.pos@[j]), self.pos@[j])
                    },
                forall|j: int| i <= j < n ==> #[trigger] self.pos@[j] == before.pos@[j],
            decreases n - i,
        {
            let ghost mid = *self;
            if !self.inv_mass[i].is_zero() {
                let p = push_out(i, self.pos[i]);
                self.pos.set(i, p);
            }
            proof {
                assert forall|j: int| 0 <= j < i + 1 implies if before.pinned(j) {
                    #[trigger] self.pos@[j] == before.pos@[j]
                } else {
                    push_out.ensures((j as usize, before.pos@[j]), self.pos@[j])
                } by {
                    if j < i {
                        assert(mid.pos@[j] == self.pos@[j]);
                    } else {
                        assert(mid.pos@[j] == before.pos@[j]);
                    }
                }
            }
            i += 1;
        }
    }

    /// Takes the velocities from the way the particles went.
    fn update_velocities<V: Fn(Vec3, Vec3) -> Vec3>(&mut self, velocity: &V)
        requires
            old(self).wf(),
            forall|p: Vec3, q: Vec3| #[trigger] velocity.requires((p, q)),
        ensures
            finished(*velocity, old(self), final(self)),
    {
        let ghost before = *self;
        let n: usize = self.pos.len();
        let mut i: usize = 0;
        while i < n
            invariant
                i <= n,
                n == before.pos@.len(),
                before.wf(),
                self.wf(),
                self.same_rope(&before),
                self.pos@ == before.pos@,
                self.prev@ == before.prev@,
                self.lambda@ == before.lambda@,
                forall|p: Vec3, q: Vec3| #[trigger] velocity.requires((p, q)),
                forall|j: int|
                    0 <= j < i ==> if before.pinned(j) {
                        #[trigger] self.vel@[j] == Vec3::zero_spec()
                    } else {
                        velocity.ensures((before.pos@[j], before.prev@[j]), self.vel@[j])
                    },
            decreases n - i,
        {
            let ghost mid = *self;
            if self.inv_mass[i].is_zero() {
                self.vel.set(i, Vec3::zero());
            } else {
                let v = velocity(self.pos[i], self.prev[i]);
                self.vel.set(i, v);
            }
            proof {
                assert forall|j: int| 0 <= j < i + 1 implies if before.pinned(j) {
                    #[trigger] self.vel@[j] == Vec3::zero_spec()
                } else {
                    velocity.ensures((before.pos@[j], before.prev@[j]), self.vel@[j])
                } by {
                    if j < i {
                        assert(mid.vel@[j] == self.vel@[j]);
                    }
                }
            }
            i += 1;
        }
    }
}

/// The particles after the contacts: pinned ones stay.
pub open spec fn pushed_out<C: Fn(usize, Vec3) -> Vec3>(
    push_out: C,
    before: &Rope,
    after: &Rope,
) -> bool {
    &&& after.wf()
    &&& after.same_rope(before)
    &&& after.prev@ == before.prev@
    &&& after.vel@ == before.vel@
    &&& after.lambda@ == before.lambda@
    &&& forall|i: int|
        0 <= i < before.pos@.len() ==> if before.pinned(i) {
            #[trigger] after.pos@[i] == before.pos@[i]
        } else {
            push_out.ensures((i as usize, before.pos@[i]), after.pos@[i])
        }
}

/// The velocities after a step: those of pinned particles are zero.
pub open spec fn finished<V: Fn(Vec3, Vec3) -> Vec3>(
    velocity: V,
    before: &Rope,
    after: &Rope,
) -> bool {
    &&& after.wf()
    &&& after.same_rope(before)
    &&& after.pos@ == before.pos@
    &&& after.prev@ == before.prev@
    &&& after.lambda@ == before.lambda@
    &&& forall|i: int|
        0 <= i < before.pos@.len() ==> if before.pinned(i) {
            #[trigger] after.vel@[i] == Vec3::zero_spec()
        } else {
            velocity.ensures((before.pos@[i], before.prev@[i]), after.vel@[i])
        }
}

/// The ropes between the stages of a substep.
pub open spec fn substepped<
    P: Fn(Vec3, Vec3) -> (Vec3, Vec3),
    S: Fn(Link) -> Option<Pulled>,
    C: Fn(usize, Vec3) -> Vec3,
    V: Fn(Vec3, Vec3) -> Vec3,
>(
    predict: P,
    pull: S,
    push_out: C,
    velocity: V,
    touching: bool,
    before: &Rope,
    after: &Rope,
    stages: Seq<Rope>,
    chain: Seq<(Seq<Vec3>, Seq<Scalar>)>,
) -> bool {
    let touches = Scalar::zero_spec().le_spec(before.radius) && touching;
    &&& stages.len() == 3
    &&& predicted(predict, before, &stages[0])
    &&& linked(pull, &stages[0], &stages[1], chain)
    &&& stages[1].prev@ == stages[0].prev@
    &&& stages[1].vel@ == stages[0].vel@
    &&& stages[1].same_rope(&stages[0])
    &&& if touches {
        pushed_out(push_out, &stages[1], &stages[2])
    } else {
        stages[2] == stages[1]
    }
    &&& finished(velocity, &stages[2], after)
}

impl Rope {
    /// One substep: predict, pull the links in order, push out of contacts if
    /// there is anything to touch, and take the velocities.
    pub fn substep<
        P: Fn(Vec3, Vec3) -> (Vec3, Vec3),
        S: Fn(Link) -> Option<Pulled>,
        C: Fn(usize, Vec3) -> Vec3,
        V: Fn(Vec3, Vec3) -> Vec3,
    >(&mut self, predict: &P, pull: &S, push_out: &C, velocity: &V, touching: bool)
        requires
            old(self).wf(),
            forall|p: Vec3, v: Vec3| #[trigger] predict.requires((p, v)),
            forall|l: Link| #[trigger] pull.requires((l,)),
            forall|i: usize, p: Vec3| #[trigger] push_out.requires((i, p)),
            forall|p: Vec3, q: Vec3| #[trigger] velocity.requires((p, q)),
        ensures
            final(self).wf(),
            final(self).same_rope(old(self)),
            exists|stages: Seq<Rope>, chain: Seq<(Seq<Vec3>, Seq<Scalar>)>| #[trigger]
                substepped(
                    *predict,
                    *pull,
                    *push_out,
                    *velocity,
                    touching,
                    old(self),
                    final(self),
                    stages,
                    chain,
                ),
    {
        let ghost r0 = *self;
        self.predict_all(predict);
        let ghost r1 = *self;
        self.pull_all(pull);
        let ghost r2 = *self;
        let ghost chain = choose|chain: Seq<(Seq<Vec3>, Seq<Scalar>)>| #[trigger]
            linked(*pull, &r1, &r2, chain);
        if Scalar::zero().le(self.radius) && touching {
            self.push_out_all(push_out);
        }
        let ghost r3 = *self;
        self.update_velocities(velocity);
        proof {
            let stages = seq![r1, r2, r3];
            assert(stages[0] == r1 && stages[1] == r2 && stages[2] == r3);
            assert(substepped(
                *predict,
                *pull,
                *push_out,
                *velocity,
                touching,
                &r0,
                self,
                stages,
                chain,
            ));
        }
    }
}

/// The rope goes from one state to the next by a substep.
pub open spec fn one_substep<
    P: Fn(Vec3, Vec3) -> (Vec3, Vec3),
    S: Fn(Link) -> Option<Pulled>,
    C: Fn(usize, Vec3) -> Vec3,
    V: Fn(Vec3, Vec3) -> Vec3,
>(
    predict: P,
    pull: S,
    push_out: C,
    velocity: V,
    touching: bool,
    before: &Rope,
    after: &Rope,
) -> bool {
    exists|stages: Seq<Rope>, chain: Seq<(Seq<Vec3>, Seq<Scalar>)>| #[trigger]
        substepped(
            predict,
            pull,
            push_out,
            velocity,
            touching,
            before,
            after,
            stages,
            chain,
        )
}

/// The states of the rope between its substeps.
pub open spec fn step_trace<
    P: Fn(Vec3, Vec3) -> (Vec3, Vec3),
    S: Fn(Link) -> Option<Pulled>,
    C: Fn(usize, Vec3) -> Vec3,
    V: Fn(Vec3, Vec3) -> Vec3,
>(
    predict: P,
    pull: S,
    push_out: C,
    velocity: V,
    touching: bool,
    trace: Seq<Rope>,
) -> bool {
    forall|k: int|
        0 <= k < trace.len() - 1 ==> one_substep(
            predict,
            pull,
            push_out,
            velocity,
            touching,
            #[trigger] &trace[k],
            &trace[k + 1],
        )
}

impl Rope {
    /// One step: as many substeps as the rope is set to.
    pub fn step<
        P: Fn(Vec3, Vec3) -> (Vec3, Vec3),
        S: Fn(Link) -> Option<Pulled>,
        C: Fn(usize, Vec3) -> Vec3,
        V: Fn(Vec3, Vec3) -> Vec3,
    >(&mut self, predict: &P, pull: &S, push_out: &C, velocity: &V, touching: bool)
        requires
            old(self).wf(),
            forall|p: Vec3, v: Vec3| #[trigger] predict.requires((p, v)),
            forall|l: Link| #[trigger] pull.requires((l,)),
            forall|i: usize, p: Vec3| #[trigger] push_out.requires((i, p)),
            forall|p: Vec3, q: Vec3| #[trigger] velocity.requires((p, q)),
        ensures
            final(self).wf(),
            final(self).same_rope(old(self)),
            exists|trace: Seq<Rope>|
                trace.len() == old(self).substeps + 1 && trace[0] == *old(self) && trace.last()
                    == *final(self) && #[trigger] step_trace(
                    *predict,
                    *pull,
                    *push_out,
                    *velocity,
                    touching,
                    trace,
                ),
    {
        let n: u32 = self.substeps;
        let ghost r0 = *self;
        let ghost mut trace: Seq<Rope> = seq![*self];
        let mut k: u32 = 0;
        while k < n
            invariant
                k <= n,
                n == r0.substeps,
                self.wf(),
                self.same_rope(&r0),
                forall|p: Vec3, v: Vec3| #[trigger] predict.requires((p, v)),
                forall|l: Link| #[trigger] pull.requires((l,)),
                forall|i: usize, p: Vec3| #[trigger] push_out.requires((i, p)),
                forall|p: Vec3, q: Vec3| #[trigger] velocity.requires((p, q)),
                trace.len() == k + 1,
                trace[0] == r0,
                trace[k as int] == *self,
                step_trace(*predict, *pull, *push_out, *velocity, touching, trace),
            decreases n - k,
        {
            let ghost before = *self;
            self.substep(predict, pull, push_out, velocity, touching);
            proof {
                assert(one_substep(
                    *predict,
                    *pull,
                    *push_out,
                    *velocity,
                    touching,
                    &before,
                    self,
                ));
                let old_trace = trace;
                trace = trace.push(*self);
                assert forall|q: int| 0 <= q < trace.len() - 1 implies one_substep(
                    *predict,
                    *pull,
                    *push_out,
                    *velocity,
                    touching,
                    #[trigger] &trace[q],
                    &trace[q + 1],
                ) by {
                    if q < k {
                        assert(trace[q] == old_trace[q] && trace[q + 1] == old_trace[q + 1]);
                        assert(one_substep(
                            *predict,
                            *pull,
                            *push_out,
                            *velocity,
                            touching,
                            &old_trace[q],
                            &old_trace[q + 1],
                        ));
                    }
                }
            }
            k += 1;
        }
        assert(trace.last() == *self);
    }
}

/// The links leave a pinned particle where it is.
proof fn lemma_links_hold<S: Fn(Link) -> Option<Pulled>>(
    pull: S,
    before: &Rope,
    after: &Rope,
    chain: Seq<(Seq<Vec3>, Seq<Scalar>)>,
    i: int,
    k: int,
)
    requires
        before.wf(),
        linked(pull, before, after, chain),
        0 <= i < before.pos@.len(),
        before.pinned(i),
        0 <= k < before.pos@.len(),
    ensures
        chain[k].0.len() == before.pos@.len(),
        chain[k].0[i] == before.pos@[i],
    decreases k,
{
    if k > 0 {
        lemma_links_hold(pull, before, after, chain, i, k - 1);
        assert(link_step(pull, before.inv_mass@, chain[k - 1], chain[k], k - 1));
    }
}

/// A pinned particle does not move in a substep and has no velocity after it;
/// which particles are pinned, the lengths, masses and settings stay.
pub proof fn pinned_particles_rest<
    P: Fn(Vec3, Vec3) -> (Vec3, Vec3),
    S: Fn(Link) -> Option<Pulled>,
    C: Fn(usize, Vec3) -> Vec3,
    V: Fn(Vec3, Vec3) -> Vec3,
>(
    predict: P,
    pull: S,
    push_out: C,
    velocity: V,
    touching: bool,
    before: &Rope,
    after: &Rope,
    i: int,
)
    requires
        before.wf(),
        one_substep(predict, pull, push_out, velocity, touching, before, after),
        0 <= i < before.pos@.len(),
        before.pinned(i),
    ensures
        after.wf(),
        after.same_rope(before),
        after.pinned(i),
        after.pos@[i] == before.pos@[i],
        after.vel@[i] == Vec3::zero_spec(),
{
    let (stages, chain) = choose|stages: Seq<Rope>, chain: Seq<(Seq<Vec3>, Seq<Scalar>)>| #[trigger]
        substepped(
            predict,
            pull,
            push_out,
            velocity,
            touching,
            before,
            after,
            stages,
            chain,
        );
    let n = before.pos@.len() as int;
    assert(stages[0].pos@[i] == before.pos@[i]);
    assert(stages[0].pinned(i));
    lemma_links_hold(pull, &stages[0], &stages[1], chain, i, n - 1);
    assert(stages[1].pos@[i] == stages[0].pos@[i]);
    assert(stages[2].pos@[i] == stages[1].pos@[i]);
    assert(stages[2].pinned(i));
    assert(after.vel@[i] == Vec3::zero_spec());
}

/// Over any number of substeps a pinned particle stays where it is, and the rope
/// keeps its lengths, masses and settings.
pub proof fn pinned_particles_stay<
    P: Fn(Vec3, Vec3) -> (Vec3, Vec3),
    S: Fn(Link) -> Option<Pulled>,
    C: Fn(usize, Vec3) -> Vec3,
    V: Fn(Vec3, Vec3) -> Vec3,
>(
    predict: P,
    pull: S,
    push_out: C,
    velocity: V,
    touching: bool,
    trace: Seq<Rope>,
    i: int,
    k: int,
)
    requires
        trace.len() > 0,
        trace[0].wf(),
        step_trace(predict, pull, push_out, velocity, touching, trace),
        0 <= i < trace[0].pos@.len(),
        trace[0].pinned(i),
        0 <= k < trace.len(),
    ensures
        trace[k].wf(),
        trace[k].same_rope(&trace[0]),
        trace[k].pos@[i] == trace[0].pos@[i],
        k > 0 ==> trace[k].vel@[i] == Vec3::zero_spec(),
    decreases k,
{
    if k > 0 {
        pinned_particles_stay(predict, pull, push_out, velocity, touching, trace, i, k - 1);
        assert(one_substep(
            predict,
            pull,
            push_out,
            velocity,
            touching,
            &trace[k - 1],
            &trace[k - 1 + 1],
        ));
        pinned_particles_rest(
            predict,
            pull,
            push_out,
            velocity,
            touching,
            &trace[k - 1],
            &trace[k],
            i,
        );
    }
}

} // verus!
