//! What ropes promise.

use crate::rope::{
    finished, link_step, linked, one_substep, predicted, pushed_out, shifted, step_trace, substepped,
    Link, Pulled, Rope,
};
use crate::scalar::{Scalar, Vec3};
use vstd::prelude::*;

verus! {

/// A particle without mass to move: its inverse mass is one of the two zeros.
pub open spec fn fixed_at(rope: &Rope, i: int) -> bool {
    rope.inv_mass@[i].bits == 0 || rope.inv_mass@[i].bits == 0x8000_0000
}

/// What a substep does to every particle and link. `ahead` and `speed` are the
/// particles once predicted, `steps[k]` their positions once `k` links were pulled,
/// and `pulls` what was made of each link.
pub open spec fn substep_held<
    P: Fn(Vec3, Vec3) -> (Vec3, Vec3),
    S: Fn(Link) -> Option<Pulled>,
    C: Fn(usize, Vec3) -> Vec3,
    V: Fn(Vec3, Vec3) -> Vec3,
>(
    predict: P,
    pull: S,
    push_out: C,
    velocity: V,
    touching: bool,
    before: &Rope,
    after: &Rope,
    speed: Seq<Vec3>,
    steps: Seq<Seq<Vec3>>,
    pulls: Seq<Option<Pulled>>,
) -> bool {
    let n = before.pos@.len() as int;
    &&& steps.len() == n
    &&& pulls.len() == n - 1
    &&& after.pos@.len() == n
    &&& after.inv_mass@ == before.inv_mass@
    &&& after.prev@ == before.pos@
    &&& forall|i: int|
        0 <= i < n && fixed_at(before, i) ==> {
            &&& (#[trigger] after.pos@[i]) == before.pos@[i]
            &&& after.vel@[i] == (Vec3 {
                x: Scalar { bits: 0 },
                y: Scalar { bits: 0 },
                z: Scalar { bits: 0 },
            })
        }
    &&& forall|i: int|
        0 <= i < n && !fixed_at(before, i) ==> {
            &&& predict.ensures((before.pos@[i], before.vel@[i]), (steps[0][i], speed[i]))
            &&& if touching && (before.radius.bits <= 0x7f80_0000 || before.radius.bits == 0x8000_0000) {
                push_out.ensures((i as usize, steps[n - 1][i]), #[trigger] after.pos@[i])
            } else {
                after.pos@[i] == steps[n - 1][i]
            }
            &&& velocity.ensures((after.pos@[i], before.pos@[i]), after.vel@[i])
        }
    &&& forall|k: int|
        #![trigger pulls[k]]
        0 <= k < n - 1 ==> {
            &&& steps[k].len() == n
            &&& pull.ensures(
                (Link {
                    p: steps[k][k],
                    q: steps[k][k + 1],
                    wp: before.inv_mass@[k],
                    wq: before.inv_mass@[k + 1],
                },),
                pulls[k],
            )
            &&& pulls[k] is None ==> steps[k + 1] == steps[k] && after.lambda@[k] == (Scalar {
                bits: 0,
            })
            &&& pulls[k] is Some ==> {
                &&& after.lambda@[k] == pulls[k].unwrap().lambda
                &&& steps[k + 1][k] == if fixed_at(before, k) {
                    steps[k][k]
                } else {
                    pulls[k].unwrap().p
                }
                &&& steps[k + 1][k + 1] == if fixed_at(before, k + 1) {
                    steps[k][k + 1]
                } else {
                    pulls[k].unwrap().q
                }
                &&& forall|i: int|
                    0 <= i < n && i != k && i != k + 1 ==> #[trigger] steps[k + 1][i] == steps[k][i]
            }
        }
}

/// The rope went from one state to the next as a substep does.
#[verifier::opaque]
pub open spec fn went_one_substep<
    P: Fn(Vec3, Vec3) -> (Vec3, Vec3),
    S: Fn(Link) -> Option<Pulled>,
    C: Fn(usize, Vec3) -> Vec3,
    V: Fn(Vec3, Vec3) -> Vec3,
>(
    predict: P,
    pull: S,
    push_out: C,
    velocity: V,
    touching: bool,
    before: &Rope,
    after: &Rope,
) -> bool {
    exists|speed: Seq<Vec3>, steps: Seq<Seq<Vec3>>, pulls: Seq<Option<Pulled>>| #[trigger]
        substep_held(
            predict,
            pull,
            push_out,
            velocity,
            touching,
            before,
            after,
            speed,
            steps,
            pulls,
        )
}

proof fn lemma_links<S: Fn(Link) -> Option<Pulled>>(
    pull: S,
    before: &Rope,
    chain: Seq<(Seq<Vec3>, Seq<Scalar>)>,
    pulls: Seq<Option<Pulled>>,
    k: int,
)
    requires
        before.wf(),
        chain.len() == before.pos@.len(),
        chain[0].0.len() == before.pos@.len(),
        chain[0].1 == Seq::new((before.pos@.len() - 1) as nat, |i: int| Scalar { bits: 0 }),
        pulls.len() == before.pos@.len() - 1,
        forall|q: int|
            #![trigger pulls[q]]
            0 <= q < before.pos@.len() - 1 ==> {
                &&& pull.ensures(
                    (Link {
                        p: chain[q].0[q],
                        q: chain[q].0[q + 1],
                        wp: before.inv_mass@[q],
                        wq: before.inv_mass@[q + 1],
                    },),
                    pulls[q],
                )
                &&& match pulls[q] {
                    None => chain[q + 1] == chain[q],
                    Some(t) => chain[q + 1].0 == shifted(
                        before.inv_mass@,
                        shifted(before.inv_mass@, chain[q].0, q, t.p),
                        q + 1,
                        t.q,
                    ) && chain[q + 1].1 == chain[q].1.update(q, t.lambda),
                }
            },
        0 <= k < before.pos@.len(),
    ensures
        chain[k].0.len() == before.pos@.len(),
        chain[k].1.len() == before.pos@.len() - 1,
        forall|q: int|
            #![trigger chain[k].1[q]]
            0 <= q < before.pos@.len() - 1 ==> chain[k].1[q] == if q < k && pulls[q] is Some {
                pulls[q].unwrap().lambda
            } else {
                Scalar { bits: 0 }
            },
    decreases k,
{
    if k > 0 {
        lemma_links(pull, before, chain, pulls, k - 1);
        assert(pulls[k - 1] is None || pulls[k - 1] is Some);
    }
}

proof fn lemma_substep<
    P: Fn(Vec3, Vec3) -> (Vec3, Vec3),
    S: Fn(Link) -> Option<Pulled>,
    C: Fn(usize, Vec3) -> Vec3,
    V: Fn(Vec3, Vec3) -> Vec3,
>(
    predict: P,
    pull: S,
    push_out: C,
    velocity: V,
    touching: bool,
    before: &Rope,
    after: &Rope,
)
    requires
        before.wf(),
        one_substep(predict, pull, push_out, velocity, touching, before, after),
    ensures
        after.wf(),
        exists|speed: Seq<Vec3>, steps: Seq<Seq<Vec3>>, pulls: Seq<Option<Pulled>>| #[trigger]
            substep_held(
                predict,
                pull,
                push_out,
                velocity,
                touching,
                before,
                after,
                speed,
                steps,
                pulls,
            ),
{
    let (stages, chain) = choose|stages: Seq<Rope>, chain: Seq<(Seq<Vec3>, Seq<Scalar>)>| #[trigger]
        substepped(predict, pull, push_out, velocity, touching, before, after, stages, chain);
    let n = before.pos@.len() as int;
    let w = before.inv_mass@;
    let speed = stages[0].vel@;
    let steps = Seq::new(n as nat, |k: int| chain[k].0);
    let pulls = Seq::new(
        (n - 1) as nat,
        |k: int|
            {
                let link = Link {
                    p: chain[k].0[k],
                    q: chain[k].0[k + 1],
                    wp: w[k],
                    wq: w[k + 1],
                };
                choose|r: Option<Pulled>| #[trigger]
                    pull.ensures((link,), r) && match r {
                        None => chain[k + 1] == chain[k],
                        Some(t) => chain[k + 1].0 == shifted(
                            w,
                            shifted(w, chain[k].0, k, t.p),
                            k + 1,
                            t.q,
                        ) && chain[k + 1].1 == chain[k].1.update(k, t.lambda),
                    }
            },
    );
    assert forall|q: int|
        #![trigger pulls[q]]
        0 <= q < n - 1 implies {
        &&& pull.ensures(
            (Link { p: chain[q].0[q], q: chain[q].0[q + 1], wp: w[q], wq: w[q + 1] },),
            pulls[q],
        )
        &&& match pulls[q] {
            None => chain[q + 1] == chain[q],
            Some(t) => chain[q + 1].0 == shifted(w, shifted(w, chain[q].0, q, t.p), q + 1, t.q)
                && chain[q + 1].1 == chain[q].1.update(q, t.lambda),
        }
    } by {
        assert(link_step(pull, w, chain[q], chain[q + 1], q));
    }
    assert forall|k: int| 0 <= k < n implies (#[trigger] steps[k]).len() == n by {
        lemma_links(pull, before, chain, pulls, k);
    }
    lemma_links(pull, before, chain, pulls, n - 1);
    assert forall|i: int| 0 <= i < n && fixed_at(before, i) implies {
        &&& (#[trigger] after.pos@[i]) == before.pos@[i]
        &&& after.vel@[i] == (Vec3 {
            x: Scalar { bits: 0 },
            y: Scalar { bits: 0 },
            z: Scalar { bits: 0 },
        })
    } by {
        crate::rope::pinned_particles_rest(
            predict,
            pull,
            push_out,
            velocity,
            touching,
            before,
            after,
            i,
        );
    }
    assert forall|i: int| 0 <= i < n && !fixed_at(before, i) implies {
        &&& predict.ensures((before.pos@[i], before.vel@[i]), (steps[0][i], speed[i]))
        &&& if touching && (before.radius.bits <= 0x7f80_0000 || before.radius.bits == 0x8000_0000) {
            push_out.ensures((i as usize, steps[n - 1][i]), #[trigger] after.pos@[i])
        } else {
            after.pos@[i] == steps[n - 1][i]
        }
        &&& velocity.ensures((after.pos@[i], before.pos@[i]), after.vel@[i])
    } by {
        assert(stages[0].pos@[i] == steps[0][i]);
        assert(stages[2].pos@[i] == after.pos@[i]);
        assert(stages[1].pos@[i] == steps[n - 1][i]);
        assert(after.vel@[i] == after.vel@[i]);
    }
    assert forall|k: int|
        #![trigger pulls[k]]
        0 <= k < n - 1 implies {
        &&& steps[k].len() == n
        &&& pulls[k] is None ==> steps[k + 1] == steps[k] && after.lambda@[k] == (Scalar { bits: 0 })
        &&& pulls[k] is Some ==> {
            &&& after.lambda@[k] == pulls[k].unwrap().lambda
            &&& steps[k + 1][k] == if fixed_at(before, k) {
                steps[k][k]
            } else {
                pulls[k].unwrap().p
            }
            &&& steps[k + 1][k + 1] == if fixed_at(before, k + 1) {
                steps[k][k + 1]
            } else {
                pulls[k].unwrap().q
            }
            &&& forall|i: int|
                0 <= i < n && i != k && i != k + 1 ==> #[trigger] steps[k + 1][i] == steps[k][i]
        }
    } by {
        assert(steps[k].len() == n);
        assert(chain[n - 1].1[k] == after.lambda@[k]);
    }
    assert(substep_held(
        predict,
        pull,
        push_out,
        velocity,
        touching,
        before,
        after,
        speed,
        steps,
        pulls,
    ));
}

/// In a substep every particle that is not itself fixed goes where `predict` puts it,
/// is moved by its links as `pull` says, ends where `push_out` puts it if there is
/// something to touch, and gets its velocity from the way it went, whichever other
/// particles are fixed; every link is pulled once, first to last, with its ends where
/// the links before it left them. Fixed particles stay and have no velocity.
pub proof fn every_free_particle_takes_part<
    P: Fn(Vec3, Vec3) -> (Vec3, Vec3),
    S: Fn(Link) -> Option<Pulled>,
    C: Fn(usize, Vec3) -> Vec3,
    V: Fn(Vec3, Vec3) -> Vec3,
>(rope: &mut Rope, predict: &P, pull: &S, push_out: &C, velocity: &V, touching: bool)
    requires
        call_ensures(
            Rope::substep::<P, S, C, V>,
            (rope, predict, pull, push_out, velocity, touching),
            (),
        ),
        old(rope).wf(),
    ensures
        exists|speed: Seq<Vec3>, steps: Seq<Seq<Vec3>>, pulls: Seq<Option<Pulled>>| #[trigger]
            substep_held(
                *predict,
                *pull,
                *push_out,
                *velocity,
                touching,
                old(rope),
                final(rope),
                speed,
                steps,
                pulls,
            ),
{
    assert(one_substep(*predict, *pull, *push_out, *velocity, touching, old(rope), final(rope)));
    lemma_substep(*predict, *pull, *push_out, *velocity, touching, old(rope), final(rope));
}

/// A step is as many substeps as the rope is set to, no more and no fewer.
pub proof fn a_step_is_its_substeps<
    P: Fn(Vec3, Vec3) -> (Vec3, Vec3),
    S: Fn(Link) -> Option<Pulled>,
    C: Fn(usize, Vec3) -> Vec3,
    V: Fn(Vec3, Vec3) -> Vec3,
>(rope: &mut Rope, predict: &P, pull: &S, push_out: &C, velocity: &V, touching: bool)
    requires
        call_ensures(
            Rope::step::<P, S, C, V>,
            (rope, predict, pull, push_out, velocity, touching),
            (),
        ),
        old(rope).wf(),
    ensures
        old(rope).substeps == 0 ==> *final(rope) == *old(rope),
        exists|trace: Seq<Rope>|
            #![trigger trace.last()]
            {
                &&& trace.len() == old(rope).substeps + 1
                &&& trace[0] == *old(rope)
                &&& trace.last() == *final(rope)
                &&& forall|k: int|
                    0 <= k < trace.len() - 1 ==> went_one_substep(*predict, *pull, *push_out, *velocity, touching, #[trigger] &trace[k], &trace[k + 1])
            },
{
    let trace = choose|trace: Seq<Rope>|
        trace.len() == old(rope).substeps + 1 && trace[0] == *old(rope) && trace.last()
            == *final(rope) && #[trigger] step_trace(
            *predict,
            *pull,
            *push_out,
            *velocity,
            touching,
            trace,
        );
    lemma_trace(*predict, *pull, *push_out, *velocity, touching, trace, trace.len() as int);
    assert(trace.last() == *final(rope));
}

proof fn lemma_went<
    P: Fn(Vec3, Vec3) -> (Vec3, Vec3),
    S: Fn(Link) -> Option<Pulled>,
    C: Fn(usize, Vec3) -> Vec3,
    V: Fn(Vec3, Vec3) -> Vec3,
>(
    predict: P,
    pull: S,
    push_out: C,
    velocity: V,
    touching: bool,
    before: &Rope,
    after: &Rope,
)
    requires
        before.wf(),
        one_substep(predict, pull, push_out, velocity, touching, before, after),
    ensures
        after.wf(),
        went_one_substep(predict, pull, push_out, velocity, touching, before, after),
{
    reveal(went_one_substep);
    lemma_substep(predict, pull, push_out, velocity, touching, before, after);
}

proof fn lemma_trace<
    P: Fn(Vec3, Vec3) -> (Vec3, Vec3),
    S: Fn(Link) -> Option<Pulled>,
    C: Fn(usize, Vec3) -> Vec3,
    V: Fn(Vec3, Vec3) -> Vec3,
>(predict: P, pull: S, push_out: C, velocity: V, touching: bool, trace: Seq<Rope>, n: int)
    requires
        1 <= n <= trace.len(),
        trace[0].wf(),
        step_trace(predict, pull, push_out, velocity, touching, trace),
    ensures
        trace[n - 1].wf(),
        forall|k: int|
            0 <= k < n - 1 ==> went_one_substep(predict, pull, push_out, velocity, touching, #[trigger] &trace[k], &trace[k + 1]),
    decreases n,
{
    if n > 1 {
        lemma_trace(predict, pull, push_out, velocity, touching, trace, n - 1);
        assert(one_substep(predict, pull, push_out, velocity, touching, &trace[n - 2], &trace[n - 2 + 1]));
        lemma_went(predict, pull, push_out, velocity, touching, &trace[n - 2], &trace[n - 1]);
    }
}

/// A rope through points starts on them, at rest, with its two ends fixed and no other
/// particle; fixing and freeing a particle changes that particle alone.
pub proof fn only_the_ends_are_fixed(
    points: Vec<Vec3>,
    rest_len: Scalar,
    radius: Scalar,
    r: Rope,
    i: int,
)
    requires
        call_ensures(Rope::span, (points, rest_len, radius), r),
        0 <= i < points@.len(),
    ensures
        r.pos@ == points@,
        r.prev@ == points@,
        r.lambda@.len() == points@.len() - 1,
        fixed_at(&r, i) <==> i == 0 || i == points@.len() - 1,
        !fixed_at(&r, i) ==> r.inv_mass@[i].bits == 0x3f80_0000,
        r.vel@[i] == (Vec3 { x: Scalar { bits: 0 }, y: Scalar { bits: 0 }, z: Scalar { bits: 0 } }),
        r.rest_len == rest_len,
        r.radius == radius,
        r.compliance.bits == 0,
        r.substeps == 8,
        r.skin.bits == 0x3c23_d70a,
        r.damping.bits == 0x3f80_0000,
{
    assert(r.inv_mass@[i] == r.inv_mass@[i]);
}

/// Fixing or freeing a particle does so, and changes nothing else.
pub proof fn pinning_changes_one_particle(rope: &mut Rope, i: usize, pinned: bool, j: int)
    requires
        call_ensures(Rope::set_pinned, (rope, i, pinned), ()),
        old(rope).wf(),
        0 <= j < old(rope).pos@.len(),
    ensures
        j == i ==> (fixed_at(final(rope), j) <==> pinned),
        j == i && !pinned ==> final(rope).inv_mass@[j].bits == 0x3f80_0000,
        j != i ==> final(rope).inv_mass@[j] == old(rope).inv_mass@[j],
        final(rope).pos == old(rope).pos,
        final(rope).vel == old(rope).vel,
        final(rope).prev == old(rope).prev,
        final(rope).lambda == old(rope).lambda,
        final(rope).substeps == old(rope).substeps,
{
}

} // verus!
