//! Bodies, one array per attribute.

use crate::scalar::{Quat, Scalar, Vec3};
use vstd::prelude::*;

verus! {

/// The bodies of a scene. Body `i` owns entry `i` of every array; a body that
/// is not dynamic never moves.
pub struct BodySet {
    pub dynamic: Vec<bool>,
    pub awake: Vec<bool>,
    pub position: Vec<Vec3>,
    pub rotation: Vec<Quat>,
    pub linvel: Vec<Vec3>,
    pub angvel: Vec<Vec3>,
    pub sleep_timer: Vec<Scalar>,
}

impl BodySet {
    /// All arrays have one length, which fits the index type.
    pub open spec fn wf(&self) -> bool {
        &&& self.dynamic@.len() <= u32::MAX
        &&& self.awake@.len() == self.dynamic@.len()
        &&& self.position@.len() == self.dynamic@.len()
        &&& self.rotation@.len() == self.dynamic@.len()
        &&& self.linvel@.len() == self.dynamic@.len()
        &&& self.angvel@.len() == self.dynamic@.len()
        &&& self.sleep_timer@.len() == self.dynamic@.len()
    }

    /// How many bodies there are.
    pub open spec fn count(&self) -> nat {
        self.dynamic@.len()
    }

    /// Whether body `i` is dynamic and awake.
    pub open spec fn active(&self, i: int) -> bool {
        self.dynamic@[i] && self.awake@[i]
    }

    /// Whether body `i` is dynamic and asleep.
    pub open spec fn dormant(&self, i: int) -> bool {
        self.dynamic@[i] && !self.awake@[i]
    }

    /// No bodies.
    pub fn new() -> (r: BodySet)
        ensures
            r.wf(),
            r.count() == 0,
    {
        BodySet {
            dynamic: Vec::new(),
            awake: Vec::new(),
            position: Vec::new(),
            rotation: Vec::new(),
            linvel: Vec::new(),
            angvel: Vec::new(),
            sleep_timer: Vec::new(),
        }
    }

    /// Adds a body at rest, awake, and returns its index.
    pub fn push(&mut self, dynamic: bool, position: Vec3, rotation: Quat) -> (id: u32)
        requires
            old(self).wf(),
            old(self).count() < u32::MAX,
        ensures
            final(self).wf(),
            id == old(self).count(),
            final(self).dynamic@ == old(self).dynamic@.push(dynamic),
            final(self).awake@ == old(self).awake@.push(true),
            final(self).position@ == old(self).position@.push(position),
            final(self).rotation@ == old(self).rotation@.push(rotation),
            final(self).linvel@ == old(self).linvel@.push(Vec3::zero_spec()),
            final(self).angvel@ == old(self).angvel@.push(Vec3::zero_spec()),
            final(self).sleep_timer@ == old(self).sleep_timer@.push(Scalar::zero_spec()),
    {
        let id: u32 = self.dynamic.len() as u32;
        self.dynamic.push(dynamic);
        self.awake.push(true);
        self.position.push(position);
        self.rotation.push(rotation);
        self.linvel.push(Vec3::zero());
        self.angvel.push(Vec3::zero());
        self.sleep_timer.push(Scalar::zero());
        id
    }

    /// How many bodies there are.
    pub fn len(&self) -> (n: usize)
        ensures
            n == self.count(),
    {
        self.dynamic.len()
    }
}

} // verus!
