//! The logic of a rigid-body physics engine, with its behaviour proved.
//!
//! Numbers are carried as the bit patterns of single-precision floats. The library
//! compares and negates them; what takes arithmetic comes in as values or as
//! closures, and the contracts say what becomes of their results.
//!
//! - Values: [`scalar`], [`shape`], [`body`], [`contact`], [`feature`].
//! - Choosing and sorting: [`select`], [`order`], [`reduce`].
//! - Finding contacts: [`narrow`], [`collisions`], [`dispatch`], [`store`],
//!   [`polytope`], [`sat`], [`poly_pair`], [`gjk`], [`epa`], [`cut`].
//! - Terrain: [`terrain`], [`mesh`], [`planes`], [`voxel`], [`voxel_contacts`],
//!   [`extract`], [`fracture`], [`splat`].
//! - Solving contacts: [`union_find`], [`island`], [`group`], [`warm`], [`prepare`],
//!   [`constraint`], [`schedule`], [`relax`], [`contact_solve`], [`locality`],
//!   [`grouping`], [`memory`], [`stillness`], [`sleep`], [`solver`], [`stats`], [`diagnostics`].
//! - Joints, ropes and vehicles: [`joints`], [`joint_solve`], [`rope`], [`vehicle`].
//! - Comparing runs: [`replay`].
//! - What a caller may rely on, stated over inputs and results: [`guarantees`].

pub mod body;
pub mod collisions;
pub mod constraint;
pub mod contact;
pub mod contact_solve;
pub mod cut;
pub mod diagnostics;
pub mod dispatch;
pub mod epa;
pub mod extract;
pub mod feature;
pub mod fracture;
pub mod gjk;
pub mod group;
pub mod grouping;
pub mod guarantees;
pub mod island;
pub mod joint_solve;
pub mod joints;
pub mod locality;
pub mod memory;
pub mod mesh;
pub mod narrow;
pub mod order;
pub mod planes;
pub mod poly_pair;
pub mod polytope;
pub mod prepare;
pub mod reduce;
pub mod relax;
pub mod replay;
pub mod rope;
pub mod sat;
pub mod scalar;
pub mod schedule;
pub mod select;
pub mod shape;
pub mod sleep;
pub mod solver;
pub mod splat;
pub mod stats;
pub mod stillness;
pub mod store;
pub mod terrain;
pub mod union_find;
pub mod vehicle;
pub mod voxel;
pub mod voxel_contacts;
pub mod warm;
