//! What the operations promise, stated of the operations themselves.
//!
//! Each law takes a call as its premise: for every input and every result that the
//! contract of the operation allows, it says how the two are related in terms of the
//! values that go in and come out.

pub mod cache;
pub mod choosing;
pub mod contacts;
pub mod convex;
pub mod cutting;
pub mod ground;
pub mod islands;
pub mod joints;
pub mod meshes;
pub mod pairs;
pub mod phases;
pub mod points;
pub mod polytopes;
pub mod records;
pub mod ropes;
pub mod schedule;
pub mod shapes;
pub mod sleeping;
pub mod solves;
pub mod solving;
pub mod stores;
pub mod sweeps;
pub mod values;
pub mod voxels;
