//! quack-nav: where the duck is, and how it gets somewhere else.

use vstd::prelude::*;

pub mod clearance;
pub mod cliff;
pub mod config;
pub mod explore;
pub mod frontier;
pub mod grid_index;
pub mod homecoming;
pub mod map;
pub mod mapd;
pub mod queue;
pub mod wire;
pub mod words;

verus! {

} // verus!
