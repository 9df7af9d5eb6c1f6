//! Planning of crane moves for stacking simulations.
//!
//! Each planner takes a snapshot of the simulated world and answers with the
//! moves the cranes should carry out next, or with nothing where there is
//! nothing to send.
//!
//! - [`hotstorage`]: one crane between a production stack, buffers and a
//!   handover; planned by two simple rules or by a bounded search over the
//!   relocations that free the blocks in the order in which they are due.
//! - [`rollingmill`]: two cranes, planned by one rule each.
//! - [`cranescheduling`]: moves that are given to one of two cranes.
//! - [`order`]: the stable order of keys that the planners rank by.

use vstd::prelude::*;

pub mod cranescheduling;
pub mod hotstorage;
pub mod order;
pub mod rollingmill;

verus! {

/// How a hot-storage snapshot is answered.
#[derive(Debug, Clone, Copy)]
pub enum OptimizerType {
    /// A fixed pair of rules, at most one move each.
    RuleBased,
    /// A bounded search over relocation sequences.
    ModelBased,
}

/// The simulation a snapshot belongs to.
#[derive(Debug, Clone, Copy)]
pub enum Problem {
    /// Two cranes feed a rolling mill.
    RollingMill,
    /// One crane empties a production stack and serves a handover.
    Hotstorage,
}

} // verus!
