//! Planning for the rolling mill: a crane that serves the mill and a crane
//! that clears the arrival stacks.

pub mod heuristic;
pub mod model;

use crate::rollingmill::model::{PlannedCraneMoves, World};
use vstd::prelude::*;

verus! {

/// Plans the next moves of the two cranes. The plan carries the number
/// after that of the moves planned before; there is nothing to send where
/// no crane gets a move.
pub fn plan_moves(world: &World) -> (result: Option<PlannedCraneMoves>)
    requires
        world.spec_can_be_planned(),
        world.crane_moves.sequence_nr < i32::MAX,
    ensures
        result is Some <==> heuristic::planned_moves(*world).len() > 0,
        result matches Some(plan) ==> {
            &&& plan.moves@ == heuristic::planned_moves(*world)
            &&& plan.sequence_nr == world.crane_moves.sequence_nr + 1
        },
{
    let mut planned_moves = heuristic::next_moves(world);
    planned_moves.sequence_nr = world.crane_moves.sequence_nr + 1;
    if planned_moves.moves.len() == 0 {
        None
    } else {
        Some(planned_moves)
    }
}

} // verus!
