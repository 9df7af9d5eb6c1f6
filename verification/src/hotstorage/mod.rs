//! Planning for the hot storage: one crane, one production stack, a few
//! buffers and a handover.

pub mod brp;
pub mod heuristic;
pub mod model;
pub mod search;

use crate::hotstorage::model::{CraneMove, CraneSchedule, World};
use crate::OptimizerType;
use vstd::prelude::*;

verus! {

/// The crane follows no schedule at the moment.
pub open spec fn crane_is_idle(world: World) -> bool {
    world.crane.schedule.moves@.len() == 0
}

/// The moves that the chosen planner gives for `world`, where a search
/// looks at no more than `budget` states.
pub open spec fn planned_moves(world: World, opt: OptimizerType, budget: nat) -> Seq<CraneMove> {
    match opt {
        OptimizerType::RuleBased => heuristic::rule_moves(world),
        OptimizerType::ModelBased => brp::scheduled_moves(
            world.handover,
            search::solution(brp::search_start(world), budget),
        ),
    }
}

/// Plans the next moves of the crane with the default search budget.
pub fn plan_moves(world: &World, opt: OptimizerType) -> (result: Option<CraneSchedule>)
    requires
        crane_is_idle(*world) && opt is ModelBased ==> world.spec_is_searchable(),
        crane_is_idle(*world) && planned_moves(*world, opt, search::DEFAULT_BUDGET as nat).len() > 0
            ==> world.crane.schedule.sequence_nr < i32::MAX,
    ensures
        result is Some <==> crane_is_idle(*world) && planned_moves(*world, opt, search::DEFAULT_BUDGET as nat).len()
            > 0,
        result matches Some(schedule) ==> {
            &&& schedule.moves@ == planned_moves(*world, opt, search::DEFAULT_BUDGET as nat)
            &&& schedule.sequence_nr == world.crane.schedule.sequence_nr + 1
        },
{
    plan_moves_within(world, opt, search::DEFAULT_BUDGET)
}

/// Plans the next moves of the crane. There is nothing to send while the
/// crane still follows a schedule, or where the planner finds no move.
/// Otherwise the new schedule carries the moves of the chosen planner and
/// the number after that of the crane's last schedule. A search looks at no
/// more than `budget` states; the rules take no notice of the budget.
pub fn plan_moves_within(world: &World, opt: OptimizerType, budget: usize) -> (result: Option<CraneSchedule>)
    requires
        crane_is_idle(*world) && opt is ModelBased ==> world.spec_is_searchable(),
        crane_is_idle(*world) && planned_moves(*world, opt, budget as nat).len() > 0 ==> world.crane.schedule.sequence_nr
            < i32::MAX,
    ensures
        result is Some <==> crane_is_idle(*world) && planned_moves(*world, opt, budget as nat).len() > 0,
        result matches Some(schedule) ==> {
            &&& schedule.moves@ == planned_moves(*world, opt, budget as nat)
            &&& schedule.sequence_nr == world.crane.schedule.sequence_nr + 1
        },
{
    if world.crane.schedule.moves.len() > 0 {
        return None;
    }
    let mut schedule = match opt {
        OptimizerType::RuleBased => heuristic::next_moves(world),
        OptimizerType::ModelBased => brp::calculate_schedule_within(world, budget),
    };
    if schedule.moves.len() == 0 {
        None
    } else {
        schedule.sequence_nr = world.crane.schedule.sequence_nr + 1;
        Some(schedule)
    }
}

} // verus!
