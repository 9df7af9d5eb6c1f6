//! Two rules that plan without looking ahead: hand over a block that is
//! ready, and clear the production stack.

use crate::hotstorage::model::{CraneMove, CraneSchedule, Stack, World};
use vstd::prelude::*;

verus! {

/// The block on top of the stack would be taken by the handover.
pub open spec fn offers_ready_block(stack: Stack) -> bool {
    stack.bottom_to_top@.len() > 0 && stack.bottom_to_top@.last().ready
}

/// The buffer at position `k` is the first whose top block is ready.
pub open spec fn is_first_offering(buffers: Seq<Stack>, k: int) -> bool {
    &&& 0 <= k < buffers.len()
    &&& offers_ready_block(buffers[k])
    &&& forall|j: int| 0 <= j < k ==> !offers_ready_block(#[trigger] buffers[j])
}

/// The buffer at position `k` is the first with room for a block.
pub open spec fn is_first_with_room(buffers: Seq<Stack>, k: int) -> bool {
    &&& 0 <= k < buffers.len()
    &&& buffers[k].spec_has_room()
    &&& forall|j: int| 0 <= j < k ==> !(#[trigger] buffers[j]).spec_has_room()
}

/// The move that hands over the top block of the first buffer that offers a
/// ready one, if the handover is ready and there is such a buffer.
pub open spec fn handover_move(world: World) -> Option<CraneMove> {
    if world.handover.ready && exists|k: int| is_first_offering(world.buffers@, k) {
        let stack = world.buffers@[choose|k: int| is_first_offering(world.buffers@, k)];
        Some(
            CraneMove {
                block_id: stack.bottom_to_top@.last().id,
                source_id: stack.id,
                target_id: world.handover.id,
            },
        )
    } else {
        None
    }
}

/// The move that puts the top block of the production stack onto the first
/// buffer with room, if there is such a block and such a buffer.
pub open spec fn clearing_move(world: World) -> Option<CraneMove> {
    if world.production.bottom_to_top@.len() > 0 && exists|k: int| is_first_with_room(world.buffers@, k) {
        let free = world.buffers@[choose|k: int| is_first_with_room(world.buffers@, k)];
        Some(
            CraneMove {
                block_id: world.production.bottom_to_top@.last().id,
                source_id: world.production.id,
                target_id: free.id,
            },
        )
    } else {
        None
    }
}

/// `moves` with one more move behind them, where there is one.
pub open spec fn extended(moves: Seq<CraneMove>, mov: Option<CraneMove>) -> Seq<CraneMove> {
    match mov {
        Some(m) => moves.push(m),
        None => moves,
    }
}

/// The moves that the two rules give: the handover move, then the clearing
/// move, as far as there are such moves.
pub open spec fn rule_moves(world: World) -> Seq<CraneMove> {
    extended(extended(Seq::empty(), handover_move(world)), clearing_move(world))
}

/// The schedule that the two rules give.
pub fn next_moves(world: &World) -> (schedule: CraneSchedule)
    ensures
        schedule.moves@ == rule_moves(*world),
        schedule.sequence_nr == 0,
        schedule.moves@.len() <= 2,
{
    let mut schedule = CraneSchedule::new();
    any_handover_move(world, &mut schedule);
    clear_production_stack(world, &mut schedule);
    schedule
}

/// If the handover is ready and a buffer has a ready block on top, schedules
/// the move of the first such block to the handover.
pub fn any_handover_move(world: &World, schedule: &mut CraneSchedule)
    ensures
        final(schedule).moves@ == extended(old(schedule).moves@, handover_move(*world)),
        final(schedule).sequence_nr == old(schedule).sequence_nr,
{
    if !world.handover.ready {
        return ;
    }
    let n: usize = world.buffers.len();
    let mut k: usize = 0;
    while k < n
        invariant
            n == world.buffers.len(),
            k <= n,
            world.handover.ready,
            schedule.moves@ == old(schedule).moves@,
            schedule.sequence_nr == old(schedule).sequence_nr,
            forall|j: int| 0 <= j < k ==> !offers_ready_block(#[trigger] world.buffers[j]),
        decreases n - k,
    {
        let stack = &world.buffers[k];
        let height: usize = stack.bottom_to_top.len();
        if height > 0 && stack.bottom_to_top[height - 1].ready {
            proof {
                assert(is_first_offering(world.buffers@, k as int));
                let chosen = choose|c: int| is_first_offering(world.buffers@, c);
                assert(chosen == k);
            }
            schedule.moves.push(
                CraneMove {
                    block_id: stack.bottom_to_top[height - 1].id,
                    source_id: stack.id,
                    target_id: world.handover.id,
                },
            );
            return ;
        }
        k = k + 1;
    }
}

/// If the production stack holds a block and a buffer has room, schedules
/// the move of the top block onto the first such buffer.
pub fn clear_production_stack(world: &World, schedule: &mut CraneSchedule)
    ensures
        final(schedule).moves@ == extended(old(schedule).moves@, clearing_move(*world)),
        final(schedule).sequence_nr == old(schedule).sequence_nr,
{
    let height: usize = world.production.bottom_to_top.len();
    if height == 0 {
        return ;
    }
    let n: usize = world.buffers.len();
    let mut k: usize = 0;
    while k < n
        invariant
            n == world.buffers.len(),
            k <= n,
            height == world.production.bottom_to_top.len(),
            height > 0,
            schedule.moves@ == old(schedule).moves@,
            schedule.sequence_nr == old(schedule).sequence_nr,
            forall|j: int| 0 <= j < k ==> !(#[trigger] world.buffers[j]).spec_has_room(),
        decreases n - k,
    {
        let free = &world.buffers[k];
        if free.has_room() {
            proof {
                assert(is_first_with_room(world.buffers@, k as int));
                let chosen = choose|c: int| is_first_with_room(world.buffers@, c);
                assert(chosen == k);
            }
            schedule.moves.push(
                CraneMove {
                    block_id: world.production.bottom_to_top[height - 1].id,
                    source_id: world.production.id,
                    target_id: free.id,
                },
            );
            return ;
        }
        k = k + 1;
    }
}

} // verus!
