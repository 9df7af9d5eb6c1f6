use crane_planner::hotstorage::brp::{
    calculate_schedule, calculate_schedule_within, collect_blocks, create_schedule_from_solution,
    prioritize_by_due_date, BrpState, Move, DEFAULT_PRIORITY, MAX_MOVES,
};
use crane_planner::hotstorage::model::{
    Block, Crane, CraneMove, CraneSchedule, Handover, Stack, World,
};
use crane_planner::hotstorage::{plan_moves, plan_moves_within};
use crane_planner::hotstorage::search::{
    depth_first_search, depth_first_search_within, DEFAULT_BUDGET,
};
use crane_planner::OptimizerType;
use std::collections::HashMap;

const A: i32 = 10;
const B: i32 = 11;
const C: i32 = 12;
const D: i32 = 13;

fn block(id: i32, due: i64) -> Block {
    Block { id, due, ready: false }
}

fn stack(id: i32, max_height: i32, blocks: Vec<Block>) -> Stack {
    Stack { id, max_height, bottom_to_top: blocks }
}

/// A world with an empty production stack that takes no block, the given
/// buffers numbered from one, and the handover behind them.
fn world(buffers: Vec<(i32, Vec<Block>)>, handover_ready: bool) -> World {
    let handover_id = buffers.len() as i32 + 1;
    let buffers = buffers
        .into_iter()
        .enumerate()
        .map(|(i, (max_height, blocks))| stack(i as i32 + 1, max_height, blocks))
        .collect();
    World {
        production: stack(0, 0, vec![]),
        buffers,
        handover: Handover { id: handover_id, ready: handover_ready },
        crane: Crane { schedule: CraneSchedule { moves: vec![], sequence_nr: 0 } },
    }
}

fn mv(src: i32, tgt: i32, block: i32) -> Move {
    Move { src, tgt, block }
}

fn crane_move(block_id: i32, source_id: i32, target_id: i32) -> CraneMove {
    CraneMove { block_id, source_id, target_id }
}

fn forced(state: &BrpState) -> Vec<Move> {
    let mut moves = vec![mv(-1, -1, -1)];
    state.forced_moves(&mut moves);
    moves
}

fn heights(state: &BrpState) -> Vec<usize> {
    state.stacks().iter().map(|s| s.blocks.len()).collect()
}

fn start(world: &World) -> BrpState {
    BrpState::new(world, prioritize_by_due_date(world))
}

#[test]
fn priorities_follow_due_times() {
    let w = world(vec![(2, vec![block(A, 5), block(B, 1)])], true);
    let table = prioritize_by_due_date(&w);
    assert_eq!(table.len(), 2);
    assert_eq!(table[&B], 0);
    assert_eq!(table[&A], 1);
}

#[test]
fn priorities_rank_production_before_buffers_on_ties() {
    let mut w = world(vec![(3, vec![block(A, 7), block(B, 7)]), (3, vec![block(C, 2)])], true);
    w.production = stack(0, 4, vec![block(D, 7)]);
    let table = prioritize_by_due_date(&w);
    assert_eq!(table[&C], 0);
    assert_eq!(table[&D], 1);
    assert_eq!(table[&A], 2);
    assert_eq!(table[&B], 3);
}

#[test]
fn priorities_of_a_shared_identifier_take_the_highest_rank() {
    let w = world(vec![(4, vec![block(A, 9), block(B, 3), block(A, 1)])], true);
    let table = prioritize_by_due_date(&w);
    assert_eq!(table.len(), 2);
    assert_eq!(table[&A], 2);
    assert_eq!(table[&B], 1);
}

#[test]
fn priorities_are_the_same_on_every_run() {
    let w = world(
        vec![(4, vec![block(A, 4), block(B, 4), block(C, -3)]), (4, vec![block(D, 4)])],
        true,
    );
    assert_eq!(prioritize_by_due_date(&w), prioritize_by_due_date(&w));
}

#[test]
fn priorities_of_an_empty_world_are_empty() {
    let w = world(vec![(2, vec![])], true);
    assert!(prioritize_by_due_date(&w).is_empty());
}

#[test]
fn collected_blocks_start_with_the_production_stack() {
    let mut w = world(vec![(3, vec![block(A, 1)]), (3, vec![block(B, 2), block(C, 3)])], true);
    w.production = stack(0, 4, vec![block(D, 0)]);
    let ids: Vec<i32> = collect_blocks(&w).iter().map(|b| b.id).collect();
    assert_eq!(ids, vec![D, A, B, C]);
}

#[test]
fn unlisted_blocks_get_the_default_priority() {
    let w = world(vec![(2, vec![block(A, 5), block(B, 1)])], true);
    let mut table = HashMap::new();
    table.insert(A, 7u32);
    let state = BrpState::new(&w, table);
    let blocks = &state.stacks()[1].blocks;
    assert_eq!((blocks[0].id, blocks[0].prio), (A, 7));
    assert_eq!((blocks[1].id, blocks[1].prio), (B, DEFAULT_PRIORITY));
    assert_eq!(DEFAULT_PRIORITY, 10000);
}

#[test]
fn new_state_lists_production_then_buffers() {
    let mut w = world(vec![(2, vec![block(A, 5)]), (-1, vec![])], true);
    w.production = stack(0, 4, vec![block(B, 1)]);
    let state = start(&w);
    let stacks = state.stacks();
    assert_eq!(stacks.len(), 3);
    assert_eq!((stacks[0].id, stacks[0].max_height), (0, 4));
    assert_eq!((stacks[1].id, stacks[1].max_height), (1, 2));
    assert_eq!((stacks[2].id, stacks[2].max_height), (2, usize::MAX));
    assert_eq!(heights(&state), vec![1, 1, 0]);
    assert!(state.into_moves().is_empty());
}

#[test]
fn top_and_most_urgent_of_a_stack() {
    let w = world(vec![(4, vec![block(A, 5), block(B, 1), block(C, 1), block(D, 9)]), (4, vec![])], true);
    let state = start(&w);
    let full = &state.stacks()[1];
    assert_eq!(full.top().map(|b| b.id), Some(D));
    assert_eq!(full.most_urgent().map(|b| (b.id, b.prio)), Some((B, 0)));
    let empty = &state.stacks()[2];
    assert!(empty.top().is_none());
    assert!(empty.most_urgent().is_none());
}

#[test]
fn most_urgent_of_equal_priorities_is_the_lowest_block() {
    let w = world(vec![(4, vec![block(A, 5), block(B, 1), block(C, 3)])], true);
    let state = BrpState::new(&w, HashMap::new());
    let found = state.stacks()[1].most_urgent().map(|b| b.id);
    assert_eq!(found, Some(A));
}

#[test]
fn urgent_block_on_top_goes_to_the_handover() {
    let w = world(vec![(2, vec![block(A, 5), block(B, 1)])], true);
    let state = start(&w);
    assert!(!state.is_solved());
    assert_eq!(forced(&state), vec![mv(1, 2, B)]);
    let schedule = calculate_schedule(&w);
    assert_eq!(schedule.moves, vec![crane_move(B, 1, 2), crane_move(A, 1, 2)]);
    assert_eq!(schedule.sequence_nr, 0);
}

#[test]
fn buried_urgent_block_is_freed_first() {
    let w = world(vec![(2, vec![block(B, 1), block(A, 5)]), (2, vec![])], true);
    let state = start(&w);
    assert_eq!(forced(&state), vec![mv(1, 2, A)]);
    let solution = depth_first_search(start(&w));
    assert_eq!(solution, vec![mv(1, 2, A), mv(1, 3, B), mv(2, 3, A)]);
    let schedule = calculate_schedule(&w);
    assert_eq!(
        schedule.moves,
        vec![crane_move(A, 1, 2), crane_move(B, 1, 3), crane_move(A, 2, 3)]
    );
}

#[test]
fn empty_stacks_are_solved_at_once() {
    let w = world(vec![(2, vec![]), (2, vec![])], true);
    let state = start(&w);
    assert!(state.is_solved());
    assert!(forced(&state).is_empty());
    assert!(depth_first_search(start(&w)).is_empty());
    assert!(calculate_schedule(&w).moves.is_empty());
    assert!(plan_moves(&w, OptimizerType::ModelBased).is_none());
    assert!(plan_moves(&w, OptimizerType::RuleBased).is_none());
}

#[test]
fn full_stack_without_a_free_neighbour_is_a_dead_end() {
    let w = world(vec![(2, vec![block(B, 1), block(A, 5)]), (1, vec![block(C, 9)])], true);
    let state = start(&w);
    assert!(!state.is_solved());
    assert!(forced(&state).is_empty());
    assert!(depth_first_search(start(&w)).is_empty());
    assert!(calculate_schedule(&w).moves.is_empty());
    assert!(plan_moves(&w, OptimizerType::ModelBased).is_none());
}

#[test]
fn relocations_go_to_every_other_stack_with_room() {
    let mut w = world(
        vec![
            (3, vec![block(B, 1), block(A, 5)]),
            (1, vec![block(C, 7)]),
            (2, vec![block(D, 8)]),
            (-5, vec![]),
        ],
        true,
    );
    w.production = stack(0, 1, vec![]);
    let state = start(&w);
    assert_eq!(forced(&state), vec![mv(1, 0, A), mv(1, 3, A), mv(1, 4, A)]);
}

#[test]
fn target_is_the_first_stack_with_the_lowest_priority() {
    let w = world(vec![(3, vec![block(A, 5)]), (3, vec![block(B, 5)])], true);
    let state = BrpState::new(&w, HashMap::new());
    assert_eq!(forced(&state), vec![mv(1, 3, A)]);
}

#[test]
fn forced_moves_name_the_top_of_their_source() {
    let w = world(
        vec![(3, vec![block(B, 1), block(A, 5), block(C, 6)]), (3, vec![block(D, 2)]), (3, vec![])],
        true,
    );
    let state = start(&w);
    let moves = forced(&state);
    assert_eq!(moves, vec![mv(1, 2, C), mv(1, 3, C)]);
    for m in moves {
        let source = &state.stacks()[state.find_stack(m.src()).unwrap()];
        assert_eq!(source.id, m.src());
        assert_eq!(source.top().map(|b| b.id), Some(m.block()));
    }
}

#[test]
fn apply_move_relocates_the_top_block() {
    let w = world(vec![(2, vec![block(B, 1), block(A, 5)]), (2, vec![block(C, 9)])], true);
    let state = start(&w);
    let next = state.apply_move(mv(1, 2, A));
    assert_eq!(heights(&state), vec![0, 2, 1]);
    assert_eq!(heights(&next), vec![0, 1, 2]);
    let ids: Vec<i32> = next.stacks()[2].blocks.iter().map(|b| b.id).collect();
    assert_eq!(ids, vec![C, A]);
    assert_eq!(next.stacks()[2].blocks[1].prio, 1);
    assert_eq!(next.stacks()[1].top().map(|b| b.id), Some(B));
    assert_eq!(next.into_moves(), vec![mv(1, 2, A)]);
    assert!(state.into_moves().is_empty());
}

#[test]
fn apply_move_hands_the_block_over() {
    let w = world(vec![(2, vec![block(A, 5), block(B, 1)])], true);
    let state = start(&w);
    let next = state.apply_move(mv(1, 2, B));
    assert_eq!(heights(&next), vec![0, 1]);
    let last = next.apply_move(mv(1, 2, A));
    assert!(last.is_solved());
    assert_eq!(last.into_moves(), vec![mv(1, 2, B), mv(1, 2, A)]);
}

#[test]
fn apply_move_onto_the_same_stack_changes_no_stack() {
    let w = world(vec![(2, vec![block(A, 5), block(B, 1)])], true);
    let state = start(&w);
    let next = state.apply_move(mv(1, 1, B));
    let ids: Vec<i32> = next.stacks()[1].blocks.iter().map(|b| b.id).collect();
    assert_eq!(ids, vec![A, B]);
    assert_eq!(next.into_moves(), vec![mv(1, 1, B)]);
}

#[test]
fn capacity_holds_along_a_solution() {
    let w = world(
        vec![
            (3, vec![block(A, 1), block(B, 4), block(C, 3)]),
            (2, vec![block(D, 2)]),
            (1, vec![]),
        ],
        true,
    );
    let solution = depth_first_search(start(&w));
    assert!(!solution.is_empty());
    let mut state = start(&w);
    for m in solution {
        assert!(forced(&state).contains(&m));
        state = state.apply_move(m);
        for s in state.stacks() {
            assert!(s.blocks.len() <= s.max_height);
        }
    }
    assert!(state.is_solved());
}

#[test]
fn search_keeps_the_first_of_the_shortest_solutions() {
    let w = world(
        vec![(2, vec![block(B, 1), block(A, 5)]), (1, vec![]), (1, vec![])],
        true,
    );
    let solution = depth_first_search(start(&w));
    assert_eq!(solution, vec![mv(1, 3, A), mv(1, 4, B), mv(3, 4, A)]);
}

#[test]
fn search_without_budget_finds_nothing() {
    let w = world(vec![(2, vec![])], true);
    assert!(depth_first_search_within(start(&w), 0).is_empty());
    let w = world(vec![(2, vec![block(A, 5), block(B, 1)])], true);
    assert!(depth_first_search_within(start(&w), 0).is_empty());
}

#[test]
fn search_stops_when_the_budget_is_spent() {
    let w = world(vec![(2, vec![block(A, 5), block(B, 1)])], true);
    assert!(depth_first_search_within(start(&w), 2).is_empty());
    assert_eq!(depth_first_search_within(start(&w), 3), vec![mv(1, 2, B), mv(1, 2, A)]);
    assert_eq!(DEFAULT_BUDGET, 10000);
}

#[test]
fn larger_budget_gives_no_longer_solution() {
    let w = world(
        vec![
            (3, vec![block(A, 1), block(B, 4), block(C, 3)]),
            (3, vec![block(D, 2)]),
            (3, vec![]),
        ],
        true,
    );
    let mut shortest: Option<usize> = None;
    for budget in 0..60 {
        let found = depth_first_search_within(start(&w), budget);
        if let Some(len) = shortest {
            assert!(!found.is_empty());
            assert!(found.len() <= len);
        }
        if !found.is_empty() {
            shortest = Some(found.len());
        }
    }
    assert!(shortest.is_some());
}

#[test]
fn schedule_holds_three_moves_at_most() {
    let w = world(vec![(5, vec![])], true);
    let moves = vec![mv(1, 0, A), mv(0, 1, A), mv(1, 0, A), mv(0, 1, A), mv(1, 2, A)];
    let schedule = create_schedule_from_solution(&w, moves);
    assert_eq!(
        schedule.moves,
        vec![crane_move(A, 1, 0), crane_move(A, 0, 1), crane_move(A, 1, 0)]
    );
    assert_eq!(MAX_MOVES, 3);
    assert_eq!(schedule.sequence_nr, 0);
}

#[test]
fn schedule_of_no_moves_is_empty() {
    let w = world(vec![(5, vec![])], false);
    assert!(create_schedule_from_solution(&w, vec![]).moves.is_empty());
}

#[test]
fn schedule_stops_before_a_handover_that_is_not_ready() {
    let w = world(vec![(5, vec![]), (5, vec![])], false);
    let moves = vec![mv(1, 2, A), mv(1, 3, B), mv(2, 1, A)];
    let schedule = create_schedule_from_solution(&w, moves);
    assert_eq!(schedule.moves, vec![crane_move(A, 1, 2)]);
    let first = vec![mv(1, 3, B), mv(1, 2, A)];
    assert!(create_schedule_from_solution(&w, first).moves.is_empty());
}

#[test]
fn schedule_passes_handover_moves_when_it_is_ready() {
    let w = world(vec![(5, vec![]), (5, vec![])], true);
    let moves = vec![mv(1, 2, A), mv(1, 3, B)];
    let schedule = create_schedule_from_solution(&w, moves);
    assert_eq!(schedule.moves, vec![crane_move(A, 1, 2), crane_move(B, 1, 3)]);
}

#[test]
fn calculated_schedule_waits_for_the_handover() {
    let w = world(vec![(2, vec![block(B, 1), block(A, 5)]), (2, vec![])], false);
    let schedule = calculate_schedule(&w);
    assert_eq!(schedule.moves, vec![crane_move(A, 1, 2)]);
    let w = world(vec![(2, vec![block(A, 5), block(B, 1)])], false);
    assert!(calculate_schedule(&w).moves.is_empty());
    assert!(plan_moves(&w, OptimizerType::ModelBased).is_none());
}

#[test]
fn calculated_schedule_depends_on_the_budget() {
    let w = world(vec![(2, vec![block(A, 5), block(B, 1)])], true);
    assert!(calculate_schedule_within(&w, 2).moves.is_empty());
    assert_eq!(
        calculate_schedule_within(&w, 3).moves,
        vec![crane_move(B, 1, 2), crane_move(A, 1, 2)]
    );
}

#[test]
fn plan_takes_the_next_sequence_number() {
    let mut w = world(vec![(2, vec![block(A, 5), block(B, 1)])], true);
    w.crane.schedule.sequence_nr = 41;
    let schedule = plan_moves(&w, OptimizerType::ModelBased).unwrap();
    assert_eq!(schedule.sequence_nr, 42);
    assert_eq!(schedule.moves, vec![crane_move(B, 1, 2), crane_move(A, 1, 2)]);
}

#[test]
fn plan_leaves_a_running_schedule_alone() {
    let mut w = world(vec![(2, vec![block(A, 5), block(B, 1)])], true);
    w.crane.schedule.moves.push(crane_move(A, 1, 2));
    assert!(plan_moves(&w, OptimizerType::ModelBased).is_none());
    assert!(plan_moves(&w, OptimizerType::RuleBased).is_none());
}

#[test]
fn searchable_worlds_give_every_stack_an_identifier_of_its_own() {
    let w = world(vec![(2, vec![block(A, 5)]), (2, vec![])], true);
    assert!(w.has_distinct_ids());
    assert!(w.is_searchable());
    let mut shifted = world(vec![(2, vec![block(A, 5)]), (2, vec![])], true);
    shifted.production.id = 70;
    shifted.buffers[0].id = -4;
    shifted.buffers[1].id = 12;
    assert!(shifted.is_searchable());
    let mut twice = world(vec![(2, vec![block(A, 5)]), (2, vec![])], true);
    twice.buffers[1].id = 1;
    assert!(!twice.has_distinct_ids());
    assert!(!twice.is_searchable());
    let mut production = world(vec![(2, vec![])], true);
    production.production.id = 1;
    assert!(!production.is_searchable());
    let mut handover = world(vec![(2, vec![]), (2, vec![])], true);
    handover.handover.id = 2;
    assert!(!handover.is_searchable());
    handover.handover.id = 0;
    assert!(!handover.is_searchable());
}

/// A world whose stacks carry the given identifiers, the production stack
/// first; it takes no block.
fn world_with_ids(production: i32, buffers: Vec<(i32, i32, Vec<Block>)>, handover: i32) -> World {
    World {
        production: stack(production, 0, vec![]),
        buffers: buffers.into_iter().map(|(id, max_height, blocks)| stack(id, max_height, blocks)).collect(),
        handover: Handover { id: handover, ready: true },
        crane: Crane { schedule: CraneSchedule { moves: vec![], sequence_nr: 0 } },
    }
}

#[test]
fn empty_world_with_any_identifiers_has_an_empty_schedule() {
    let w = world_with_ids(7, vec![], 3);
    assert!(w.is_searchable());
    assert!(calculate_schedule(&w).moves.is_empty());
    assert!(plan_moves(&w, OptimizerType::ModelBased).is_none());
}

#[test]
fn moves_name_stacks_by_their_identifiers() {
    let mut w = world_with_ids(5, vec![], 7);
    w.production.bottom_to_top.push(block(9, 1));
    let state = start(&w);
    assert_eq!(forced(&state), vec![mv(5, 7, 9)]);
    assert_eq!(state.find_stack(5), Some(0));
    assert_eq!(state.find_stack(0), None);
    assert!(state.can_apply(mv(5, 7, 9)));
    let next = state.apply_move(mv(5, 7, 9));
    assert!(next.is_solved());
    assert_eq!(depth_first_search(start(&w)), vec![mv(5, 7, 9)]);
    assert_eq!(calculate_schedule(&w).moves, vec![crane_move(9, 5, 7)]);
}

#[test]
fn a_move_from_a_stack_that_is_named_wrongly_cannot_be_applied() {
    let mut w = world_with_ids(1, vec![(0, 3, vec![])], 5);
    w.production.bottom_to_top.push(block(9, 1));
    let state = start(&w);
    assert!(!state.can_apply(mv(0, 5, 9)));
    assert!(!state.can_apply(mv(2, 5, 9)));
    assert!(!state.can_apply(mv(1, 5, 8)));
    assert!(!state.can_apply(mv(1, 4, 9)));
    assert!(state.can_apply(mv(1, 5, 9)));
    assert!(state.can_apply(mv(1, 0, 9)));
    let next = state.apply_move(mv(1, 0, 9));
    assert_eq!(heights(&next), vec![0, 1]);
    assert_eq!(next.stacks()[1].id, 0);
    assert_eq!(next.stacks()[1].top().map(|b| b.id), Some(9));
}

#[test]
fn a_move_onto_a_full_stack_cannot_be_applied() {
    let w = world_with_ids(
        40,
        vec![(30, 2, vec![block(B, 1), block(A, 5)]), (20, 1, vec![block(C, 9)]), (10, 2, vec![block(D, 8)])],
        0,
    );
    let state = start(&w);
    assert!(!state.can_apply(mv(30, 20, A)));
    assert!(!state.can_apply(mv(30, 40, A)));
    assert!(state.can_apply(mv(30, 10, A)));
    assert!(state.can_apply(mv(30, 30, A)));
    assert!(state.can_apply(mv(30, 0, A)));
    assert_eq!(forced(&state), vec![mv(30, 10, A)]);
}

#[test]
fn search_works_with_identifiers_in_any_order() {
    let w = world_with_ids(
        40,
        vec![(30, 2, vec![block(B, 1), block(A, 5)]), (20, 1, vec![block(C, 9)]), (10, 2, vec![])],
        -1,
    );
    let solution = depth_first_search(start(&w));
    assert_eq!(solution, vec![mv(30, 10, A), mv(30, -1, B), mv(10, -1, A), mv(20, -1, C)]);
    let mut state = start(&w);
    for m in solution {
        assert!(forced(&state).contains(&m));
        assert!(state.can_apply(m));
        state = state.apply_move(m);
        for s in state.stacks() {
            assert!(s.blocks.len() <= s.max_height);
        }
    }
    assert!(state.is_solved());
    assert_eq!(
        calculate_schedule(&w).moves,
        vec![crane_move(A, 30, 10), crane_move(B, 30, -1), crane_move(A, 10, -1)]
    );
}

#[test]
fn complete_search_finds_the_shortest_way() {
    let w = world(
        vec![(3, vec![block(B, 1), block(A, 5), block(C, 9)]), (2, vec![]), (2, vec![block(D, 0)])],
        true,
    );
    let all = depth_first_search_within(start(&w), 10000);
    assert_eq!(all.len(), 6);
    assert_eq!(depth_first_search_within(start(&w), 100000), all);
    assert_eq!(all[0], mv(3, 4, D));
}

#[test]
fn cloned_state_is_a_state_of_its_own() {
    let w = world(vec![(2, vec![block(B, 1), block(A, 5)]), (2, vec![block(C, 9)])], true);
    let state = start(&w);
    let copy = state.clone();
    let next = state.apply_move(mv(1, 2, A));
    assert_eq!(heights(&copy), vec![0, 2, 1]);
    assert_eq!(heights(&next), vec![0, 1, 2]);
    assert_eq!(forced(&copy), forced(&state));
    let stack = copy.stacks()[1].clone();
    assert_eq!((stack.id, stack.max_height, stack.blocks.len()), (1, 2, 2));
    assert!(!stack.has_spare_capacity());
    assert!(copy.stacks()[2].has_spare_capacity());
}

#[test]
fn plan_depends_on_the_budget_of_the_search_only() {
    let mut w = world(vec![(2, vec![block(A, 5), block(B, 1)])], true);
    w.production = stack(0, 0, vec![block(C, 9)]);
    w.buffers[0].bottom_to_top[1].ready = true;
    assert!(plan_moves_within(&w, OptimizerType::ModelBased, 3).is_none());
    let found = plan_moves_within(&w, OptimizerType::ModelBased, 4).unwrap();
    assert_eq!(found.moves, vec![crane_move(B, 1, 2), crane_move(A, 1, 2), crane_move(C, 0, 2)]);
    assert_eq!(found.sequence_nr, 1);
    let ruled = plan_moves_within(&w, OptimizerType::RuleBased, 0).unwrap();
    assert_eq!(ruled.moves, vec![crane_move(B, 1, 2)]);
}
