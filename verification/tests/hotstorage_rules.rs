use crane_planner::hotstorage::heuristic::{any_handover_move, clear_production_stack, next_moves};
use crane_planner::hotstorage::model::{
    Block, Crane, CraneMove, CraneSchedule, Handover, Stack, World,
};
use crane_planner::hotstorage::plan_moves;
use crane_planner::{OptimizerType, Problem};

fn ready(id: i32) -> Block {
    Block { id, due: 0, ready: true }
}

fn waiting(id: i32) -> Block {
    Block { id, due: 0, ready: false }
}

fn rule_world(production: Vec<Block>, buffers: Vec<(i32, Vec<Block>)>, handover_ready: bool) -> World {
    let buffers = buffers
        .into_iter()
        .enumerate()
        .map(|(i, (max_height, blocks))| Stack { id: i as i32 + 1, max_height, bottom_to_top: blocks })
        .collect();
    World {
        production: Stack { id: 0, max_height: 4, bottom_to_top: production },
        buffers,
        handover: Handover { id: 9, ready: handover_ready },
        crane: Crane { schedule: CraneSchedule { moves: vec![], sequence_nr: 7 } },
    }
}

fn step(block_id: i32, source_id: i32, target_id: i32) -> CraneMove {
    CraneMove { block_id, source_id, target_id }
}

#[test]
fn handover_rule_takes_the_first_ready_top() {
    let w = rule_world(
        vec![],
        vec![(3, vec![ready(1), waiting(2)]), (3, vec![]), (3, vec![waiting(3), ready(4)]), (3, vec![ready(5)])],
        true,
    );
    let mut schedule = CraneSchedule::new();
    any_handover_move(&w, &mut schedule);
    assert_eq!(schedule.moves, vec![step(4, 3, 9)]);
    assert_eq!(schedule.sequence_nr, 0);
}

#[test]
fn handover_rule_waits_for_the_handover() {
    let w = rule_world(vec![], vec![(3, vec![ready(1)])], false);
    let mut schedule = CraneSchedule::new();
    any_handover_move(&w, &mut schedule);
    assert!(schedule.moves.is_empty());
}

#[test]
fn handover_rule_ignores_the_production_stack() {
    let w = rule_world(vec![ready(1)], vec![(3, vec![waiting(2)])], true);
    let mut schedule = CraneSchedule::new();
    any_handover_move(&w, &mut schedule);
    assert!(schedule.moves.is_empty());
}

#[test]
fn clearing_rule_takes_the_first_buffer_with_room() {
    let w = rule_world(
        vec![waiting(1), waiting(2)],
        vec![(1, vec![waiting(3)]), (0, vec![]), (2, vec![waiting(4)]), (5, vec![])],
        true,
    );
    let mut schedule = CraneSchedule { moves: vec![step(8, 8, 8)], sequence_nr: 3 };
    clear_production_stack(&w, &mut schedule);
    assert_eq!(schedule.moves, vec![step(8, 8, 8), step(2, 0, 3)]);
    assert_eq!(schedule.sequence_nr, 3);
}

#[test]
fn clearing_rule_reads_a_negative_height_as_no_limit() {
    let w = rule_world(vec![waiting(1)], vec![(-1, vec![waiting(3), waiting(4)])], true);
    assert_eq!(w.buffers[0].capacity(), usize::MAX);
    assert!(w.buffers[0].has_room());
    let mut schedule = CraneSchedule::new();
    clear_production_stack(&w, &mut schedule);
    assert_eq!(schedule.moves, vec![step(1, 0, 1)]);
}

#[test]
fn capacity_of_the_lowest_height() {
    let s = Stack { id: 1, max_height: i32::MIN, bottom_to_top: vec![] };
    assert_eq!(s.capacity(), i32::MIN as usize);
    let s = Stack { id: 1, max_height: 6, bottom_to_top: vec![] };
    assert_eq!(s.capacity(), 6);
}

#[test]
fn clearing_rule_needs_a_block_and_room() {
    let full = rule_world(vec![waiting(1)], vec![(1, vec![waiting(3)])], true);
    let mut schedule = CraneSchedule::new();
    clear_production_stack(&full, &mut schedule);
    assert!(schedule.moves.is_empty());
    let empty = rule_world(vec![], vec![(1, vec![])], true);
    clear_production_stack(&empty, &mut schedule);
    assert!(schedule.moves.is_empty());
}

#[test]
fn rules_give_the_handover_move_first() {
    let w = rule_world(vec![waiting(1)], vec![(3, vec![ready(2)]), (3, vec![])], true);
    let schedule = next_moves(&w);
    assert_eq!(schedule.moves, vec![step(2, 1, 9), step(1, 0, 1)]);
    assert_eq!(schedule.sequence_nr, 0);
}

#[test]
fn rule_based_plan_is_numbered() {
    let w = rule_world(vec![waiting(1)], vec![(3, vec![])], false);
    let schedule = plan_moves(&w, OptimizerType::RuleBased).unwrap();
    assert_eq!(schedule.moves, vec![step(1, 0, 1)]);
    assert_eq!(schedule.sequence_nr, 8);
}

#[test]
fn rule_based_plan_without_moves_is_not_sent() {
    let w = rule_world(vec![], vec![(3, vec![waiting(1)])], true);
    assert!(plan_moves(&w, OptimizerType::RuleBased).is_none());
}

#[test]
fn problems_and_optimizers_are_plain_values() {
    let problem = Problem::Hotstorage;
    let copy = problem;
    assert!(matches!(copy, Problem::Hotstorage));
    assert!(matches!(Problem::RollingMill, Problem::RollingMill));
    let opt = OptimizerType::ModelBased;
    assert_eq!(format!("{:?} {:?}", problem, opt), "Hotstorage ModelBased");
}
