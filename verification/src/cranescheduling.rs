//! Assignment of crane moves to the two cranes of a shared girder.
//!
//! A move goes to the crane that its number picks, or to the other one
//! where that crane cannot reach both ends of the move. Whether a crane
//! reaches a move is a matter of girder positions and is settled before the
//! world is handed to the planner.

use vstd::prelude::*;

verus! {

/// A move to be assigned.
#[derive(Debug)]
pub struct CraneMove {
    pub id: i32,
    /// For each crane, in the order of the cranes, whether it reaches both
    /// the pickup and the dropoff position of the move.
    pub reachable_by: Vec<bool>,
}

/// The moves that wait for a crane.
#[derive(Debug)]
pub struct World {
    pub crane_moves: Vec<CraneMove>,
}

/// One move given to one crane.
#[derive(Clone, Copy, Debug, PartialEq, Eq, Structural)]
pub struct CraneScheduleActivity {
    pub crane_id: i32,
    pub move_id: i32,
}

/// The activities of both cranes, in the order of the moves.
#[derive(Debug)]
pub struct CraneSchedule {
    pub schedule_nr: i32,
    pub activities: Vec<CraneScheduleActivity>,
}

/// What the planner answers with.
#[derive(Debug)]
pub struct CraneSchedulingSolution {
    pub schedule: CraneSchedule,
}

/// The crane that a move's number picks: the first for an even number, the
/// second for an odd one.
pub open spec fn preferred_crane(move_id: i32) -> int {
    if move_id % 2 == 0 {
        1
    } else {
        2
    }
}

/// The crane a move is given to: the preferred one if it reaches the move,
/// else the other.
pub open spec fn assigned_crane(mov: CraneMove) -> int {
    let preferred = preferred_crane(mov.id);
    if mov.reachable_by@[preferred - 1] {
        preferred
    } else {
        3 - preferred
    }
}

/// The activity that assigns a move.
pub open spec fn activity_for(mov: CraneMove) -> CraneScheduleActivity {
    CraneScheduleActivity { crane_id: assigned_crane(mov) as i32, move_id: mov.id }
}

/// The number after `nr`, starting over from the lowest after the highest.
pub open spec fn number_after(nr: i32) -> i32 {
    if nr == i32::MAX {
        i32::MIN
    } else {
        (nr + 1) as i32
    }
}

impl World {
    /// For every move it is known whether its preferred crane reaches it.
    pub open spec fn spec_is_assignable(&self) -> bool {
        forall|i: int|
            0 <= i < self.crane_moves@.len() ==> preferred_crane(self.crane_moves@[i].id) <= (
            #[trigger] self.crane_moves@[i]).reachable_by@.len()
    }

    /// Whether for every move it is known if its preferred crane reaches
    /// it.
    #[verifier::when_used_as_spec(spec_is_assignable)]
    pub fn is_assignable(&self) -> (result: bool)
        ensures
            result == self.spec_is_assignable(),
    {
        let n: usize = self.crane_moves.len();
        let mut i: usize = 0;
        while i < n
            invariant
                n == self.crane_moves.len(),
                i <= n,
                forall|j: int|
                    0 <= j < i ==> preferred_crane(self.crane_moves@[j].id) <= (
                    #[trigger] self.crane_moves@[j]).reachable_by@.len(),
            decreases n - i,
        {
            let mov = &self.crane_moves[i];
            if preferred(mov.id) > mov.reachable_by.len() {
                return false;
            }
            i = i + 1;
        }
        true
    }
}

fn preferred(move_id: i32) -> (result: usize)
    ensures
        result == preferred_crane(move_id),
{
    if move_id % 2 == 0 {
        1
    } else {
        2
    }
}

/// Assigns every waiting move to a crane. Where no move waits there is no
/// answer, and `schedule_nr` stays as it is. Otherwise `schedule_nr` moves
/// on by one and numbers the schedule.
pub fn plan_moves(world: &World, schedule_nr: &mut i32) -> (result: Option<CraneSchedulingSolution>)
    requires
        world.spec_is_assignable(),
    ensures
        result is Some <==> world.crane_moves@.len() > 0,
        result is None ==> *final(schedule_nr) == *old(schedule_nr),
        result matches Some(solution) ==> {
            &&& *final(schedule_nr) == number_after(*old(schedule_nr))
            &&& solution.schedule.schedule_nr == number_after(*old(schedule_nr))
            &&& solution.schedule.activities@ == world.crane_moves@.map_values(|m: CraneMove| activity_for(m))
        },
{
    let n: usize = world.crane_moves.len();
    if n == 0 {
        return None;
    }
    if *schedule_nr == i32::MAX {
        *schedule_nr = i32::MIN;
    } else {
        *schedule_nr = *schedule_nr + 1;
    }
    let mut activities: Vec<CraneScheduleActivity> = Vec::new();
    let mut i: usize = 0;
    while i < n
        invariant
            n == world.crane_moves.len(),
            i <= n,
            world.spec_is_assignable(),
            activities@ == world.crane_moves@.take(i as int).map_values(|m: CraneMove| activity_for(m)),
        decreases n - i,
    {
        let mov = &world.crane_moves[i];
        let first_choice: usize = preferred(mov.id);
        let crane_id: i32 = if mov.reachable_by[first_choice - 1] {
            first_choice as i32
        } else {
            3 - first_choice as i32
        };
        activities.push(CraneScheduleActivity { crane_id, move_id: mov.id });
        proof {
            let all = world.crane_moves@;
            assert(all.take(i + 1) =~= all.take(i as int).push(*mov));
            assert(activities@ =~= all.take(i + 1).map_values(|m: CraneMove| activity_for(m)));
        }
        i = i + 1;
    }
    proof {
        assert(world.crane_moves@.take(n as int) =~= world.crane_moves@);
    }
    Some(CraneSchedulingSolution { schedule: CraneSchedule { schedule_nr: *schedule_nr, activities } })
}

} // verus!
