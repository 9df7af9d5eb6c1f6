//! The rolling mill as the planner sees it: locations that hold stacks of
//! blocks, requests to bring blocks to the mill, and two cranes.

use vstd::prelude::*;

verus! {

/// What a location is used for.
#[derive(Clone, Copy, Debug, PartialEq, Eq, Structural)]
pub enum StackTypes {
    ArrivalStack,
    ShuffleBuffer,
    SortedBuffer,
    HandoverStack,
}

/// What a crane does in one move.
#[derive(Clone, Copy, Debug, PartialEq, Eq, Structural)]
pub enum MoveType {
    MoveToPickup,
    PickupAndDropoff,
}

/// A point in time.
#[derive(Clone, Copy, Debug, PartialEq, Eq, Structural)]
pub struct TimeStamp {
    pub milli_seconds: i64,
}

/// A block: its place in the rolling sequence of its type.
#[derive(Clone, Copy, Debug)]
pub struct Block {
    pub id: i32,
    pub sequence: i32,
    pub block_type: i32,
}

/// The blocks of a location, from the bottom to the top.
#[derive(Debug)]
pub struct Stack {
    pub bottom_to_top: Vec<Block>,
}

/// A place where blocks are stacked.
#[derive(Debug)]
pub struct Location {
    pub id: i32,
    pub max_height: i32,
    pub stack: Stack,
    pub location_type: StackTypes,
}

/// The wish to have a block at a location.
#[derive(Clone, Copy, Debug)]
pub struct MoveRequest {
    pub block_id: i32,
    pub target_location_id: i32,
}

/// A crane and the number of blocks it lifts at once.
#[derive(Clone, Copy, Debug)]
pub struct Crane {
    pub id: i32,
    pub crane_capacity: i32,
}

/// One move of a crane: some blocks from the top of one location to
/// another.
#[derive(Clone, Copy, Debug, PartialEq, Eq, Structural)]
pub struct CraneMove {
    pub id: i32,
    pub move_type: MoveType,
    pub release_time: TimeStamp,
    pub pickup_location_id: i32,
    pub dropoff_location_id: i32,
    pub required_crane_id: i32,
    pub amount: i32,
}

/// The moves planned for the cranes.
#[derive(Debug)]
pub struct PlannedCraneMoves {
    pub moves: Vec<CraneMove>,
    pub sequence_nr: i32,
}

/// One snapshot of the world.
#[derive(Debug)]
pub struct World {
    pub now: TimeStamp,
    pub locations: Vec<Location>,
    pub move_requests: Vec<MoveRequest>,
    pub crane_moves: PlannedCraneMoves,
    pub handover_crane: Crane,
    pub shuffle_crane: Crane,
}

impl Location {
    /// Blocks wait here for a request.
    pub open spec fn spec_is_buffer(&self) -> bool {
        self.location_type is ShuffleBuffer || self.location_type is SortedBuffer
    }

    /// Whether blocks wait here for a request.
    #[verifier::when_used_as_spec(spec_is_buffer)]
    pub fn is_buffer(&self) -> (result: bool)
        ensures
            result == self.spec_is_buffer(),
    {
        match self.location_type {
            StackTypes::ShuffleBuffer => true,
            StackTypes::SortedBuffer => true,
            _ => false,
        }
    }

    /// Blocks arrive here.
    pub open spec fn spec_is_arrival(&self) -> bool {
        self.location_type is ArrivalStack
    }

    /// Whether blocks arrive here.
    #[verifier::when_used_as_spec(spec_is_arrival)]
    pub fn is_arrival(&self) -> (result: bool)
        ensures
            result == self.spec_is_arrival(),
    {
        match self.location_type {
            StackTypes::ArrivalStack => true,
            _ => false,
        }
    }

    /// The number of blocks at the location.
    pub open spec fn height(&self) -> nat {
        self.stack.bottom_to_top@.len()
    }

    /// The number of blocks that still fit; negative where the location is
    /// over its height.
    pub open spec fn room(&self) -> int {
        self.max_height - self.height()
    }
}

impl PlannedCraneMoves {
    /// A plan without moves, numbered zero.
    pub fn new() -> (result: Self)
        ensures
            result.moves@ == Seq::<CraneMove>::empty(),
            result.sequence_nr == 0,
    {
        PlannedCraneMoves { moves: Vec::new(), sequence_nr: 0 }
    }
}

impl World {
    /// Some location is an arrival stack.
    pub open spec fn spec_has_arrival_stack(&self) -> bool {
        exists|l: int| 0 <= l < self.locations@.len() && (#[trigger] self.locations@[l]).spec_is_arrival()
    }

    /// Whether some location is an arrival stack.
    #[verifier::when_used_as_spec(spec_has_arrival_stack)]
    pub fn has_arrival_stack(&self) -> (result: bool)
        ensures
            result == self.spec_has_arrival_stack(),
    {
        let n: usize = self.locations.len();
        let mut l: usize = 0;
        while l < n
            invariant
                n == self.locations.len(),
                l <= n,
                forall|j: int| 0 <= j < l ==> !(#[trigger] self.locations@[j]).spec_is_arrival(),
            decreases n - l,
        {
            if self.locations[l].is_arrival() {
                return true;
            }
            l = l + 1;
        }
        false
    }

    /// The planner can work on the world: unless the shuffle crane has a
    /// move to do there is an arrival stack for it to empty, and unless the
    /// handover crane has one the requests are few enough to be numbered.
    pub open spec fn spec_can_be_planned(&self) -> bool {
        &&& !self.spec_is_busy(self.shuffle_crane.id) ==> self.spec_has_arrival_stack()
        &&& !self.spec_is_busy(self.handover_crane.id) ==> self.move_requests@.len() <= i32::MAX
    }

    /// Whether the planner can work on the world.
    #[verifier::when_used_as_spec(spec_can_be_planned)]
    pub fn can_be_planned(&self) -> (result: bool)
        ensures
            result == self.spec_can_be_planned(),
    {
        (self.is_busy(self.shuffle_crane.id) || self.has_arrival_stack()) && (self.is_busy(self.handover_crane.id)
            || self.move_requests.len() <= i32::MAX as usize)
    }

    /// A move that is already planned needs the crane `crane_id`.
    pub open spec fn spec_is_busy(&self, crane_id: i32) -> bool {
        exists|i: int|
            0 <= i < self.crane_moves.moves@.len() && (#[trigger] self.crane_moves.moves@[i]).required_crane_id
                == crane_id
    }

    /// Whether a move that is already planned needs the crane `crane_id`.
    #[verifier::when_used_as_spec(spec_is_busy)]
    pub fn is_busy(&self, crane_id: i32) -> (result: bool)
        ensures
            result == self.spec_is_busy(crane_id),
    {
        let n: usize = self.crane_moves.moves.len();
        let mut i: usize = 0;
        while i < n
            invariant
                n == self.crane_moves.moves.len(),
                i <= n,
                forall|j: int| 0 <= j < i ==> (#[trigger] self.crane_moves.moves@[j]).required_crane_id != crane_id,
            decreases n - i,
        {
            if self.crane_moves.moves[i].required_crane_id == crane_id {
                return true;
            }
            i = i + 1;
        }
        false
    }
}

} // verus!
