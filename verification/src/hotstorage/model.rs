//! The hot-storage world as the planners see it: a production stack on which
//! blocks arrive, buffer stacks, a handover from which blocks leave, and the
//! crane with the schedule it is working on.

use vstd::prelude::*;

verus! {

/// A block as the simulation reports it.
#[derive(Clone, Copy, Debug)]
pub struct Block {
    pub id: i32,
    /// The time by which the block should have left, in milliseconds.
    pub due: i64,
    /// Whether the handover would take the block now.
    pub ready: bool,
}

/// A stack of blocks, listed from the bottom to the top.
#[derive(Debug)]
pub struct Stack {
    pub id: i32,
    pub max_height: i32,
    pub bottom_to_top: Vec<Block>,
}

/// The place where blocks leave the storage.
#[derive(Clone, Copy, Debug)]
pub struct Handover {
    pub id: i32,
    pub ready: bool,
}

/// One move of one block from the top of a stack to another place.
#[derive(Clone, Copy, Debug, PartialEq, Eq, Structural)]
pub struct CraneMove {
    pub block_id: i32,
    pub source_id: i32,
    pub target_id: i32,
}

/// The moves a crane is to carry out, in order.
#[derive(Debug)]
pub struct CraneSchedule {
    pub moves: Vec<CraneMove>,
    pub sequence_nr: i32,
}

/// The crane, with the schedule it currently follows.
#[derive(Debug)]
pub struct Crane {
    pub schedule: CraneSchedule,
}

/// One snapshot of the world.
#[derive(Debug)]
pub struct World {
    pub production: Stack,
    pub buffers: Vec<Stack>,
    pub handover: Handover,
    pub crane: Crane,
}

/// The number of blocks a stack with the reported height limit can hold. A
/// negative limit is read as the unsigned number with the same bits, so in
/// effect as no limit.
pub open spec fn capacity_of(max_height: i32) -> nat {
    if max_height >= 0 {
        max_height as nat
    } else {
        (usize::MAX + 1 + max_height) as nat
    }
}

/// The blocks of the first `n` of `stacks`, stack after stack, each from the
/// bottom to the top.
pub open spec fn blocks_of(stacks: Seq<Stack>, n: nat) -> Seq<Block>
    decreases n,
{
    if n == 0 {
        Seq::empty()
    } else {
        blocks_of(stacks, (n - 1) as nat) + stacks[n - 1].bottom_to_top@
    }
}

/// The blocks of more stacks are no fewer.
pub proof fn lemma_blocks_of_grows(stacks: Seq<Stack>, fewer: nat, more: nat)
    requires
        fewer <= more,
    ensures
        blocks_of(stacks, fewer).len() <= blocks_of(stacks, more).len(),
    decreases more,
{
    if fewer < more {
        lemma_blocks_of_grows(stacks, fewer, (more - 1) as nat);
    }
}

impl Stack {
    /// The number of blocks the stack can hold.
    pub open spec fn spec_capacity(&self) -> nat {
        capacity_of(self.max_height)
    }

    /// The number of blocks the stack can hold.
    pub fn capacity(&self) -> (result: usize)
        ensures
            result == self.spec_capacity(),
    {
        if self.max_height >= 0 {
            self.max_height as usize
        } else {
            let below: i32 = -(self.max_height + 1);
            usize::MAX - (below as usize)
        }
    }

    /// Whether one more block fits on the stack.
    pub open spec fn spec_has_room(&self) -> bool {
        self.bottom_to_top@.len() < self.spec_capacity()
    }

    /// Whether one more block fits on the stack.
    #[verifier::when_used_as_spec(spec_has_room)]
    pub fn has_room(&self) -> (result: bool)
        ensures
            result == self.spec_has_room(),
    {
        self.capacity() > self.bottom_to_top.len()
    }
}

impl CraneSchedule {
    /// A schedule without moves, numbered zero.
    pub fn new() -> (result: Self)
        ensures
            result.moves@ == Seq::<CraneMove>::empty(),
            result.sequence_nr == 0,
    {
        CraneSchedule { moves: Vec::new(), sequence_nr: 0 }
    }
}

impl World {
    /// The production stack followed by the buffers.
    pub open spec fn stacks(&self) -> Seq<Stack> {
        seq![self.production] + self.buffers@
    }

    /// No two stacks share an identifier, and none has that of the
    /// handover.
    pub open spec fn spec_has_distinct_ids(&self) -> bool {
        &&& forall|a: int, b: int|
            0 <= a < b < self.stacks().len() ==> (#[trigger] self.stacks()[a]).id != (#[trigger] self.stacks()[b]).id
        &&& forall|k: int| 0 <= k < self.stacks().len() ==> (#[trigger] self.stacks()[k]).id != self.handover.id
    }

    /// Whether no two stacks share an identifier and none has that of the
    /// handover.
    #[verifier::when_used_as_spec(spec_has_distinct_ids)]
    pub fn has_distinct_ids(&self) -> (result: bool)
        ensures
            result == self.spec_has_distinct_ids(),
    {
        if self.production.id == self.handover.id {
            proof {
                assert(self.stacks()[0] == self.production);
            }
            return false;
        }
        let n: usize = self.buffers.len();
        let mut i: usize = 0;
        while i < n
            invariant
                n == self.buffers.len(),
                i <= n,
                forall|a: int, b: int|
                    0 <= a < b < i + 1 ==> (#[trigger] self.stacks()[a]).id != (#[trigger] self.stacks()[b]).id,
                forall|k: int| 0 <= k < i + 1 ==> (#[trigger] self.stacks()[k]).id != self.handover.id,
            decreases n - i,
        {
            let id: i32 = self.buffers[i].id;
            proof {
                assert(self.stacks()[i + 1] == self.buffers[i as int]);
                assert(self.stacks()[0] == self.production);
            }
            if id == self.handover.id || id == self.production.id {
                return false;
            }
            let mut j: usize = 0;
            while j < i
                invariant
                    n == self.buffers.len(),
                    i < n,
                    j <= i,
                    id == self.buffers[i as int].id,
                    self.stacks()[i + 1] == self.buffers[i as int],
                    forall|a: int| 1 <= a < j + 1 ==> (#[trigger] self.stacks()[a]).id != id,
                decreases i - j,
            {
                proof {
                    assert(self.stacks()[j + 1] == self.buffers[j as int]);
                }
                if self.buffers[j].id == id {
                    return false;
                }
                j = j + 1;
            }
            i = i + 1;
        }
        true
    }

    /// The world can be handed to the search: the stacks have identifiers
    /// of their own, and the blocks are few enough to be ranked.
    pub open spec fn spec_is_searchable(&self) -> bool {
        &&& self.spec_has_distinct_ids()
        &&& self.all_blocks().len() <= u32::MAX
    }

    /// Whether the world can be handed to the search.
    #[verifier::when_used_as_spec(spec_is_searchable)]
    pub fn is_searchable(&self) -> (result: bool)
        ensures
            result == self.spec_is_searchable(),
    {
        if !self.has_distinct_ids() {
            return false;
        }
        let limit: usize = u32::MAX as usize;
        let mut count: usize = self.production.bottom_to_top.len();
        if count > limit {
            return false;
        }
        let n: usize = self.buffers.len();
        let mut k: usize = 0;
        while k < n
            invariant
                n == self.buffers.len(),
                k <= n,
                limit == u32::MAX,
                count <= limit,
                count == self.production.bottom_to_top@.len() + blocks_of(self.buffers@, k as nat).len(),
            decreases n - k,
        {
            proof {
                lemma_blocks_of_grows(self.buffers@, (k + 1) as nat, n as nat);
            }
            let height: usize = self.buffers[k].bottom_to_top.len();
            if height > limit - count {
                return false;
            }
            count = count + height;
            k = k + 1;
        }
        true
    }

    /// Every block on the production stack and on the buffers, in that
    /// order.
    pub open spec fn all_blocks(&self) -> Seq<Block> {
        self.production.bottom_to_top@ + blocks_of(self.buffers@, self.buffers@.len())
    }
}

} // verus!
