//! The block relocation problem: blocks leave the storage in the order of
//! their priorities, and a block that lies on top of the next one to leave
//! has to be put elsewhere first.
//!
//! A state holds the stacks and the moves that led to it. A move names its
//! source and its target by their identifiers, so a state can be searched
//! only while no two stacks share an identifier and none has that of the
//! handover.

use crate::hotstorage::model;
use crate::hotstorage::model::{CraneMove, CraneSchedule, World};
use crate::hotstorage::search::{depth_first_search_within, solution, DEFAULT_BUDGET};
use crate::order::{
    has_place, is_stable_order, lemma_rank_below_len, lemma_rank_is_place, lemma_rank_respects_order, precedes, rank,
    stable_order,
};
use std::collections::HashMap;
use vstd::prelude::*;

verus! {

/// The priority of a block that the priority table does not list.
pub const DEFAULT_PRIORITY: u32 = 10000;

/// A block of the relocation problem. A lower priority leaves earlier.
#[derive(Clone, Copy, Debug)]
pub struct Block {
    pub id: i32,
    pub prio: u32,
}

/// One block taken from the top of `src` and put on `tgt`, or handed over
/// where `tgt` is the handover.
#[derive(Clone, Copy, Debug, PartialEq, Eq, Structural)]
pub struct Move {
    pub src: i32,
    pub tgt: i32,
    pub block: i32,
}

impl Move {
    /// The identifier of the stack the block is taken from.
    pub fn src(&self) -> (result: i32)
        ensures
            result == self.src,
    {
        self.src
    }

    /// The identifier of the stack the block is put on, or that of the
    /// handover.
    pub fn tgt(&self) -> (result: i32)
        ensures
            result == self.tgt,
    {
        self.tgt
    }

    /// The identifier of the block that is moved.
    pub fn block(&self) -> (result: i32)
        ensures
            result == self.block,
    {
        self.block
    }
}

/// A stack of the relocation problem, its blocks from the bottom to the top.
#[derive(Debug)]
pub struct Stack {
    pub id: i32,
    pub max_height: usize,
    pub blocks: Vec<Block>,
}

/// What a stack holds, as a mathematical value.
pub struct StackView {
    pub id: i32,
    pub max_height: usize,
    pub blocks: Seq<Block>,
}

impl View for Stack {
    type V = StackView;

    open spec fn view(&self) -> StackView {
        StackView { id: self.id, max_height: self.max_height, blocks: self.blocks@ }
    }
}

impl StackView {
    /// The block on top, if there is one.
    pub open spec fn top(self) -> Option<Block> {
        if self.blocks.len() > 0 {
            Some(self.blocks.last())
        } else {
            None
        }
    }

    /// The block at height `i` has the lowest priority of the stack, and is
    /// the lowest-lying block that has it.
    pub open spec fn is_most_urgent_at(self, i: int) -> bool {
        &&& 0 <= i < self.blocks.len()
        &&& forall|j: int| 0 <= j < self.blocks.len() ==> self.blocks[i].prio <= (#[trigger] self.blocks[j]).prio
        &&& forall|j: int| 0 <= j < i ==> self.blocks[i].prio < (#[trigger] self.blocks[j]).prio
    }

    /// The height at which the most urgent block lies.
    pub open spec fn most_urgent_index(self) -> int {
        choose|i: int| self.is_most_urgent_at(i)
    }

    /// The block that has to leave before all others of the stack, if the
    /// stack holds any.
    pub open spec fn most_urgent(self) -> Option<Block> {
        if self.blocks.len() > 0 {
            Some(self.blocks[self.most_urgent_index()])
        } else {
            None
        }
    }

    /// Whether one more block fits.
    pub open spec fn has_spare_capacity(self) -> bool {
        self.blocks.len() < self.max_height
    }

    /// The stack without its top block.
    pub open spec fn lifted(self) -> StackView {
        StackView { blocks: self.blocks.drop_last(), ..self }
    }

    /// The stack with `block` put on top.
    pub open spec fn placed(self, block: Block) -> StackView {
        StackView { blocks: self.blocks.push(block), ..self }
    }
}

/// A stack has one most urgent block.
pub proof fn lemma_most_urgent_unique(stack: StackView, i: int, j: int)
    requires
        stack.is_most_urgent_at(i),
        stack.is_most_urgent_at(j),
    ensures
        i == j,
{
    if i < j {
        assert(stack.blocks[j].prio < stack.blocks[i].prio);
    } else if j < i {
        assert(stack.blocks[i].prio < stack.blocks[j].prio);
    }
}

/// The most urgent block of a stack is the one at the height that
/// `is_most_urgent_at` singles out.
pub proof fn lemma_most_urgent_is(stack: StackView, i: int)
    requires
        stack.is_most_urgent_at(i),
    ensures
        stack.most_urgent_index() == i,
        stack.most_urgent() == Some(stack.blocks[i]),
{
    lemma_most_urgent_unique(stack, i, stack.most_urgent_index());
}

impl Stack {
    /// The block on top of the stack.
    pub fn top(&self) -> (result: Option<Block>)
        ensures
            result == self@.top(),
    {
        let n: usize = self.blocks.len();
        if n > 0 {
            Some(self.blocks[n - 1])
        } else {
            None
        }
    }

    /// The block that has to leave before all others of the stack: the one
    /// with the lowest priority, and of several the one that lies lowest.
    pub fn most_urgent(&self) -> (result: Option<Block>)
        ensures
            result == self@.most_urgent(),
    {
        let n: usize = self.blocks.len();
        if n == 0 {
            return None;
        }
        let mut best: usize = 0;
        let mut i: usize = 1;
        while i < n
            invariant
                n == self.blocks.len(),
                1 <= i <= n,
                best < i,
                forall|j: int| 0 <= j < i ==> self.blocks[best as int].prio <= (#[trigger] self.blocks[j]).prio,
                forall|j: int| 0 <= j < best ==> self.blocks[best as int].prio < (#[trigger] self.blocks[j]).prio,
            decreases n - i,
        {
            if self.blocks[i].prio < self.blocks[best].prio {
                best = i;
            }
            i = i + 1;
        }
        proof {
            assert(self@.is_most_urgent_at(best as int));
            lemma_most_urgent_is(self@, best as int);
        }
        Some(self.blocks[best])
    }

    /// Whether one more block fits on the stack.
    pub fn has_spare_capacity(&self) -> (result: bool)
        ensures
            result == self@.has_spare_capacity(),
    {
        self.blocks.len() < self.max_height
    }
}

impl Clone for Stack {
    /// A stack that holds the same blocks.
    fn clone(&self) -> (result: Self)
        ensures
            result@ == self@,
    {
        let mut blocks: Vec<Block> = Vec::new();
        let n: usize = self.blocks.len();
        let mut i: usize = 0;
        while i < n
            invariant
                n == self.blocks.len(),
                i <= n,
                blocks@ == self.blocks@.take(i as int),
            decreases n - i,
        {
            blocks.push(self.blocks[i]);
            proof {
                assert(self.blocks@.take(i + 1) =~= self.blocks@.take(i as int).push(self.blocks[i as int]));
            }
            i = i + 1;
        }
        proof {
            assert(self.blocks@.take(n as int) =~= self.blocks@);
        }
        Stack { id: self.id, max_height: self.max_height, blocks }
    }
}

/// The stacks at one point of a search, and the moves that led there.
#[derive(Debug)]
pub struct BrpState {
    stacks: Vec<Stack>,
    moves: Vec<Move>,
    arrival_id: i32,
    handover_id: i32,
}

/// A state as a mathematical value.
pub struct StateView {
    pub stacks: Seq<StackView>,
    pub moves: Seq<Move>,
    pub arrival_id: i32,
    pub handover_id: i32,
}

impl View for BrpState {
    type V = StateView;

    closed spec fn view(&self) -> StateView {
        StateView {
            stacks: self.stacks@.map_values(|s: Stack| s@),
            moves: self.moves@,
            arrival_id: self.arrival_id,
            handover_id: self.handover_id,
        }
    }
}

impl Clone for BrpState {
    /// A state with the same stacks and the same moves.
    fn clone(&self) -> (result: Self)
        ensures
            result@ == self@,
    {
        let n: usize = self.stacks.len();
        let mut stacks: Vec<Stack> = Vec::new();
        let mut i: usize = 0;
        while i < n
            invariant
                n == self.stacks.len(),
                i <= n,
                stacks.len() == i,
                forall|j: int| 0 <= j < i ==> (#[trigger] stacks[j])@ == self.stacks[j]@,
            decreases n - i,
        {
            stacks.push(self.stacks[i].clone());
            i = i + 1;
        }
        let result = BrpState {
            stacks,
            moves: copy_moves(&self.moves),
            arrival_id: self.arrival_id,
            handover_id: self.handover_id,
        };
        proof {
            assert(result@.stacks =~= self@.stacks);
        }
        result
    }
}

/// The stacks onto which a block from the stack `src_id` may be put: those
/// with room, but for the stack itself.
pub open spec fn accepts_from(src_id: i32) -> spec_fn(StackView) -> bool {
    |t: StackView| t.has_spare_capacity() && t.id != src_id
}

/// The move of `block` from `src_id` onto a given stack.
pub open spec fn relocation_onto(src_id: i32, block: i32) -> spec_fn(StackView) -> Move {
    |t: StackView| Move { src: src_id, tgt: t.id, block }
}

impl StateView {
    /// Every stack is empty: all blocks have been handed over.
    pub open spec fn is_solved(self) -> bool {
        forall|k: int| 0 <= k < self.stacks.len() ==> (#[trigger] self.stacks[k]).blocks.len() == 0
    }

    /// The priority of the most urgent block of the stack at position `k`.
    pub open spec fn urgency(self, k: int) -> u32 {
        self.stacks[k].blocks[self.stacks[k].most_urgent_index()].prio
    }

    /// The stack at position `k` holds the block that leaves next: no stack
    /// holds a more urgent one, and no stack before it one as urgent.
    pub open spec fn is_target_at(self, k: int) -> bool {
        &&& 0 <= k < self.stacks.len()
        &&& self.stacks[k].blocks.len() > 0
        &&& forall|j: int|
            0 <= j < self.stacks.len() && self.stacks[j].blocks.len() > 0 ==> self.urgency(k) <= #[trigger] self.urgency(j)
        &&& forall|j: int| 0 <= j < k && self.stacks[j].blocks.len() > 0 ==> self.urgency(k) < #[trigger] self.urgency(j)
    }

    /// The position of the stack that holds the block that leaves next.
    pub open spec fn target(self) -> int {
        choose|k: int| self.is_target_at(k)
    }

    /// The stack at position `k` is the one that `id` names: it has the
    /// identifier, and no stack before it has.
    pub open spec fn is_stack_at(self, id: i32, k: int) -> bool {
        &&& 0 <= k < self.stacks.len()
        &&& self.stacks[k].id == id
        &&& forall|j: int| 0 <= j < k ==> (#[trigger] self.stacks[j]).id != id
    }

    /// Some stack has the identifier `id`.
    pub open spec fn has_stack(self, id: i32) -> bool {
        exists|k: int| self.is_stack_at(id, k)
    }

    /// The position of the stack that `id` names.
    pub open spec fn position_of(self, id: i32) -> int {
        choose|k: int| self.is_stack_at(id, k)
    }

    /// No two stacks share an identifier, and none has that of the
    /// handover.
    pub open spec fn has_distinct_ids(self) -> bool {
        &&& forall|a: int, b: int|
            0 <= a < b < self.stacks.len() ==> (#[trigger] self.stacks[a]).id != (#[trigger] self.stacks[b]).id
        &&& forall|k: int| 0 <= k < self.stacks.len() ==> (#[trigger] self.stacks[k]).id != self.handover_id
    }

    /// No stack holds more blocks than its capacity.
    pub open spec fn within_capacity(self) -> bool {
        forall|k: int| 0 <= k < self.stacks.len() ==> (#[trigger] self.stacks[k]).blocks.len() <= self.stacks[k].max_height
    }

    /// The stacks once the top block of the stack at position `src` is
    /// taken off.
    pub open spec fn lifted(self, src: int) -> Seq<StackView> {
        self.stacks.update(src, self.stacks[src].lifted())
    }

    /// `mov` can be carried out: the stack that it names as its source has
    /// the block that it names on top, and its target is the handover or
    /// names a stack on which the block fits.
    pub open spec fn can_apply(self, mov: Move) -> bool {
        let src = self.position_of(mov.src);
        &&& self.has_stack(mov.src)
        &&& self.stacks[src].blocks.len() > 0
        &&& self.stacks[src].blocks.last().id == mov.block
        &&& mov.tgt != self.handover_id ==> {
            &&& self.has_stack(mov.tgt)
            &&& self.lifted(src)[self.position_of(mov.tgt)].has_spare_capacity()
        }
    }

    /// The state after `mov`: the block has left its source and, unless it
    /// was handed over, lies on top of the target; the move is recorded.
    pub open spec fn apply_move(self, mov: Move) -> StateView {
        let src = self.position_of(mov.src);
        let tgt = self.position_of(mov.tgt);
        let block = self.stacks[src].blocks.last();
        let lifted = self.lifted(src);
        let stacks = if mov.tgt == self.handover_id {
            lifted
        } else {
            lifted.update(tgt, lifted[tgt].placed(block))
        };
        StateView { stacks, moves: self.moves.push(mov), ..self }
    }

    /// The moves that make progress. Where the block that leaves next lies
    /// on top of its stack, the one move that hands it over. Where it is
    /// buried, the moves that put the top block of its stack onto each other
    /// stack with room, in the order of the stacks.
    pub open spec fn forced_moves(self) -> Seq<Move> {
        if self.is_solved() {
            Seq::empty()
        } else {
            let src = self.stacks[self.target()];
            let top = src.blocks.last();
            let urgent = src.blocks[src.most_urgent_index()];
            if urgent.id == top.id {
                seq![Move { src: src.id, tgt: self.handover_id, block: top.id }]
            } else {
                self.stacks.filter(accepts_from(src.id)).map_values(relocation_onto(src.id, top.id))
            }
        }
    }
}

/// A state has one target stack.
pub proof fn lemma_target_is(state: StateView, k: int)
    requires
        state.is_target_at(k),
    ensures
        state.target() == k,
        !state.is_solved(),
{
    let t = state.target();
    if t < k {
        assert(state.urgency(k) < state.urgency(t));
        assert(state.urgency(t) <= state.urgency(k));
    } else if k < t {
        assert(state.urgency(t) < state.urgency(k));
        assert(state.urgency(k) <= state.urgency(t));
    }
}

/// An identifier names one stack.
pub proof fn lemma_position_is(state: StateView, id: i32, k: int)
    requires
        state.is_stack_at(id, k),
    ensures
        state.has_stack(id),
        state.position_of(id) == k,
{
    let chosen = state.position_of(id);
    if chosen < k {
        assert(state.stacks[chosen].id != id);
    } else if k < chosen {
        assert(state.stacks[k].id != id);
    }
}

/// Where no two stacks share an identifier, every stack is the one that
/// its identifier names.
pub proof fn lemma_distinct_ids_name_positions(state: StateView, k: int)
    requires
        state.has_distinct_ids(),
        0 <= k < state.stacks.len(),
    ensures
        state.is_stack_at(state.stacks[k].id, k),
        state.position_of(state.stacks[k].id) == k,
{
    assert forall|j: int| 0 <= j < k implies (#[trigger] state.stacks[j]).id != state.stacks[k].id by {}
    lemma_position_is(state, state.stacks[k].id, k);
}

/// The priority a block gets from the table, or the default where the table
/// does not list it.
pub open spec fn priority_in(priorities: Map<i32, u32>, id: i32) -> u32 {
    if priorities.contains_key(id) {
        priorities[id]
    } else {
        DEFAULT_PRIORITY
    }
}

/// A reported block as a block of the relocation problem.
pub open spec fn with_priority(priorities: Map<i32, u32>) -> spec_fn(model::Block) -> Block {
    |b: model::Block| Block { id: b.id, prio: priority_in(priorities, b.id) }
}

/// A reported stack as a stack of the relocation problem.
pub open spec fn with_priorities(priorities: Map<i32, u32>) -> spec_fn(model::Stack) -> StackView {
    |s: model::Stack|
        StackView {
            id: s.id,
            max_height: s.spec_capacity() as usize,
            blocks: s.bottom_to_top@.map_values(with_priority(priorities)),
        }
}

/// The state a search starts from: the production stack and the buffers as
/// reported, no move made.
pub open spec fn initial_state(world: model::World, priorities: Map<i32, u32>) -> StateView {
    StateView {
        stacks: world.stacks().map_values(with_priorities(priorities)),
        moves: Seq::empty(),
        arrival_id: world.production.id,
        handover_id: world.handover.id,
    }
}

fn prioritized(stack: &model::Stack, priorities: &HashMap<i32, u32>) -> (result: Stack)
    ensures
        result@ == with_priorities(priorities@)(*stack),
{
    broadcast use vstd::std_specs::hash::group_hash_axioms;

    let n: usize = stack.bottom_to_top.len();
    let mut blocks: Vec<Block> = Vec::new();
    let mut i: usize = 0;
    while i < n
        invariant
            n == stack.bottom_to_top.len(),
            i <= n,
            blocks@ == stack.bottom_to_top@.take(i as int).map_values(with_priority(priorities@)),
        decreases n - i,
    {
        let id: i32 = stack.bottom_to_top[i].id;
        let prio: u32 = match priorities.get(&id) {
            Some(p) => *p,
            None => DEFAULT_PRIORITY,
        };
        blocks.push(Block { id, prio });
        proof {
            let f = with_priority(priorities@);
            let src = stack.bottom_to_top@;
            assert(src.take(i + 1).map_values(f) =~= src.take(i as int).map_values(f).push(f(src[i as int])));
        }
        i = i + 1;
    }
    proof {
        assert(stack.bottom_to_top@.take(n as int) =~= stack.bottom_to_top@);
    }
    Stack { id: stack.id, max_height: stack.capacity(), blocks }
}

fn copy_moves(moves: &Vec<Move>) -> (result: Vec<Move>)
    ensures
        result@ == moves@,
{
    let n: usize = moves.len();
    let mut result: Vec<Move> = Vec::new();
    let mut i: usize = 0;
    while i < n
        invariant
            n == moves.len(),
            i <= n,
            result@ == moves@.take(i as int),
        decreases n - i,
    {
        result.push(moves[i]);
        proof {
            assert(moves@.take(i + 1) =~= moves@.take(i as int).push(moves[i as int]));
        }
        i = i + 1;
    }
    proof {
        assert(moves@.take(n as int) =~= moves@);
    }
    result
}

impl BrpState {
    /// The state that `world` shows, each block with its priority from
    /// `priorities`.
    pub fn new(world: &model::World, priorities: HashMap<i32, u32>) -> (result: Self)
        ensures
            result@ == initial_state(*world, priorities@),
    {
        let ghost f = with_priorities(priorities@);
        let mut stacks: Vec<Stack> = Vec::new();
        stacks.push(prioritized(&world.production, &priorities));
        let n: usize = world.buffers.len();
        let mut i: usize = 0;
        while i < n
            invariant
                n == world.buffers.len(),
                i <= n,
                f == with_priorities(priorities@),
                stacks.len() == i + 1,
                forall|j: int| 0 <= j < i + 1 ==> (#[trigger] stacks[j])@ == f(world.stacks()[j]),
            decreases n - i,
        {
            stacks.push(prioritized(&world.buffers[i], &priorities));
            proof {
                assert(world.stacks()[i + 1] == world.buffers[i as int]);
            }
            i = i + 1;
        }
        proof {
            assert(stacks@.map_values(|s: Stack| s@) =~= world.stacks().map_values(f));
        }
        BrpState { stacks, moves: Vec::new(), arrival_id: world.production.id, handover_id: world.handover.id }
    }

    /// Whether all blocks have been handed over.
    pub fn is_solved(&self) -> (result: bool)
        ensures
            result == self@.is_solved(),
    {
        let n: usize = self.stacks.len();
        let mut k: usize = 0;
        while k < n
            invariant
                n == self.stacks.len(),
                k <= n,
                forall|j: int| 0 <= j < k ==> (#[trigger] self@.stacks[j]).blocks.len() == 0,
            decreases n - k,
        {
            if self.stacks[k].blocks.len() > 0 {
                proof {
                    assert(self@.stacks[k as int].blocks.len() > 0);
                }
                return false;
            }
            k = k + 1;
        }
        true
    }

    /// The moves that led to this state.
    pub fn into_moves(self) -> (result: Vec<Move>)
        ensures
            result@ == self@.moves,
    {
        self.moves
    }

    /// The stacks, in the order of their positions.
    pub fn stacks(&self) -> (result: &Vec<Stack>)
        ensures
            result@.map_values(|s: Stack| s@) == self@.stacks,
    {
        &self.stacks
    }

    /// The position of the stack that `id` names, if a stack has that
    /// identifier.
    pub fn find_stack(&self, id: i32) -> (result: Option<usize>)
        ensures
            result is Some <==> self@.has_stack(id),
            result matches Some(k) ==> self@.is_stack_at(id, k as int) && k == self@.position_of(id),
    {
        let n: usize = self.stacks.len();
        let mut k: usize = 0;
        while k < n
            invariant
                n == self.stacks.len(),
                k <= n,
                forall|j: int| 0 <= j < k ==> (#[trigger] self@.stacks[j]).id != id,
            decreases n - k,
        {
            if self.stacks[k].id == id {
                proof {
                    assert(self@.is_stack_at(id, k as int));
                    lemma_position_is(self@, id, k as int);
                }
                return Some(k);
            }
            k = k + 1;
        }
        proof {
            assert forall|c: int| !self@.is_stack_at(id, c) by {
                if 0 <= c < self@.stacks.len() {
                    assert(self@.stacks[c].id != id);
                }
            }
        }
        None
    }

    /// Whether `mov` can be carried out in this state.
    pub fn can_apply(&self, mov: Move) -> (result: bool)
        ensures
            result == self@.can_apply(mov),
    {
        match self.find_stack(mov.src) {
            None => false,
            Some(src) => {
                let height: usize = self.stacks[src].blocks.len();
                if height == 0 || self.stacks[src].blocks[height - 1].id != mov.block {
                    false
                } else if mov.tgt == self.handover_id {
                    true
                } else {
                    match self.find_stack(mov.tgt) {
                        None => false,
                        Some(tgt) => if tgt == src {
                            height - 1 < self.stacks[tgt].max_height
                        } else {
                            self.stacks[tgt].has_spare_capacity()
                        },
                    }
                }
            },
        }
    }

    /// The state after `mov`. This state is left as it is.
    pub fn apply_move(&self, mov: Move) -> (result: Self)
        requires
            self@.can_apply(mov),
        ensures
            result@ == self@.apply_move(mov),
            self@.within_capacity() ==> result@.within_capacity(),
            self@.has_distinct_ids() ==> result@.has_distinct_ids(),
    {
        let ghost expected = self@.apply_move(mov);
        let n: usize = self.stacks.len();
        let src: usize = self.find_stack(mov.src).unwrap();
        let block: Block = self.stacks[src].blocks[self.stacks[src].blocks.len() - 1];
        let onto: Option<usize> = if mov.tgt != self.handover_id {
            self.find_stack(mov.tgt)
        } else {
            None
        };
        let mut stacks: Vec<Stack> = Vec::new();
        let mut i: usize = 0;
        while i < n
            invariant
                n == self.stacks.len(),
                i <= n,
                self@.can_apply(mov),
                expected == self@.apply_move(mov),
                src == self@.position_of(mov.src),
                src < n,
                block == self@.stacks[src as int].blocks.last(),
                onto == if mov.tgt != self@.handover_id {
                    Some(self@.position_of(mov.tgt) as usize)
                } else {
                    None
                },
                mov.tgt != self@.handover_id ==> 0 <= self@.position_of(mov.tgt) < n,
                stacks.len() == i,
                forall|j: int| 0 <= j < i ==> (#[trigger] stacks[j])@ == expected.stacks[j],
            decreases n - i,
        {
            let mut stack = self.stacks[i].clone();
            if i == src {
                stack.blocks.pop();
            }
            if onto == Some(i) {
                stack.blocks.push(block);
            }
            proof {
                assert(stack@.blocks =~= expected.stacks[i as int].blocks);
            }
            stacks.push(stack);
            i = i + 1;
        }
        let mut moves = copy_moves(&self.moves);
        moves.push(mov);
        let result = BrpState { stacks, moves, arrival_id: self.arrival_id, handover_id: self.handover_id };
        proof {
            assert(result@.stacks =~= expected.stacks);
            if self@.within_capacity() {
                lemma_apply_move_keeps_capacity(self@, mov);
            }
            lemma_apply_move_keeps_ids(self@, mov);
        }
        result
    }

    /// Fills `moves` with the moves that make progress from this state:
    /// the one that hands over the block that leaves next, or those that
    /// clear the way to it.
    pub fn forced_moves(&self, moves: &mut Vec<Move>)
        ensures
            final(moves)@ == self@.forced_moves(),
    {
        moves.clear();
        let n: usize = self.stacks.len();
        let mut found: bool = false;
        let mut target: usize = 0;
        let mut urgent: Block = Block { id: 0, prio: 0 };
        let mut k: usize = 0;
        while k < n
            invariant
                n == self.stacks.len(),
                k <= n,
                !found ==> forall|j: int| 0 <= j < k ==> (#[trigger] self@.stacks[j]).blocks.len() == 0,
                found ==> {
                    &&& target < k
                    &&& self@.stacks[target as int].blocks.len() > 0
                    &&& self@.stacks[target as int].most_urgent() == Some(urgent)
                    &&& forall|j: int|
                        0 <= j < k && self@.stacks[j].blocks.len() > 0 ==> self@.urgency(target as int)
                            <= #[trigger] self@.urgency(j)
                    &&& forall|j: int|
                        0 <= j < target && self@.stacks[j].blocks.len() > 0 ==> self@.urgency(target as int)
                            < #[trigger] self@.urgency(j)
                },
            decreases n - k,
        {
            match self.stacks[k].most_urgent() {
                Some(candidate) => {
                    if !found || candidate.prio < urgent.prio {
                        found = true;
                        target = k;
                        urgent = candidate;
                    }
                },
                None => {},
            }
            k = k + 1;
        }
        if !found {
            proof {
                assert(self@.is_solved());
            }
            return ;
        }
        proof {
            assert(self@.is_target_at(target as int));
            lemma_target_is(self@, target as int);
        }
        let src = &self.stacks[target];
        let top: Block = src.blocks[src.blocks.len() - 1];
        if urgent.id == top.id {
            moves.push(Move { src: src.id, tgt: self.handover_id, block: top.id });
            proof {
                assert(moves@ =~= seq![Move { src: src.id, tgt: self.handover_id, block: top.id }]);
            }
        } else {
            let ghost accepts = accepts_from(src.id);
            let ghost onto = relocation_onto(src.id, top.id);
            let mut i: usize = 0;
            proof {
                reveal(Seq::filter);
                assert(self@.stacks.take(0).filter(accepts) =~= Seq::<StackView>::empty());
            }
            while i < n
                invariant
                    n == self.stacks.len(),
                    i <= n,
                    0 <= target < n,
                    src == &self.stacks[target as int],
                    accepts == accepts_from(src.id),
                    onto == relocation_onto(src.id, top.id),
                    moves@ == self@.stacks.take(i as int).filter(accepts).map_values(onto),
                decreases n - i,
            {
                let tgt = &self.stacks[i];
                proof {
                    reveal(Seq::filter);
                    let upto = self@.stacks.take(i + 1);
                    assert(upto.drop_last() =~= self@.stacks.take(i as int));
                    assert(upto.last() == tgt@);
                    let kept = self@.stacks.take(i as int).filter(accepts);
                    if accepts(tgt@) {
                        assert(upto.filter(accepts) == kept.push(tgt@));
                        assert(kept.push(tgt@).map_values(onto) =~= kept.map_values(onto).push(onto(tgt@)));
                    } else {
                        assert(upto.filter(accepts) == kept);
                    }
                }
                if tgt.has_spare_capacity() && src.id != tgt.id {
                    moves.push(Move { src: src.id, tgt: tgt.id, block: top.id });
                }
                i = i + 1;
            }
            proof {
                assert(self@.stacks.take(n as int) =~= self@.stacks);
            }
        }
    }
}

/// A move that can be carried out leaves no stack over its capacity, if none
/// was before.
pub proof fn lemma_apply_move_keeps_capacity(state: StateView, mov: Move)
    requires
        state.can_apply(mov),
        state.within_capacity(),
    ensures
        state.apply_move(mov).within_capacity(),
{
    let after = state.apply_move(mov);
    assert(state.is_stack_at(mov.src, state.position_of(mov.src)));
    if mov.tgt != state.handover_id {
        assert(state.is_stack_at(mov.tgt, state.position_of(mov.tgt)));
    }
    assert forall|k: int| 0 <= k < after.stacks.len() implies (#[trigger] after.stacks[k]).blocks.len()
        <= after.stacks[k].max_height by {
        assert(state.stacks[k].blocks.len() <= state.stacks[k].max_height);
    }
}

/// A move changes no stack's identifier or capacity, nor the number of
/// stacks, so every identifier goes on naming the stack that it named.
pub proof fn lemma_apply_move_keeps_ids(state: StateView, mov: Move)
    requires
        state.can_apply(mov),
    ensures
        state.apply_move(mov).stacks.len() == state.stacks.len(),
        state.apply_move(mov).handover_id == state.handover_id,
        state.apply_move(mov).arrival_id == state.arrival_id,
        forall|k: int|
            0 <= k < state.stacks.len() ==> (#[trigger] state.apply_move(mov).stacks[k]).id == state.stacks[k].id
                && state.apply_move(mov).stacks[k].max_height == state.stacks[k].max_height,
        state.has_distinct_ids() ==> state.apply_move(mov).has_distinct_ids(),
{
    let after = state.apply_move(mov);
    assert(state.is_stack_at(mov.src, state.position_of(mov.src)));
    if mov.tgt != state.handover_id {
        assert(state.is_stack_at(mov.tgt, state.position_of(mov.tgt)));
    }
    assert forall|k: int| 0 <= k < state.stacks.len() implies (#[trigger] after.stacks[k]).id == state.stacks[k].id
        && after.stacks[k].max_height == state.stacks[k].max_height by {}
    if state.has_distinct_ids() {
        assert forall|a: int, b: int| 0 <= a < b < after.stacks.len() implies (#[trigger] after.stacks[a]).id != (
        #[trigger] after.stacks[b]).id by {
            assert(state.stacks[a].id != state.stacks[b].id);
        }
        assert forall|k: int| 0 <= k < after.stacks.len() implies (#[trigger] after.stacks[k]).id
            != after.handover_id by {
            assert(state.stacks[k].id != state.handover_id);
        }
    }
}

/// What a move that can be carried out does to the stacks: the source
/// loses its top block, the target, if it is a stack, gets that block on
/// top, and every other stack stays as it is.
pub proof fn lemma_apply_move_moves_one_block(state: StateView, mov: Move)
    requires
        state.has_distinct_ids(),
        state.can_apply(mov),
    ensures
        ({
            let src = state.position_of(mov.src);
            let tgt = state.position_of(mov.tgt);
            let after = state.apply_move(mov);
            let block = state.stacks[src].blocks.last();
            &&& state.is_stack_at(mov.src, src)
            &&& block.id == mov.block
            &&& after.moves == state.moves.push(mov)
            &&& mov.tgt == state.handover_id ==> after.stacks == state.stacks.update(src, state.stacks[src].lifted())
            &&& mov.tgt != state.handover_id && tgt != src ==> {
                &&& state.is_stack_at(mov.tgt, tgt)
                &&& after.stacks == state.stacks.update(src, state.stacks[src].lifted()).update(
                    tgt,
                    state.stacks[tgt].placed(block),
                )
            }
            &&& mov.tgt != state.handover_id && tgt == src ==> after.stacks == state.stacks
        }),
{
    let src = state.position_of(mov.src);
    let tgt = state.position_of(mov.tgt);
    let after = state.apply_move(mov);
    assert(state.is_stack_at(mov.src, src));
    if mov.tgt != state.handover_id {
        assert(state.is_stack_at(mov.tgt, tgt));
        if tgt == src {
            let stack = state.stacks[src];
            assert(stack.lifted().placed(stack.blocks.last()).blocks =~= stack.blocks);
            assert(after.stacks =~= state.stacks);
        }
    }
}

/// A stack that holds a block has a most urgent one.
pub proof fn lemma_most_urgent_exists(stack: StackView)
    requires
        stack.blocks.len() > 0,
    ensures
        stack.is_most_urgent_at(stack.most_urgent_index()),
{
    let i = most_urgent_below(stack, stack.blocks.len());
    assert(stack.is_most_urgent_at(i));
}

proof fn most_urgent_below(stack: StackView, n: nat) -> (i: int)
    requires
        0 < n <= stack.blocks.len(),
    ensures
        0 <= i < n,
        forall|j: int| 0 <= j < n ==> stack.blocks[i].prio <= (#[trigger] stack.blocks[j]).prio,
        forall|j: int| 0 <= j < i ==> stack.blocks[i].prio < (#[trigger] stack.blocks[j]).prio,
    decreases n,
{
    if n == 1 {
        0
    } else {
        let before = most_urgent_below(stack, (n - 1) as nat);
        if stack.blocks[n - 1].prio < stack.blocks[before].prio {
            n - 1
        } else {
            before
        }
    }
}

/// A state that is not solved has a target stack.
pub proof fn lemma_target_exists(state: StateView)
    requires
        !state.is_solved(),
    ensures
        state.is_target_at(state.target()),
{
    let found = target_below(state, state.stacks.len());
    assert(found is Some);
    assert(state.is_target_at(found->0));
}

proof fn target_below(state: StateView, n: nat) -> (found: Option<int>)
    requires
        n <= state.stacks.len(),
    ensures
        found is None ==> forall|j: int| 0 <= j < n ==> (#[trigger] state.stacks[j]).blocks.len() == 0,
        found matches Some(k) ==> {
            &&& 0 <= k < n
            &&& state.stacks[k].blocks.len() > 0
            &&& forall|j: int|
                0 <= j < n && state.stacks[j].blocks.len() > 0 ==> state.urgency(k) <= #[trigger] state.urgency(j)
            &&& forall|j: int|
                0 <= j < k && state.stacks[j].blocks.len() > 0 ==> state.urgency(k) < #[trigger] state.urgency(j)
        },
    decreases n,
{
    if n == 0 {
        None
    } else {
        let before = target_below(state, (n - 1) as nat);
        if state.stacks[n - 1].blocks.len() == 0 {
            before
        } else {
            match before {
                None => Some(n - 1),
                Some(k) => if state.urgency(n - 1) < state.urgency(k) {
                    Some(n - 1)
                } else {
                    Some(k)
                },
            }
        }
    }
}

/// No block of an unsolved state is more urgent than the most urgent block
/// of the target stack: the block that a forced move hands over, or clears
/// the way to, is the one that has to leave first.
pub proof fn lemma_target_holds_most_urgent(state: StateView, k: int, h: int)
    requires
        0 <= k < state.stacks.len(),
        0 <= h < state.stacks[k].blocks.len(),
    ensures
        state.is_target_at(state.target()),
        state.urgency(state.target()) <= state.stacks[k].blocks[h].prio,
{
    assert(state.stacks[k].blocks.len() > 0);
    lemma_target_exists(state);
    lemma_most_urgent_exists(state.stacks[k]);
    assert(state.urgency(state.target()) <= state.urgency(k));
}

/// Every forced move takes the top block of the target stack: it names that
/// stack as its source and the block on top of it as its block.
pub proof fn lemma_forced_moves_take_top(state: StateView, i: int)
    requires
        0 <= i < state.forced_moves().len(),
    ensures
        state.is_target_at(state.target()),
        state.forced_moves()[i].src == state.stacks[state.target()].id,
        state.stacks[state.target()].top() == Some(state.stacks[state.target()].blocks.last()),
        state.forced_moves()[i].block == state.stacks[state.target()].blocks.last().id,
{
    lemma_target_exists(state);
}

/// Where no two stacks share an identifier, every forced move can be
/// carried out.
pub proof fn lemma_forced_moves_can_apply(state: StateView, i: int)
    requires
        state.has_distinct_ids(),
        0 <= i < state.forced_moves().len(),
    ensures
        state.can_apply(state.forced_moves()[i]),
{
    lemma_target_exists(state);
    let k = state.target();
    let src = state.stacks[k];
    let top = src.blocks.last();
    let mov = state.forced_moves()[i];
    lemma_distinct_ids_name_positions(state, k);
    if src.blocks[src.most_urgent_index()].id != top.id {
        let accepts = accepts_from(src.id);
        let kept = state.stacks.filter(accepts);
        let tgt = kept[i];
        state.stacks.lemma_filter_pred(accepts, i);
        assert(kept.contains(tgt));
        state.stacks.lemma_filter_contains_rev(accepts, tgt);
        let j = choose|j: int| 0 <= j < state.stacks.len() && state.stacks[j] == tgt;
        lemma_distinct_ids_name_positions(state, j);
        assert(mov.tgt == tgt.id);
        assert(j != k);
        assert(state.lifted(k)[j] == state.stacks[j]);
    }
}

/// A forced move keeps what a search relies on: made in a state whose
/// stacks have identifiers of their own and hold no more than their
/// capacities, it can be carried out, and the state after it is such a
/// state again, with every stack under its identifier and capacity.
pub proof fn lemma_forced_move_keeps_invariants(state: StateView, i: int)
    requires
        state.has_distinct_ids(),
        state.within_capacity(),
        0 <= i < state.forced_moves().len(),
    ensures
        state.can_apply(state.forced_moves()[i]),
        state.apply_move(state.forced_moves()[i]).within_capacity(),
        state.apply_move(state.forced_moves()[i]).has_distinct_ids(),
        state.apply_move(state.forced_moves()[i]).stacks.len() == state.stacks.len(),
        forall|k: int|
            0 <= k < state.stacks.len() ==> (#[trigger] state.apply_move(state.forced_moves()[i]).stacks[k]).id
                == state.stacks[k].id && state.apply_move(state.forced_moves()[i]).stacks[k].max_height
                == state.stacks[k].max_height,
{
    let mov = state.forced_moves()[i];
    lemma_forced_moves_can_apply(state, i);
    lemma_apply_move_keeps_capacity(state, mov);
    lemma_apply_move_keeps_ids(state, mov);
}

/// The most moves that one schedule holds.
pub const MAX_MOVES: usize = 3;

/// The due times of `blocks`, in their order.
pub open spec fn dues(blocks: Seq<model::Block>) -> Seq<i128> {
    blocks.map_values(|b: model::Block| b.due as i128)
}

/// Some block of `blocks` has the identifier `id`.
pub open spec fn has_id(blocks: Seq<model::Block>, id: i32) -> bool {
    exists|i: int| 0 <= i < blocks.len() && (#[trigger] blocks[i]).id == id
}

/// Of the blocks that share its identifier, the block at position `i` is
/// the one that is due last, or of several the one that stands last.
pub open spec fn is_last_with_id(blocks: Seq<model::Block>, i: int) -> bool {
    &&& 0 <= i < blocks.len()
    &&& forall|j: int|
        0 <= j < blocks.len() && j != i && (#[trigger] blocks[j]).id == blocks[i].id ==> precedes(dues(blocks), j, i)
}

/// The position of the block that gives the identifier `id` its priority.
pub open spec fn last_with_id(blocks: Seq<model::Block>, id: i32) -> int {
    choose|i: int| is_last_with_id(blocks, i) && blocks[i].id == id
}

/// The priority of each block, by its identifier: its rank among all blocks
/// in ascending order of the due times, blocks that are due together in the
/// order in which they stand. Identifiers are meant to be unique; of blocks
/// that share one, the highest rank counts.
pub open spec fn priority_table(blocks: Seq<model::Block>) -> Map<i32, u32> {
    Map::new(|id: i32| has_id(blocks, id), |id: i32| rank(dues(blocks), last_with_id(blocks, id)) as u32)
}

/// A block that shares its identifier with no other has its rank as its
/// priority.
pub proof fn lemma_priority_is_rank(blocks: Seq<model::Block>, i: int)
    requires
        0 <= i < blocks.len(),
        blocks.len() <= u32::MAX,
        forall|j: int| 0 <= j < blocks.len() && j != i ==> (#[trigger] blocks[j]).id != blocks[i].id,
    ensures
        priority_table(blocks).contains_key(blocks[i].id),
        priority_table(blocks)[blocks[i].id] == rank(dues(blocks), i),
        rank(dues(blocks), i) < blocks.len(),
{
    let id = blocks[i].id;
    assert(is_last_with_id(blocks, i));
    let chosen = last_with_id(blocks, id);
    assert(chosen == i);
    lemma_rank_below_len(dues(blocks), i);
}

/// Of two blocks that share their identifiers with no other, the one that
/// is due earlier has the lower priority, and of two that are due together
/// the one that stands first.
pub proof fn lemma_priorities_follow_due_times(blocks: Seq<model::Block>, i: int, j: int)
    requires
        blocks.len() <= u32::MAX,
        0 <= i < blocks.len(),
        0 <= j < blocks.len(),
        forall|k: int| 0 <= k < blocks.len() && k != i ==> (#[trigger] blocks[k]).id != blocks[i].id,
        forall|k: int| 0 <= k < blocks.len() && k != j ==> (#[trigger] blocks[k]).id != blocks[j].id,
        precedes(dues(blocks), i, j),
    ensures
        priority_table(blocks)[blocks[i].id] < priority_table(blocks)[blocks[j].id],
{
    lemma_priority_is_rank(blocks, i);
    lemma_priority_is_rank(blocks, j);
    lemma_rank_respects_order(dues(blocks), i, j);
}

/// The priorities depend on the blocks alone: worlds that hold the same
/// blocks in the same order give the same table, however often it is asked
/// for.
pub proof fn lemma_priorities_are_determined(first: World, second: World)
    requires
        first.all_blocks() == second.all_blocks(),
    ensures
        priority_table(first.all_blocks()) == priority_table(second.all_blocks()),
{
}

/// The place at which the identifier `id` was entered last among the first
/// `p` places of `order`.
pub open spec fn is_last_entry(blocks: Seq<model::Block>, order: Seq<usize>, p: int, id: i32, q: int) -> bool {
    &&& 0 <= q < p
    &&& blocks[order[q] as int].id == id
    &&& forall|r: int| q < r < p ==> (#[trigger] blocks[order[r] as int]).id != id
}

fn append_blocks(all: &mut Vec<model::Block>, stack: &model::Stack)
    ensures
        final(all)@ == old(all)@ + stack.bottom_to_top@,
{
    let n: usize = stack.bottom_to_top.len();
    let mut i: usize = 0;
    while i < n
        invariant
            n == stack.bottom_to_top.len(),
            i <= n,
            all@ == old(all)@ + stack.bottom_to_top@.take(i as int),
        decreases n - i,
    {
        all.push(stack.bottom_to_top[i]);
        proof {
            assert(stack.bottom_to_top@.take(i + 1) =~= stack.bottom_to_top@.take(i as int).push(
                stack.bottom_to_top[i as int],
            ));
            assert(all@ =~= old(all)@ + stack.bottom_to_top@.take(i + 1));
        }
        i = i + 1;
    }
    proof {
        assert(stack.bottom_to_top@.take(n as int) =~= stack.bottom_to_top@);
    }
}

/// Every block of the world, the production stack first.
pub fn collect_blocks(world: &World) -> (all: Vec<model::Block>)
    ensures
        all@ == world.all_blocks(),
{
    let mut all: Vec<model::Block> = Vec::new();
    append_blocks(&mut all, &world.production);
    let n: usize = world.buffers.len();
    let mut k: usize = 0;
    proof {
        assert(all@ =~= world.production.bottom_to_top@ + model::blocks_of(world.buffers@, 0));
    }
    while k < n
        invariant
            n == world.buffers.len(),
            k <= n,
            all@ == world.production.bottom_to_top@ + model::blocks_of(world.buffers@, k as nat),
        decreases n - k,
    {
        append_blocks(&mut all, &world.buffers[k]);
        proof {
            assert(all@ =~= world.production.bottom_to_top@ + model::blocks_of(world.buffers@, (k + 1) as nat));
        }
        k = k + 1;
    }
    all
}

/// Gives each block a priority by its due time: the block that is due first
/// gets zero, the next one, and so on; blocks that are due together keep the
/// order in which they stand.
pub fn prioritize_by_due_date(world: &World) -> (table: HashMap<i32, u32>)
    requires
        world.all_blocks().len() <= u32::MAX,
    ensures
        table@ == priority_table(world.all_blocks()),
{
    broadcast use vstd::std_specs::hash::group_hash_axioms;

    let all = collect_blocks(world);
    let n: usize = all.len();
    let mut keys: Vec<i128> = Vec::new();
    let mut i: usize = 0;
    while i < n
        invariant
            n == all.len(),
            i <= n,
            keys@ == dues(all@).take(i as int),
        decreases n - i,
    {
        keys.push(all[i].due as i128);
        proof {
            assert(dues(all@).take(i + 1) =~= dues(all@).take(i as int).push(all[i as int].due as i128));
        }
        i = i + 1;
    }
    proof {
        assert(dues(all@).take(n as int) =~= dues(all@));
    }
    let order = stable_order(&keys);
    let mut table: HashMap<i32, u32> = HashMap::new();
    let mut p: usize = 0;
    while p < n
        invariant
            n == all.len(),
            n <= u32::MAX,
            p <= n,
            keys@ == dues(all@),
            is_stable_order(keys@, order@),
            forall|id: i32| #[trigger]
                table@.contains_key(id) ==> is_last_entry(all@, order@, p as int, id, table@[id] as int),
            forall|q: int| 0 <= q < p ==> table@.contains_key((#[trigger] all[order[q] as int]).id),
        decreases n - p,
    {
        let id: i32 = all[order[p]].id;
        let ghost before = table@;
        table.insert(id, p as u32);
        proof {
            assert forall|other: i32| #[trigger] table@.contains_key(other) implies is_last_entry(
                all@,
                order@,
                p + 1,
                other,
                table@[other] as int,
            ) by {
                if other != id {
                    assert(before.contains_key(other));
                    assert(is_last_entry(all@, order@, p as int, other, before[other] as int));
                }
            }
        }
        p = p + 1;
    }
    proof {
        let blocks = all@;
        let wanted = priority_table(blocks);
        assert forall|id: i32| table@.contains_key(id) implies #[trigger] has_id(blocks, id) by {
            assert(is_last_entry(blocks, order@, n as int, id, table@[id] as int));
            assert(blocks[order[table@[id] as int] as int].id == id);
        }
        assert forall|id: i32| #[trigger] has_id(blocks, id) implies table@.contains_key(id) by {
            let i = choose|i: int| 0 <= i < blocks.len() && (#[trigger] blocks[i]).id == id;
            assert(has_place(order@, i));
            let q = choose|q: int| 0 <= q < order.len() && #[trigger] order[q] as int == i;
            assert(table@.contains_key(blocks[order[q] as int].id));
        }
        assert forall|id: i32| table@.contains_key(id) implies table@[id] == #[trigger] wanted[id] by {
            let q = table@[id] as int;
            assert(is_last_entry(blocks, order@, n as int, id, q));
            let i = order[q] as int;
            assert(is_last_with_id(blocks, i)) by {
                assert forall|j: int| 0 <= j < blocks.len() && j != i && (#[trigger] blocks[j]).id == blocks[i].id
                    implies precedes(dues(blocks), j, i) by {
                    assert(has_place(order@, j));
                    let r = choose|r: int| 0 <= r < order.len() && #[trigger] order[r] as int == j;
                    if r > q {
                        assert(blocks[order[r] as int].id != id);
                    }
                    assert(r < q);
                    assert(precedes(keys@, order[r] as int, order[q] as int));
                }
            }
            let chosen = last_with_id(blocks, id);
            assert(is_last_with_id(blocks, chosen) && blocks[chosen].id == id);
            assert(chosen == i);
            lemma_rank_is_place(keys@, order@, q);
        }
        assert(table@ =~= wanted);
    }
    table
}

/// A move of the search as a move of the crane.
pub open spec fn as_crane_move(mov: Move) -> CraneMove {
    CraneMove { block_id: mov.block, source_id: mov.src, target_id: mov.tgt }
}

/// The move would hand a block over while the handover does not take any.
pub open spec fn is_held_back(handover: model::Handover, mov: Move) -> bool {
    !handover.ready && mov.tgt == handover.id
}

/// `k` moves are scheduled: the leading ones, up to the most a schedule
/// holds, and only up to the first that is held back.
pub open spec fn is_scheduled_count(handover: model::Handover, moves: Seq<Move>, k: int) -> bool {
    &&& 0 <= k <= moves.len()
    &&& k <= MAX_MOVES
    &&& forall|i: int| 0 <= i < k ==> !is_held_back(handover, #[trigger] moves[i])
    &&& k < MAX_MOVES && k < moves.len() ==> is_held_back(handover, moves[k])
}

/// The number of moves that are scheduled.
pub open spec fn scheduled_count(handover: model::Handover, moves: Seq<Move>) -> int {
    choose|k: int| is_scheduled_count(handover, moves, k)
}

/// The moves of the crane that a solution is turned into.
pub open spec fn scheduled_moves(handover: model::Handover, moves: Seq<Move>) -> Seq<CraneMove> {
    moves.take(scheduled_count(handover, moves)).map_values(|m: Move| as_crane_move(m))
}

/// Only one number of moves can be the scheduled one.
pub proof fn lemma_scheduled_count_is(handover: model::Handover, moves: Seq<Move>, k: int)
    requires
        is_scheduled_count(handover, moves, k),
    ensures
        scheduled_count(handover, moves) == k,
{
    let other = scheduled_count(handover, moves);
    if other < k {
        assert(!is_held_back(handover, moves[other]));
    } else if k < other {
        assert(!is_held_back(handover, moves[k]));
    }
}

/// Turns the moves of a solution into a schedule for the crane: the leading
/// moves in their order, three at most, and none from the first on that
/// would hand a block over while the handover is not ready.
pub fn create_schedule_from_solution(world: &World, moves: Vec<Move>) -> (schedule: CraneSchedule)
    ensures
        schedule.moves@ == scheduled_moves(world.handover, moves@),
        schedule.sequence_nr == 0,
        schedule.moves@.len() <= MAX_MOVES,
        schedule.moves@.len() <= moves@.len(),
        !world.handover.ready ==> forall|i: int|
            0 <= i < schedule.moves@.len() ==> (#[trigger] schedule.moves@[i]).target_id != world.handover.id,
{
    let mut schedule = CraneSchedule::new();
    let n: usize = moves.len();
    let mut k: usize = 0;
    let mut stopped: bool = false;
    while k < n && k < MAX_MOVES && !stopped
        invariant
            n == moves.len(),
            k <= n,
            k <= MAX_MOVES,
            schedule.sequence_nr == 0,
            schedule.moves@ == moves@.take(k as int).map_values(|m: Move| as_crane_move(m)),
            forall|i: int| 0 <= i < k ==> !is_held_back(world.handover, #[trigger] moves[i]),
            stopped ==> k < n && is_held_back(world.handover, moves[k as int]),
        decreases n - k + if stopped { 0int } else { 1int },
    {
        let mov = moves[k];
        if !world.handover.ready && mov.tgt() == world.handover.id {
            stopped = true;
        } else {
            schedule.moves.push(CraneMove { block_id: mov.block(), source_id: mov.src(), target_id: mov.tgt() });
            proof {
                assert(moves@.take(k + 1) =~= moves@.take(k as int).push(mov));
                assert(schedule.moves@ =~= moves@.take(k + 1).map_values(|m: Move| as_crane_move(m)));
            }
            k = k + 1;
        }
    }
    proof {
        assert(is_scheduled_count(world.handover, moves@, k as int));
        lemma_scheduled_count_is(world.handover, moves@, k as int);
        assert forall|i: int| 0 <= i < schedule.moves@.len() && !world.handover.ready implies (
        #[trigger] schedule.moves@[i]).target_id != world.handover.id by {
            assert(!is_held_back(world.handover, moves[i]));
        }
    }
    schedule
}

/// The state a search of `world` starts from.
pub open spec fn search_start(world: World) -> StateView {
    initial_state(world, priority_table(world.all_blocks()))
}

/// A world in which no two stacks share an identifier gives a state in
/// which none do.
pub proof fn lemma_initial_state_keeps_ids(world: World, priorities: Map<i32, u32>)
    requires
        world.spec_has_distinct_ids(),
    ensures
        initial_state(world, priorities).has_distinct_ids(),
{
    let state = initial_state(world, priorities);
    assert forall|a: int, b: int| 0 <= a < b < state.stacks.len() implies (#[trigger] state.stacks[a]).id != (
    #[trigger] state.stacks[b]).id by {
        assert(world.stacks()[a].id != world.stacks()[b].id);
    }
    assert forall|k: int| 0 <= k < state.stacks.len() implies (#[trigger] state.stacks[k]).id != state.handover_id by {
        assert(world.stacks()[k].id != world.handover.id);
    }
}

/// The schedule for `world` that a search with the default budget gives.
pub fn calculate_schedule(world: &World) -> (schedule: CraneSchedule)
    requires
        world.spec_is_searchable(),
    ensures
        schedule.moves@ == scheduled_moves(world.handover, solution(search_start(*world), DEFAULT_BUDGET as nat)),
        schedule.sequence_nr == 0,
        schedule.moves@.len() <= MAX_MOVES,
        !world.handover.ready ==> forall|i: int|
            0 <= i < schedule.moves@.len() ==> (#[trigger] schedule.moves@[i]).target_id != world.handover.id,
{
    calculate_schedule_within(world, DEFAULT_BUDGET)
}

/// The schedule for `world`: the blocks get their priorities by due time,
/// a search that looks at no more than `budget` states finds the moves that
/// free and hand over the blocks in that order, and the first of these moves
/// are scheduled.
pub fn calculate_schedule_within(world: &World, budget: usize) -> (schedule: CraneSchedule)
    requires
        world.spec_is_searchable(),
    ensures
        schedule.moves@ == scheduled_moves(world.handover, solution(search_start(*world), budget as nat)),
        schedule.sequence_nr == 0,
        schedule.moves@.len() <= MAX_MOVES,
        !world.handover.ready ==> forall|i: int|
            0 <= i < schedule.moves@.len() ==> (#[trigger] schedule.moves@[i]).target_id != world.handover.id,
{
    let priorities = prioritize_by_due_date(world);
    let initial_state = BrpState::new(world, priorities);
    proof {
        lemma_initial_state_keeps_ids(*world, priority_table(world.all_blocks()));
    }
    let solution = depth_first_search_within(initial_state, budget);
    create_schedule_from_solution(world, solution)
}

} // verus!
