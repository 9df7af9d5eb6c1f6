//! A depth-first search over the states of the relocation problem, with a
//! budget of states to look at.

use crate::hotstorage::brp::{
    lemma_apply_move_keeps_capacity, lemma_apply_move_keeps_ids, lemma_forced_moves_can_apply, BrpState, Move,
    StateView,
};
use vstd::prelude::*;

verus! {

/// The number of states a search looks at unless told otherwise.
pub const DEFAULT_BUDGET: usize = 10000;

/// The shorter of the best solution so far and a new one; the earlier one
/// of two that are equally long.
pub open spec fn better(best: Option<Seq<Move>>, found: Seq<Move>) -> Option<Seq<Move>> {
    match best {
        Some(moves) => if moves.len() > found.len() {
            Some(found)
        } else {
            best
        },
        None => Some(found),
    }
}

/// The state after a given move from `state`.
pub open spec fn step_from(state: StateView) -> spec_fn(Move) -> StateView {
    |mov: Move| state.apply_move(mov)
}

/// The states that the forced moves of `state` lead to, in the order of the
/// moves.
pub open spec fn successors(state: StateView) -> Seq<StateView> {
    state.forced_moves().map_values(step_from(state))
}

/// What a search returns that still has `pending` to look at, the last
/// first, may look at `budget` states, and has `best` as its best solution
/// so far. A solved state is held against the best; any other is replaced by
/// its successors.
pub open spec fn search_from(pending: Seq<StateView>, budget: nat, best: Option<Seq<Move>>) -> Option<Seq<Move>>
    decreases budget,
{
    if budget == 0 || pending.len() == 0 {
        best
    } else {
        let state = pending.last();
        let rest = pending.drop_last();
        if state.is_solved() {
            search_from(rest, (budget - 1) as nat, better(best, state.moves))
        } else {
            search_from(rest + successors(state), (budget - 1) as nat, best)
        }
    }
}

/// The shortest solution that a search from `initial` comes upon while it
/// looks at no more than `budget` states, if it comes upon any.
pub open spec fn search(initial: StateView, budget: nat) -> Option<Seq<Move>> {
    search_from(seq![initial], budget, None)
}

/// The moves of the solution found, or no moves where none was found.
pub open spec fn solution(initial: StateView, budget: nat) -> Seq<Move> {
    match search(initial, budget) {
        Some(moves) => moves,
        None => Seq::empty(),
    }
}

/// The states of `pending` as mathematical values.
pub open spec fn views_of(pending: Seq<BrpState>) -> Seq<StateView> {
    pending.map_values(|s: BrpState| s@)
}

/// The best solution so far as a mathematical value.
pub open spec fn view_of(best: Option<Vec<Move>>) -> Option<Seq<Move>> {
    match best {
        Some(moves) => Some(moves@),
        None => None,
    }
}

/// Searches from `initial` with the default budget.
pub fn depth_first_search(initial: BrpState) -> (result: Vec<Move>)
    requires
        initial@.has_distinct_ids(),
    ensures
        result@ == solution(initial@, DEFAULT_BUDGET as nat),
{
    depth_first_search_within(initial, DEFAULT_BUDGET)
}

/// Searches from `initial`, depth first along the forced moves, and looks at
/// no more than `budget` states. Returns the moves of the shortest solved
/// state it came upon, the first of several, or no moves if it came upon
/// none.
pub fn depth_first_search_within(initial: BrpState, budget: usize) -> (result: Vec<Move>)
    requires
        initial@.has_distinct_ids(),
    ensures
        result@ == solution(initial@, budget as nat),
{
    let ghost start = initial@;
    let mut remaining: usize = budget;
    let mut best: Option<Vec<Move>> = None;
    let mut pending: Vec<BrpState> = Vec::new();
    pending.push(initial);
    let mut possible_moves: Vec<Move> = Vec::new();
    proof {
        assert(views_of(pending@) =~= seq![start]);
    }
    while remaining > 0 && pending.len() > 0
        invariant
            forall|i: int| 0 <= i < pending.len() ==> (#[trigger] pending[i])@.has_distinct_ids(),
            search_from(views_of(pending@), remaining as nat, view_of(best)) == search(start, budget as nat),
        decreases remaining,
    {
        let ghost before = views_of(pending@);
        let state = pending.pop().unwrap();
        remaining = remaining - 1;
        proof {
            assert(before.last() == state@);
            assert(views_of(pending@) =~= before.drop_last());
        }
        state.forced_moves(&mut possible_moves);
        if state.is_solved() {
            let ghost found = state@.moves;
            let sol = state.into_moves();
            let replace = match &best {
                Some(moves) => moves.len() > sol.len(),
                None => true,
            };
            if replace {
                best = Some(sol);
            }
            proof {
                assert(view_of(best) == better(view_of(best), found) || replace);
            }
        } else {
            let ghost rest = views_of(pending@);
            let n: usize = possible_moves.len();
            let mut i: usize = 0;
            while i < n
                invariant
                    n == possible_moves.len(),
                    i <= n,
                    possible_moves@ == state@.forced_moves(),
                    state@.has_distinct_ids(),
                    forall|j: int| 0 <= j < pending.len() ==> (#[trigger] pending[j])@.has_distinct_ids(),
                    views_of(pending@) == rest + successors(state@).take(i as int),
                decreases n - i,
            {
                proof {
                    lemma_forced_moves_can_apply(state@, i as int);
                }
                let next = state.apply_move(possible_moves[i]);
                let ghost reached = next@;
                let ghost so_far = views_of(pending@);
                pending.push(next);
                proof {
                    let after = successors(state@);
                    assert(after[i as int] == reached);
                    assert(views_of(pending@) =~= so_far.push(reached));
                    assert(after.take(i + 1) =~= after.take(i as int).push(reached));
                    assert(so_far.push(reached) =~= rest + after.take(i + 1));
                }
                i = i + 1;
            }
            proof {
                assert(successors(state@).take(n as int) =~= successors(state@));
            }
        }
    }
    match best {
        Some(moves) => moves,
        None => Vec::new(),
    }
}

/// A search that has a solution returns one that is no longer.
pub proof fn lemma_search_keeps_or_shortens(pending: Seq<StateView>, budget: nat, best: Seq<Move>)
    ensures
        search_from(pending, budget, Some(best)) is Some,
        search_from(pending, budget, Some(best))->0.len() <= best.len(),
    decreases budget,
{
    if budget != 0 && pending.len() != 0 {
        let state = pending.last();
        let rest = pending.drop_last();
        if state.is_solved() {
            lemma_search_keeps_or_shortens(rest, (budget - 1) as nat, better(Some(best), state.moves)->0);
        } else {
            lemma_search_keeps_or_shortens(rest + successors(state), (budget - 1) as nat, best);
        }
    }
}

/// From the same pending states and the same best solution so far, a search
/// with a larger budget finds a solution wherever one with a smaller budget
/// does, and none that is longer.
pub proof fn lemma_search_from_larger_budget(
    pending: Seq<StateView>,
    smaller: nat,
    larger: nat,
    best: Option<Seq<Move>>,
)
    requires
        smaller <= larger,
        search_from(pending, smaller, best) is Some,
    ensures
        search_from(pending, larger, best) is Some,
        search_from(pending, larger, best)->0.len() <= search_from(pending, smaller, best)->0.len(),
    decreases smaller,
{
    if pending.len() == 0 {
    } else if smaller == 0 {
        lemma_search_keeps_or_shortens(pending, larger, best->0);
    } else {
        let state = pending.last();
        let rest = pending.drop_last();
        if state.is_solved() {
            lemma_search_from_larger_budget(
                rest,
                (smaller - 1) as nat,
                (larger - 1) as nat,
                better(best, state.moves),
            );
        } else {
            lemma_search_from_larger_budget(
                rest + successors(state),
                (smaller - 1) as nat,
                (larger - 1) as nat,
                best,
            );
        }
    }
}

/// Where a search finds a solution, a search from the same state with a
/// larger budget finds one too, and none that is longer.
pub proof fn lemma_larger_budget_never_worse(initial: StateView, smaller: nat, larger: nat)
    requires
        smaller <= larger,
        search(initial, smaller) is Some,
    ensures
        search(initial, larger) is Some,
        solution(initial, larger).len() <= solution(initial, smaller).len(),
{
    lemma_search_from_larger_budget(seq![initial], smaller, larger, None);
}

/// The state reached from `state` by the moves of `path`, one after the
/// other.
pub open spec fn after(state: StateView, path: Seq<Move>) -> StateView
    decreases path.len(),
{
    if path.len() == 0 {
        state
    } else {
        after(state, path.drop_last()).apply_move(path.last())
    }
}

/// Every move of `path` is a forced move of the state in which it is made.
pub open spec fn is_forced_path(state: StateView, path: Seq<Move>) -> bool
    decreases path.len(),
{
    path.len() == 0 || {
        &&& is_forced_path(state, path.drop_last())
        &&& after(state, path.drop_last()).forced_moves().contains(path.last())
    }
}

/// Every move of `path` can be carried out in the state in which it is made.
pub open spec fn is_legal_path(state: StateView, path: Seq<Move>) -> bool
    decreases path.len(),
{
    path.len() == 0 || {
        &&& is_legal_path(state, path.drop_last())
        &&& after(state, path.drop_last()).can_apply(path.last())
    }
}

/// The moves that `state` records beyond those of `initial`.
pub open spec fn path_since(initial: StateView, moves: Seq<Move>) -> Seq<Move> {
    moves.skip(initial.moves.len() as int)
}

/// `state` is reached from `initial` by forced moves, and records them
/// behind the moves of `initial`.
pub open spec fn is_reached_from(initial: StateView, state: StateView) -> bool {
    &&& initial.moves.len() <= state.moves.len()
    &&& state.moves.take(initial.moves.len() as int) == initial.moves
    &&& is_forced_path(initial, path_since(initial, state.moves))
    &&& after(initial, path_since(initial, state.moves)) == state
}

/// `moves` are the moves of `initial` followed by forced moves that lead
/// from `initial` to a solved state.
pub open spec fn is_solution_from(initial: StateView, moves: Seq<Move>) -> bool {
    &&& initial.moves.len() <= moves.len()
    &&& moves.take(initial.moves.len() as int) == initial.moves
    &&& is_forced_path(initial, path_since(initial, moves))
    &&& after(initial, path_since(initial, moves)).is_solved()
    &&& after(initial, path_since(initial, moves)).moves == moves
}

proof fn lemma_successor_is_reached(initial: StateView, state: StateView, i: int)
    requires
        is_reached_from(initial, state),
        0 <= i < state.forced_moves().len(),
    ensures
        is_reached_from(initial, successors(state)[i]),
{
    let mov = state.forced_moves()[i];
    let next = state.apply_move(mov);
    let path = path_since(initial, state.moves);
    let longer = path_since(initial, next.moves);
    assert(longer =~= path.push(mov));
    assert(longer.drop_last() =~= path);
    assert(next.moves.take(initial.moves.len() as int) =~= state.moves.take(initial.moves.len() as int));
    assert(state.forced_moves().contains(mov));
}

proof fn lemma_search_from_sound(initial: StateView, pending: Seq<StateView>, budget: nat, best: Option<Seq<Move>>)
    requires
        forall|i: int| 0 <= i < pending.len() ==> is_reached_from(initial, #[trigger] pending[i]),
        best matches Some(moves) ==> is_solution_from(initial, moves),
    ensures
        search_from(pending, budget, best) matches Some(moves) ==> is_solution_from(initial, moves),
    decreases budget,
{
    if budget != 0 && pending.len() != 0 {
        let state = pending.last();
        let rest = pending.drop_last();
        if state.is_solved() {
            lemma_search_from_sound(initial, rest, (budget - 1) as nat, better(best, state.moves));
        } else {
            let next = rest + successors(state);
            assert forall|i: int| 0 <= i < next.len() implies is_reached_from(initial, #[trigger] next[i]) by {
                if i >= rest.len() {
                    lemma_successor_is_reached(initial, state, i - rest.len());
                } else {
                    assert(next[i] == pending[i]);
                }
            }
            lemma_search_from_sound(initial, next, (budget - 1) as nat, best);
        }
    }
}

/// What a search returns as a solution is one: forced moves, made one after
/// the other from the initial state, that end in a solved state.
pub proof fn lemma_search_finds_solutions(initial: StateView, budget: nat)
    ensures
        search(initial, budget) matches Some(moves) ==> is_solution_from(initial, moves),
{
    let pending = seq![initial];
    assert(path_since(initial, initial.moves) =~= Seq::<Move>::empty());
    assert(initial.moves.take(initial.moves.len() as int) =~= initial.moves);
    assert(is_reached_from(initial, pending[0]));
    lemma_search_from_sound(initial, pending, budget, None);
}

/// Where no two stacks share an identifier, the moves of a forced path can
/// all be carried out, and the identifiers are distinct still in the state
/// they lead to.
pub proof fn lemma_forced_path_is_legal(state: StateView, path: Seq<Move>)
    requires
        state.has_distinct_ids(),
        is_forced_path(state, path),
    ensures
        is_legal_path(state, path),
        after(state, path).has_distinct_ids(),
    decreases path.len(),
{
    if path.len() != 0 {
        let before = after(state, path.drop_last());
        lemma_forced_path_is_legal(state, path.drop_last());
        let i = choose|i: int| 0 <= i < before.forced_moves().len() && before.forced_moves()[i] == path.last();
        lemma_forced_moves_can_apply(before, i);
        lemma_apply_move_keeps_ids(before, path.last());
    }
}

/// Along a path of moves that can all be carried out, no stack comes to
/// hold more blocks than its capacity, if none did at the start.
pub proof fn lemma_legal_path_keeps_capacity(state: StateView, path: Seq<Move>)
    requires
        state.within_capacity(),
        is_legal_path(state, path),
    ensures
        after(state, path).within_capacity(),
    decreases path.len(),
{
    if path.len() != 0 {
        lemma_legal_path_keeps_capacity(state, path.drop_last());
        lemma_apply_move_keeps_capacity(after(state, path.drop_last()), path.last());
    }
}

/// A search from `pending` with this budget looks at every state that it
/// comes upon: it ends because nothing is left to look at, not because the
/// budget is spent.
pub open spec fn search_completes(pending: Seq<StateView>, budget: nat) -> bool
    decreases budget,
{
    if pending.len() == 0 {
        true
    } else if budget == 0 {
        false
    } else {
        let state = pending.last();
        let rest = pending.drop_last();
        if state.is_solved() {
            search_completes(rest, (budget - 1) as nat)
        } else {
            search_completes(rest + successors(state), (budget - 1) as nat)
        }
    }
}

/// The state that a path leads to records the moves of the path behind
/// those it had.
pub proof fn lemma_after_records_path(state: StateView, path: Seq<Move>)
    ensures
        after(state, path).moves == state.moves + path,
    decreases path.len(),
{
    if path.len() == 0 {
        assert(state.moves + path =~= state.moves);
    } else {
        lemma_after_records_path(state, path.drop_last());
        assert((state.moves + path.drop_last()).push(path.last()) =~= state.moves + path);
    }
}

/// A forced path starts with a forced move of the state it starts from,
/// and goes on as a forced path from the state after that move.
pub proof fn lemma_forced_path_from_front(state: StateView, path: Seq<Move>)
    requires
        is_forced_path(state, path),
        path.len() > 0,
    ensures
        state.forced_moves().contains(path[0]),
        is_forced_path(state.apply_move(path[0]), path.drop_first()),
        after(state, path) == after(state.apply_move(path[0]), path.drop_first()),
    decreases path.len(),
{
    let next = state.apply_move(path[0]);
    let begin = path.drop_last();
    let rest = path.drop_first();
    if path.len() == 1 {
        assert(begin.len() == 0);
        assert(rest.len() == 0);
        assert(path.last() == path[0]);
    } else {
        lemma_forced_path_from_front(state, begin);
        assert(begin[0] == path[0]);
        assert(rest.drop_last() =~= begin.drop_first());
        assert(rest.last() == path.last());
    }
}

proof fn lemma_complete_search_from(
    pending: Seq<StateView>,
    budget: nat,
    best: Option<Seq<Move>>,
    i: int,
    path: Seq<Move>,
)
    requires
        search_completes(pending, budget),
        0 <= i < pending.len(),
        is_forced_path(pending[i], path),
        after(pending[i], path).is_solved(),
    ensures
        search_from(pending, budget, best) is Some,
        search_from(pending, budget, best)->0.len() <= pending[i].moves.len() + path.len(),
    decreases budget,
{
    let state = pending.last();
    let rest = pending.drop_last();
    let less = (budget - 1) as nat;
    if i == pending.len() - 1 {
        if state.is_solved() {
            if path.len() > 0 {
                lemma_forced_path_from_front(state, path);
            }
            let kept = better(best, state.moves);
            lemma_search_keeps_or_shortens(rest, less, kept->0);
        } else {
            lemma_forced_path_from_front(state, path);
            let moves = state.forced_moves();
            let j = choose|j: int| 0 <= j < moves.len() && moves[j] == path[0];
            let next = rest + successors(state);
            assert(next[rest.len() + j] == state.apply_move(path[0]));
            lemma_complete_search_from(next, less, best, rest.len() + j, path.drop_first());
        }
    } else {
        if state.is_solved() {
            assert(rest[i] == pending[i]);
            lemma_complete_search_from(rest, less, better(best, state.moves), i, path);
        } else {
            let next = rest + successors(state);
            assert(next[i] == pending[i]);
            lemma_complete_search_from(next, less, best, i, path);
        }
    }
}

/// A search whose budget covers every state it comes upon returns a
/// shortest solution: where forced moves lead from the initial state to a
/// solved one, it returns such moves, and no more of them than any path of
/// forced moves to a solved state has.
pub proof fn lemma_complete_search_is_shortest(initial: StateView, budget: nat, path: Seq<Move>)
    requires
        search_completes(seq![initial], budget),
        is_forced_path(initial, path),
        after(initial, path).is_solved(),
    ensures
        search(initial, budget) is Some,
        is_solution_from(initial, solution(initial, budget)),
        solution(initial, budget).len() <= initial.moves.len() + path.len(),
{
    lemma_complete_search_from(seq![initial], budget, None, 0, path);
    lemma_search_finds_solutions(initial, budget);
}

/// A search that returns nothing though its budget covers every state it
/// comes upon shows that no forced moves lead to a solved state.
pub proof fn lemma_complete_search_finds_all(initial: StateView, budget: nat, path: Seq<Move>)
    requires
        search_completes(seq![initial], budget),
        search(initial, budget) is None,
        is_forced_path(initial, path),
    ensures
        !after(initial, path).is_solved(),
{
    if after(initial, path).is_solved() {
        lemma_complete_search_is_shortest(initial, budget, path);
    }
}

} // verus!
