//! Two rules, one for each crane. The handover crane serves the request
//! whose block lies nearest to the top of its stack: it brings the block to
//! the mill, together with the blocks below it that follow in sequence, or
//! clears what lies on the block. The shuffle crane empties the arrival
//! stack whose blocks are needed first.

use crate::order::{has_place, is_stable_order, lemma_rank_is_place, precedes, rank, stable_order};
use crate::rollingmill::model::{Block, CraneMove, Location, MoveType, PlannedCraneMoves, World};
use vstd::prelude::*;

verus! {

/// A request whose block was found: the positions of the location and of
/// the request, and the height at which the block lies.
#[derive(Clone, Copy, Debug, PartialEq, Eq, Structural)]
pub struct Located {
    pub location: usize,
    pub position: usize,
    pub request: usize,
}

/// The smaller of two numbers.
pub open spec fn least(a: int, b: int) -> int {
    if a <= b {
        a
    } else {
        b
    }
}

/// `moves` with one more move behind them, where there is one.
pub open spec fn extended(moves: Seq<CraneMove>, mov: Option<CraneMove>) -> Seq<CraneMove> {
    match mov {
        Some(m) => moves.push(m),
        None => moves,
    }
}

/// The lowest block of `blocks` with the identifier `id` lies at height
/// `pos`.
pub open spec fn is_first_position(blocks: Seq<Block>, id: i32, pos: int) -> bool {
    &&& 0 <= pos < blocks.len()
    &&& blocks[pos].id == id
    &&& forall|j: int| 0 <= j < pos ==> (#[trigger] blocks[j]).id != id
}

/// Some block of `blocks` has the identifier `id`.
pub open spec fn holds(blocks: Seq<Block>, id: i32) -> bool {
    exists|pos: int| is_first_position(blocks, id, pos)
}

/// The location is a buffer that holds the block `id`.
pub open spec fn offers(location: Location, id: i32) -> bool {
    location.spec_is_buffer() && holds(location.stack.bottom_to_top@, id)
}

/// The location at position `l` is the first buffer that holds the block
/// `id`.
pub open spec fn is_source(locations: Seq<Location>, id: i32, l: int) -> bool {
    &&& 0 <= l < locations.len()
    &&& offers(locations[l], id)
    &&& forall|j: int| 0 <= j < l ==> !offers(#[trigger] locations[j], id)
}

/// Some buffer holds the block `id`.
pub open spec fn has_source(locations: Seq<Location>, id: i32) -> bool {
    exists|l: int| is_source(locations, id, l)
}

/// Where the block of the request at position `r` lies.
pub open spec fn located(world: World, r: int) -> Located {
    let id = world.move_requests@[r].block_id;
    let l = choose|l: int| is_source(world.locations@, id, l);
    let pos = choose|pos: int| is_first_position(world.locations@[l].stack.bottom_to_top@, id, pos);
    Located { location: l as usize, position: pos as usize, request: r as usize }
}

/// Of the first `n` requests, those whose block lies in a buffer, in the
/// order of the requests.
pub open spec fn located_requests(world: World, n: nat) -> Seq<Located>
    decreases n,
{
    if n == 0 {
        Seq::empty()
    } else {
        let before = located_requests(world, (n - 1) as nat);
        if has_source(world.locations@, world.move_requests@[n - 1].block_id) {
            before.push(located(world, n - 1))
        } else {
            before
        }
    }
}

/// The number of blocks from the located block up to the top of its stack.
pub open spec fn depth_of(world: World, item: Located) -> i128 {
    (world.locations@[item.location as int].height() - item.position) as i128
}

/// The depths of the located blocks, in their order.
pub open spec fn depths(world: World, found: Seq<Located>) -> Seq<i128> {
    found.map_values(|item: Located| depth_of(world, item))
}

/// The block `k` below the top is of the type of `first` and comes `k`
/// after it in the sequence.
pub open spec fn continues_run(blocks: Seq<Block>, first: Block, k: int) -> bool {
    let b = blocks[blocks.len() - 1 - k];
    b.block_type == first.block_type && b.sequence == first.sequence + k
}

/// The top `n` blocks, read downwards, are the blocks that follow on
/// `first` in sequence, and the block below them is not.
pub open spec fn is_run_length(blocks: Seq<Block>, first: Block, n: int) -> bool {
    &&& 0 <= n <= blocks.len()
    &&& forall|k: int| 0 <= k < n ==> #[trigger] continues_run(blocks, first, k)
    &&& n < blocks.len() ==> !continues_run(blocks, first, n)
}

/// The number of blocks that can be taken from the top together, starting
/// with `first`.
pub open spec fn run_length(blocks: Seq<Block>, first: Block) -> int {
    choose|n: int| is_run_length(blocks, first, n)
}

/// The location takes `amount` blocks that come from the location with the
/// identifier `src_id`.
pub open spec fn takes_from(location: Location, src_id: i32, amount: int) -> bool {
    location.spec_is_buffer() && location.id != src_id && location.room() >= amount
}

/// The location at position `t` is the first buffer that takes `amount`
/// blocks from `src_id`.
pub open spec fn is_relocation_target(locations: Seq<Location>, src_id: i32, amount: int, t: int) -> bool {
    &&& 0 <= t < locations.len()
    &&& takes_from(locations[t], src_id, amount)
    &&& forall|j: int| 0 <= j < t ==> !takes_from(#[trigger] locations[j], src_id, amount)
}

/// The move of the handover crane that serves a located request, if there
/// is one. Where the top of the stack starts with the requested block, the
/// crane takes the blocks that follow in sequence, as many as it lifts, to
/// where the request wants them. Otherwise it takes what lies on the
/// requested block, as much as it lifts, to the first other buffer with
/// room for it; where no buffer has room, there is no move.
pub open spec fn handover_step(world: World, item: Located, move_id: i32) -> Option<CraneMove> {
    let src = world.locations@[item.location as int];
    let blocks = src.stack.bottom_to_top@;
    let run = run_length(blocks, blocks[item.position as int]);
    let capacity = world.handover_crane.crane_capacity;
    if run > 0 {
        Some(
            CraneMove {
                id: move_id,
                move_type: MoveType::PickupAndDropoff,
                release_time: world.now,
                pickup_location_id: src.id,
                dropoff_location_id: world.move_requests@[item.request as int].target_location_id,
                required_crane_id: world.handover_crane.id,
                amount: least(run, capacity as int) as i32,
            },
        )
    } else {
        let amount = least(blocks.len() - item.position - 1, capacity as int);
        if exists|t: int| is_relocation_target(world.locations@, src.id, amount, t) {
            let t = choose|t: int| is_relocation_target(world.locations@, src.id, amount, t);
            Some(
                CraneMove {
                    id: move_id,
                    move_type: MoveType::PickupAndDropoff,
                    release_time: world.now,
                    pickup_location_id: src.id,
                    dropoff_location_id: world.locations@[t].id,
                    required_crane_id: world.handover_crane.id,
                    amount: amount as i32,
                },
            )
        } else {
            None
        }
    }
}

/// The handover crane has a move that serves the located request.
pub open spec fn can_be_served(world: World, item: Located) -> bool {
    handover_step(world, item, 0) is Some
}

/// Of the located requests that can be served, the one at position `i`
/// comes first: its block lies nearest to the top, and of several such it
/// is the earliest request.
pub open spec fn is_first_served(world: World, found: Seq<Located>, i: int) -> bool {
    &&& 0 <= i < found.len()
    &&& can_be_served(world, found[i])
    &&& forall|j: int|
        0 <= j < found.len() && j != i && #[trigger] can_be_served(world, found[j]) ==> precedes(
            depths(world, found),
            i,
            j,
        )
}

/// The move of the handover crane beside `planned` moves, if any request
/// can be served. The located requests are tried in the order of their
/// depths, and every one that is tried takes a number: the move gets the
/// number of the planned moves, and one more for each request up to the one
/// it serves.
pub open spec fn handover_crane_move(world: World, planned: nat) -> Option<CraneMove> {
    let found = located_requests(world, world.move_requests@.len());
    if exists|i: int| is_first_served(world, found, i) {
        let i = choose|i: int| is_first_served(world, found, i);
        handover_step(world, found[i], (planned + rank(depths(world, found), i) + 1) as i32)
    } else {
        None
    }
}

/// `s` is the lowest sequence number among `blocks`.
pub open spec fn is_lowest_sequence(blocks: Seq<Block>, s: i32) -> bool {
    &&& exists|i: int| 0 <= i < blocks.len() && (#[trigger] blocks[i]).sequence == s
    &&& forall|j: int| 0 <= j < blocks.len() ==> (#[trigger] blocks[j]).sequence >= s
}

/// How soon the blocks of a location are needed: their lowest sequence
/// number, and less than any such number for a location without blocks.
pub open spec fn need_of(location: Location) -> int {
    if location.height() == 0 {
        i32::MIN - 1
    } else {
        (choose|s: i32| is_lowest_sequence(location.stack.bottom_to_top@, s)) as int
    }
}

/// The location at position `l` is the arrival stack whose blocks are
/// needed first, and of several such the first.
pub open spec fn is_shuffle_source(locations: Seq<Location>, l: int) -> bool {
    &&& 0 <= l < locations.len()
    &&& locations[l].spec_is_arrival()
    &&& forall|j: int|
        0 <= j < locations.len() && (#[trigger] locations[j]).spec_is_arrival() ==> need_of(locations[l]) <= need_of(
            locations[j],
        )
    &&& forall|j: int|
        0 <= j < l && (#[trigger] locations[j]).spec_is_arrival() ==> need_of(locations[l]) < need_of(locations[j])
}

/// No move of `planned` picks up or drops off at the location `id`.
pub open spec fn is_unused(planned: Seq<CraneMove>, id: i32) -> bool {
    forall|i: int|
        0 <= i < planned.len() ==> (#[trigger] planned[i]).pickup_location_id != id && planned[i].dropoff_location_id
            != id
}

/// The location is a buffer with room for `amount` blocks that no planned
/// move uses.
pub open spec fn takes_arrivals(location: Location, planned: Seq<CraneMove>, amount: int) -> bool {
    location.spec_is_buffer() && location.room() >= amount && is_unused(planned, location.id)
}

/// The location at position `t` is the first that takes `amount` arriving
/// blocks.
pub open spec fn is_shuffle_target(locations: Seq<Location>, planned: Seq<CraneMove>, amount: int, t: int) -> bool {
    &&& 0 <= t < locations.len()
    &&& takes_arrivals(locations[t], planned, amount)
    &&& forall|j: int| 0 <= j < t ==> !takes_arrivals(#[trigger] locations[j], planned, amount)
}

/// The move of the shuffle crane beside the moves `planned`: as many blocks
/// as the crane lifts, from the arrival stack that is needed first to the
/// first buffer that takes them; none where there is nothing to lift or no
/// such buffer.
pub open spec fn shuffle_crane_move(world: World, planned: Seq<CraneMove>) -> Option<CraneMove> {
    let src = world.locations@[choose|l: int| is_shuffle_source(world.locations@, l)];
    let amount = least(src.height() as int, world.shuffle_crane.crane_capacity as int);
    if amount != 0 && exists|t: int| is_shuffle_target(world.locations@, planned, amount, t) {
        let t = choose|t: int| is_shuffle_target(world.locations@, planned, amount, t);
        Some(
            CraneMove {
                id: (planned.len() + 1) as i32,
                move_type: MoveType::PickupAndDropoff,
                release_time: world.now,
                pickup_location_id: src.id,
                dropoff_location_id: world.locations@[t].id,
                required_crane_id: world.shuffle_crane.id,
                amount: amount as i32,
            },
        )
    } else {
        None
    }
}

/// The move of the handover crane, unless the crane has one to do.
pub open spec fn handover_part(world: World) -> Seq<CraneMove> {
    if world.spec_is_busy(world.handover_crane.id) {
        Seq::empty()
    } else {
        extended(Seq::empty(), handover_crane_move(world, 0))
    }
}

/// The moves that the two rules give: that of the handover crane, then that
/// of the shuffle crane, each unless the crane has a move to do.
pub open spec fn planned_moves(world: World) -> Seq<CraneMove> {
    let first = handover_part(world);
    if world.spec_is_busy(world.shuffle_crane.id) {
        first
    } else {
        extended(first, shuffle_crane_move(world, first))
    }
}

/// The number of blocks at a location.
pub fn size_of(location: &Location) -> (result: usize)
    ensures
        result == location.height(),
{
    location.stack.bottom_to_top.len()
}

/// The number of blocks that still fit at a location.
pub fn remaining_capacity(location: &Location) -> (result: i128)
    ensures
        result == location.room(),
{
    location.max_height as i128 - size_of(location) as i128
}

fn smaller_of(count: usize, capacity: i32) -> (result: i32)
    ensures
        result == least(count as int, capacity as int),
{
    if capacity < 0 {
        capacity
    } else if count < capacity as usize {
        count as i32
    } else {
        capacity
    }
}

fn position_of(blocks: &Vec<Block>, id: i32) -> (result: Option<usize>)
    ensures
        result is Some <==> holds(blocks@, id),
        result matches Some(pos) ==> is_first_position(blocks@, id, pos as int),
{
    let n: usize = blocks.len();
    let mut pos: usize = 0;
    while pos < n
        invariant
            n == blocks.len(),
            pos <= n,
            forall|j: int| 0 <= j < pos ==> (#[trigger] blocks[j]).id != id,
        decreases n - pos,
    {
        if blocks[pos].id == id {
            proof {
                assert(is_first_position(blocks@, id, pos as int));
            }
            return Some(pos);
        }
        pos = pos + 1;
    }
    proof {
        assert forall|p: int| !is_first_position(blocks@, id, p) by {
            if 0 <= p < blocks.len() {
                assert(blocks[p].id != id);
            }
        }
    }
    None
}

fn locate(world: &World, r: usize) -> (result: Option<Located>)
    requires
        r < world.move_requests@.len(),
    ensures
        result is Some <==> has_source(world.locations@, world.move_requests@[r as int].block_id),
        result matches Some(item) ==> {
            &&& item == located(*world, r as int)
            &&& item.location < world.locations@.len()
            &&& item.position < world.locations@[item.location as int].height()
            &&& item.request == r
        },
{
    let id: i32 = world.move_requests[r].block_id;
    let n: usize = world.locations.len();
    let mut l: usize = 0;
    while l < n
        invariant
            n == world.locations.len(),
            l <= n,
            r < world.move_requests@.len(),
            id == world.move_requests@[r as int].block_id,
            forall|j: int| 0 <= j < l ==> !offers(#[trigger] world.locations@[j], id),
        decreases n - l,
    {
        let src = &world.locations[l];
        if src.is_buffer() {
            match position_of(&src.stack.bottom_to_top, id) {
                Some(pos) => {
                    proof {
                        let locations = world.locations@;
                        let blocks = src.stack.bottom_to_top@;
                        assert(is_source(locations, id, l as int));
                        let chosen = choose|c: int| is_source(locations, id, c);
                        assert(chosen == l) by {
                            if chosen < l {
                                assert(!offers(locations[chosen], id));
                            } else if l < chosen {
                                assert(!offers(locations[l as int], id));
                            }
                        }
                        let at = choose|p: int| is_first_position(blocks, id, p);
                        assert(at == pos) by {
                            if at < pos {
                                assert(blocks[at].id != id);
                            } else if pos < at {
                                assert(blocks[pos as int].id != id);
                            }
                        }
                    }
                    return Some(Located { location: l, position: pos, request: r });
                },
                None => {},
            }
        }
        l = l + 1;
    }
    proof {
        assert forall|c: int| !is_source(world.locations@, id, c) by {
            if 0 <= c < world.locations@.len() {
                assert(!offers(world.locations@[c], id));
            }
        }
    }
    None
}

fn count_run(blocks: &Vec<Block>, first: Block) -> (result: usize)
    ensures
        result == run_length(blocks@, first),
        is_run_length(blocks@, first, result as int),
{
    let n: usize = blocks.len();
    let mut k: usize = 0;
    while k < n && blocks[n - 1 - k].block_type == first.block_type && blocks[n - 1 - k].sequence as i128
        == first.sequence as i128 + k as i128
        invariant
            n == blocks.len(),
            k <= n,
            forall|j: int| 0 <= j < k ==> #[trigger] continues_run(blocks@, first, j),
        decreases n - k,
    {
        k = k + 1;
    }
    proof {
        lemma_run_length_is(blocks@, first, k as int);
    }
    k
}

/// Only one number of blocks can be the length of the run from the top.
pub proof fn lemma_run_length_is(blocks: Seq<Block>, first: Block, n: int)
    requires
        is_run_length(blocks, first, n),
    ensures
        run_length(blocks, first) == n,
{
    let other = run_length(blocks, first);
    if other < n {
        assert(continues_run(blocks, first, other));
    } else if n < other {
        assert(continues_run(blocks, first, n));
    }
}

fn relocation_target(world: &World, src_id: i32, amount: i32) -> (result: Option<usize>)
    ensures
        result is Some <==> exists|t: int| is_relocation_target(world.locations@, src_id, amount as int, t),
        result matches Some(t) ==> {
            &&& t < world.locations@.len()
            &&& t == choose|c: int| is_relocation_target(world.locations@, src_id, amount as int, c)
        },
{
    let n: usize = world.locations.len();
    let mut t: usize = 0;
    while t < n
        invariant
            n == world.locations.len(),
            t <= n,
            forall|j: int| 0 <= j < t ==> !takes_from(#[trigger] world.locations@[j], src_id, amount as int),
        decreases n - t,
    {
        let tgt = &world.locations[t];
        if tgt.is_buffer() && tgt.id != src_id && remaining_capacity(tgt) >= amount as i128 {
            proof {
                let locations = world.locations@;
                assert(is_relocation_target(locations, src_id, amount as int, t as int));
                let chosen = choose|c: int| is_relocation_target(locations, src_id, amount as int, c);
                assert(chosen == t) by {
                    if chosen < t {
                        assert(!takes_from(locations[chosen], src_id, amount as int));
                    } else if t < chosen {
                        assert(!takes_from(locations[t as int], src_id, amount as int));
                    }
                }
            }
            return Some(t);
        }
        t = t + 1;
    }
    proof {
        assert forall|c: int| !is_relocation_target(world.locations@, src_id, amount as int, c) by {
            if 0 <= c < world.locations@.len() {
                assert(!takes_from(world.locations@[c], src_id, amount as int));
            }
        }
    }
    None
}

fn serve(world: &World, item: Located, move_id: i32) -> (result: Option<CraneMove>)
    requires
        item.location < world.locations@.len(),
        item.position < world.locations@[item.location as int].height(),
        item.request < world.move_requests@.len(),
    ensures
        result == handover_step(*world, item, move_id),
        result is Some <==> can_be_served(*world, item),
{
    let src = &world.locations[item.location];
    let blocks = &src.stack.bottom_to_top;
    let run: usize = count_run(blocks, blocks[item.position]);
    let capacity: i32 = world.handover_crane.crane_capacity;
    if run > 0 {
        Some(
            CraneMove {
                id: move_id,
                move_type: MoveType::PickupAndDropoff,
                release_time: world.now,
                pickup_location_id: src.id,
                dropoff_location_id: world.move_requests[item.request].target_location_id,
                required_crane_id: world.handover_crane.id,
                amount: smaller_of(run, capacity),
            },
        )
    } else {
        let amount: i32 = smaller_of(blocks.len() - item.position - 1, capacity);
        match relocation_target(world, src.id, amount) {
            Some(t) => Some(
                CraneMove {
                    id: move_id,
                    move_type: MoveType::PickupAndDropoff,
                    release_time: world.now,
                    pickup_location_id: src.id,
                    dropoff_location_id: world.locations[t].id,
                    required_crane_id: world.handover_crane.id,
                    amount,
                },
            ),
            None => None,
        }
    }
}

/// The located requests are no more than the requests.
pub proof fn lemma_located_requests_len(world: World, n: nat)
    ensures
        located_requests(world, n).len() <= n,
    decreases n,
{
    if n > 0 {
        lemma_located_requests_len(world, (n - 1) as nat);
    }
}

/// Plans a move of the handover crane, if a request can be served, and
/// numbers it behind the moves of `plan` and the requests tried before.
pub fn plan_handover_crane(world: &World, plan: &mut PlannedCraneMoves)
    requires
        old(plan).moves@.len() + world.move_requests@.len() <= i32::MAX,
    ensures
        final(plan).moves@ == extended(old(plan).moves@, handover_crane_move(*world, old(plan).moves@.len())),
        final(plan).sequence_nr == old(plan).sequence_nr,
{
    let planned: usize = plan.moves.len();
    let requests: usize = world.move_requests.len();
    let mut found: Vec<Located> = Vec::new();
    let mut keys: Vec<i128> = Vec::new();
    let mut r: usize = 0;
    while r < requests
        invariant
            requests == world.move_requests.len(),
            r <= requests,
            found@ == located_requests(*world, r as nat),
            keys@ == depths(*world, found@),
            forall|i: int|
                0 <= i < found.len() ==> {
                    &&& (#[trigger] found[i]).location < world.locations@.len()
                    &&& found[i].position < world.locations@[found[i].location as int].height()
                    &&& found[i].request < requests
                },
        decreases requests - r,
    {
        match locate(world, r) {
            Some(item) => {
                let depth: i128 = size_of(&world.locations[item.location]) as i128 - item.position as i128;
                found.push(item);
                keys.push(depth);
                proof {
                    assert(keys@ =~= depths(*world, found@));
                }
            },
            None => {},
        }
        r = r + 1;
    }
    proof {
        lemma_located_requests_len(*world, requests as nat);
    }
    let order = stable_order(&keys);
    let n: usize = order.len();
    let mut p: usize = 0;
    while p < n
        invariant
            n == order.len(),
            n == found.len(),
            n <= requests,
            p <= n,
            requests == world.move_requests.len(),
            planned == old(plan).moves@.len(),
            planned + requests <= i32::MAX,
            found@ == located_requests(*world, requests as nat),
            keys@ == depths(*world, found@),
            is_stable_order(keys@, order@),
            plan.moves@ == old(plan).moves@,
            plan.sequence_nr == old(plan).sequence_nr,
            forall|i: int|
                0 <= i < found.len() ==> {
                    &&& (#[trigger] found[i]).location < world.locations@.len()
                    &&& found[i].position < world.locations@[found[i].location as int].height()
                    &&& found[i].request < requests
                },
            forall|q: int| 0 <= q < p ==> !can_be_served(*world, found[(#[trigger] order[q]) as int]),
        decreases n - p,
    {
        let item = found[order[p]];
        let move_id: i32 = (planned + p + 1) as i32;
        match serve(world, item, move_id) {
            Some(mov) => {
                proof {
                    let i = order[p as int] as int;
                    assert forall|j: int|
                        0 <= j < found.len() && j != i && #[trigger] can_be_served(*world, found[j]) implies precedes(
                        keys@,
                        i,
                        j,
                    ) by {
                        assert(has_place(order@, j));
                        let q = choose|q: int| 0 <= q < order.len() && #[trigger] order[q] as int == j;
                        if q < p {
                            assert(!can_be_served(*world, found[order[q] as int]));
                        }
                        assert(precedes(keys@, order[p as int] as int, order[q] as int));
                    }
                    assert(is_first_served(*world, found@, i));
                    let chosen = choose|c: int| is_first_served(*world, found@, c);
                    assert(chosen == i) by {
                        if chosen != i {
                            assert(precedes(keys@, chosen, i));
                            assert(precedes(keys@, i, chosen));
                        }
                    }
                    lemma_rank_is_place(keys@, order@, p as int);
                }
                plan.moves.push(mov);
                return ;
            },
            None => {},
        }
        p = p + 1;
    }
    proof {
        assert forall|c: int| !is_first_served(*world, found@, c) by {
            if 0 <= c < found.len() {
                assert(has_place(order@, c));
                let q = choose|q: int| 0 <= q < order.len() && #[trigger] order[q] as int == c;
                assert(!can_be_served(*world, found[order[q] as int]));
            }
        }
    }
}

fn lowest_sequence(location: &Location) -> (result: Option<i32>)
    ensures
        result is None <==> location.height() == 0,
        result matches Some(s) ==> is_lowest_sequence(location.stack.bottom_to_top@, s) && need_of(*location) == s,
        result is None ==> need_of(*location) == i32::MIN - 1,
{
    let blocks = &location.stack.bottom_to_top;
    let n: usize = blocks.len();
    if n == 0 {
        return None;
    }
    let mut lowest: i32 = blocks[0].sequence;
    let mut i: usize = 1;
    while i < n
        invariant
            n == blocks.len(),
            1 <= i <= n,
            exists|k: int| 0 <= k < i && (#[trigger] blocks[k]).sequence == lowest,
            forall|j: int| 0 <= j < i ==> (#[trigger] blocks[j]).sequence >= lowest,
        decreases n - i,
    {
        if blocks[i].sequence < lowest {
            lowest = blocks[i].sequence;
        }
        i = i + 1;
    }
    proof {
        assert(is_lowest_sequence(blocks@, lowest));
        let chosen = choose|s: i32| is_lowest_sequence(blocks@, s);
        assert(chosen == lowest);
    }
    Some(lowest)
}

fn is_needed_sooner(candidate: Option<i32>, best: Option<i32>) -> (result: bool)
    ensures
        result == (match candidate {
            Some(s) => s as int,
            None => i32::MIN - 1,
        } < match best {
            Some(s) => s as int,
            None => i32::MIN - 1,
        }),
{
    match best {
        None => false,
        Some(b) => match candidate {
            None => true,
            Some(c) => c < b,
        },
    }
}

fn shuffle_source(world: &World) -> (result: usize)
    requires
        world.spec_has_arrival_stack(),
    ensures
        result < world.locations@.len(),
        is_shuffle_source(world.locations@, result as int),
        result == choose|l: int| is_shuffle_source(world.locations@, l),
{
    let n: usize = world.locations.len();
    let mut found: bool = false;
    let mut source: usize = 0;
    let mut need: Option<i32> = None;
    let mut l: usize = 0;
    while l < n
        invariant
            n == world.locations.len(),
            l <= n,
            !found ==> forall|j: int| 0 <= j < l ==> !(#[trigger] world.locations@[j]).spec_is_arrival(),
            found ==> {
                &&& source < l
                &&& world.locations@[source as int].spec_is_arrival()
                &&& need_of(world.locations@[source as int]) == match need {
                    Some(s) => s as int,
                    None => i32::MIN - 1,
                }
                &&& forall|j: int|
                    0 <= j < l && (#[trigger] world.locations@[j]).spec_is_arrival() ==> need_of(
                        world.locations@[source as int],
                    ) <= need_of(world.locations@[j])
                &&& forall|j: int|
                    0 <= j < source && (#[trigger] world.locations@[j]).spec_is_arrival() ==> need_of(
                        world.locations@[source as int],
                    ) < need_of(world.locations@[j])
            },
        decreases n - l,
    {
        let location = &world.locations[l];
        if location.is_arrival() {
            let candidate = lowest_sequence(location);
            if !found || is_needed_sooner(candidate, need) {
                found = true;
                source = l;
                need = candidate;
            }
        }
        l = l + 1;
    }
    proof {
        let locations = world.locations@;
        assert(found);
        assert(is_shuffle_source(locations, source as int));
        let chosen = choose|c: int| is_shuffle_source(locations, c);
        assert(chosen == source) by {
            if chosen < source {
                assert(need_of(locations[source as int]) < need_of(locations[chosen]));
                assert(need_of(locations[chosen]) <= need_of(locations[source as int]));
            } else if source < chosen {
                assert(need_of(locations[chosen]) < need_of(locations[source as int]));
                assert(need_of(locations[source as int]) <= need_of(locations[chosen]));
            }
        }
    }
    source
}

fn is_free_of(moves: &Vec<CraneMove>, id: i32) -> (result: bool)
    ensures
        result == is_unused(moves@, id),
{
    let n: usize = moves.len();
    let mut i: usize = 0;
    while i < n
        invariant
            n == moves.len(),
            i <= n,
            forall|j: int|
                0 <= j < i ==> (#[trigger] moves[j]).pickup_location_id != id && moves[j].dropoff_location_id != id,
        decreases n - i,
    {
        if moves[i].pickup_location_id == id || moves[i].dropoff_location_id == id {
            return false;
        }
        i = i + 1;
    }
    true
}

fn shuffle_target(world: &World, planned: &Vec<CraneMove>, amount: i32) -> (result: Option<usize>)
    ensures
        result is Some <==> exists|t: int| is_shuffle_target(world.locations@, planned@, amount as int, t),
        result matches Some(t) ==> {
            &&& t < world.locations@.len()
            &&& t == choose|c: int| is_shuffle_target(world.locations@, planned@, amount as int, c)
        },
{
    let n: usize = world.locations.len();
    let mut t: usize = 0;
    while t < n
        invariant
            n == world.locations.len(),
            t <= n,
            forall|j: int| 0 <= j < t ==> !takes_arrivals(#[trigger] world.locations@[j], planned@, amount as int),
        decreases n - t,
    {
        let tgt = &world.locations[t];
        if tgt.is_buffer() && remaining_capacity(tgt) >= amount as i128 && is_free_of(planned, tgt.id) {
            proof {
                let locations = world.locations@;
                assert(is_shuffle_target(locations, planned@, amount as int, t as int));
                let chosen = choose|c: int| is_shuffle_target(locations, planned@, amount as int, c);
                assert(chosen == t) by {
                    if chosen < t {
                        assert(!takes_arrivals(locations[chosen], planned@, amount as int));
                    } else if t < chosen {
                        assert(!takes_arrivals(locations[t as int], planned@, amount as int));
                    }
                }
            }
            return Some(t);
        }
        t = t + 1;
    }
    proof {
        assert forall|c: int| !is_shuffle_target(world.locations@, planned@, amount as int, c) by {
            if 0 <= c < world.locations@.len() {
                assert(!takes_arrivals(world.locations@[c], planned@, amount as int));
            }
        }
    }
    None
}

/// Plans a move of the shuffle crane, if there are blocks to take from the
/// arrival stacks and a buffer for them that the moves of `plan` leave
/// alone, and numbers it behind those moves.
pub fn plan_shuffle_crane(world: &World, plan: &mut PlannedCraneMoves)
    requires
        old(plan).moves@.len() < i32::MAX,
        world.spec_has_arrival_stack(),
    ensures
        final(plan).moves@ == extended(old(plan).moves@, shuffle_crane_move(*world, old(plan).moves@)),
        final(plan).sequence_nr == old(plan).sequence_nr,
{
    let move_id: i32 = plan.moves.len() as i32 + 1;
    let src = &world.locations[shuffle_source(world)];
    let amount: i32 = smaller_of(size_of(src), world.shuffle_crane.crane_capacity);
    if amount == 0 {
        return ;
    }
    match shuffle_target(world, &plan.moves, amount) {
        Some(t) => {
            plan.moves.push(
                CraneMove {
                    id: move_id,
                    move_type: MoveType::PickupAndDropoff,
                    release_time: world.now,
                    pickup_location_id: src.id,
                    dropoff_location_id: world.locations[t].id,
                    required_crane_id: world.shuffle_crane.id,
                    amount,
                },
            );
        },
        None => {},
    }
}

/// The moves for the cranes that have none to do.
pub fn next_moves(world: &World) -> (schedule: PlannedCraneMoves)
    requires
        world.spec_can_be_planned(),
    ensures
        schedule.moves@ == planned_moves(*world),
        schedule.sequence_nr == 0,
        schedule.moves@.len() <= 2,
{
    let mut schedule = PlannedCraneMoves::new();
    if !world.is_busy(world.handover_crane.id) {
        plan_handover_crane(world, &mut schedule);
    }
    if !world.is_busy(world.shuffle_crane.id) {
        plan_shuffle_crane(world, &mut schedule);
    }
    schedule
}

} // verus!
