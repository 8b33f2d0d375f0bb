//! One pass of the state-based movement system over all friends, in order:
//! each friend whose movement timer ran out moves as its state calls for,
//! then, if it is reproducing and its energy after eating is high enough,
//! places an offspring beside it. Friends later in the pass see the tiles
//! taken by earlier moves and offspring.
use vstd::prelude::*;
use crate::behaviour::{AIState, EnergyReading, OFFSPRING_THRESHOLD, ready_to_reproduce};
use crate::grid::{GridPosition, has_neighbours, dist_squared, manhattan, lemma_step_toward_closes_in};
use crate::movement::{
    approach_player, approach_target, move_outcome, settle_outcome, movement_target, target_computable,
    spots_computable, is_first_free_spot, offspring_spot, move_friend, place_offspring, all_apart,
    lemma_moves_keep_friends_apart, lemma_settles_keep_friends_apart, lemma_offspring_keeps_friends_apart,
};
use crate::occupancy::Occupancy;
use crate::random::random_usize;

verus! {

/// A friend as the pass sees it: its tile, its state, and whether its
/// movement timer, counted down for this frame, has run out.
#[derive(Clone, Copy, Debug, PartialEq, Eq, Structural)]
pub struct FriendTurn {
    pub tile: GridPosition,
    pub state: AIState,
    pub timer_expired: bool,
}

/// What a friend's turn did: the tile it ends on and the tile of its
/// offspring, if it produced one.
#[derive(Clone, Copy, Debug, PartialEq, Eq, Structural)]
pub struct TurnResult {
    pub tile: GridPosition,
    pub offspring: Option<GridPosition>,
}

/// The first free spot around `p` for an offspring, if any.
pub open spec fn first_free_spot_of(occ: Set<GridPosition>, p: GridPosition) -> Option<GridPosition> {
    if exists|k: int| is_first_free_spot(occ, p, k) {
        Some(offspring_spot(p, choose|k: int| is_first_free_spot(occ, p, k)))
    } else {
        None
    }
}

/// There is only one first free spot.
pub proof fn lemma_first_free_spot_unique(occ: Set<GridPosition>, p: GridPosition, j: int, k: int)
    requires
        is_first_free_spot(occ, p, j),
        is_first_free_spot(occ, p, k),
    ensures
        j == k,
{
    if j < k {
        assert(occ.contains(offspring_spot(p, j)));
    } else if k < j {
        assert(occ.contains(offspring_spot(p, k)));
    }
}

/// Where friend `f` is after moving (it moves only when its timer ran out,
/// and settles on its target or beside it), and the occupied tiles then.
pub open spec fn moved(
    occ: Set<GridPosition>,
    f: FriendTurn,
    player: Option<GridPosition>,
    plants: Seq<GridPosition>,
    roll: usize,
) -> (GridPosition, Set<GridPosition>) {
    if f.timer_expired {
        settle_outcome(occ, f.tile, movement_target(f.state, f.tile, player, plants, roll))
    } else {
        (f.tile, occ)
    }
}

/// One friend's turn, given the occupied tiles before it, the random number
/// for a random step, and its energy after eating on the tile it ends on: it
/// moves, and when it is reproducing with energy above the offspring threshold it
/// places an offspring on the first free spot around it.
pub open spec fn turn_outcome(
    occ: Set<GridPosition>,
    f: FriendTurn,
    player: Option<GridPosition>,
    plants: Seq<GridPosition>,
    roll: usize,
    energy: EnergyReading,
) -> (TurnResult, Set<GridPosition>) {
    let (to, after_move) = moved(occ, f, player, plants, roll);
    if energy.above(OFFSPRING_THRESHOLD as int) && f.state == AIState::Reproducing {
        match first_free_spot_of(after_move, to) {
            Some(q) => (TurnResult { tile: to, offspring: Some(q) }, after_move.insert(q)),
            None => (TurnResult { tile: to, offspring: None }, after_move),
        }
    } else {
        (TurnResult { tile: to, offspring: None }, after_move)
    }
}

/// The tiles of the friends at the start of the pass.
pub open spec fn start_tiles(friends: Seq<FriendTurn>) -> Seq<GridPosition> {
    friends.map_values(|f: FriendTurn| f.tile)
}

/// The results of the first `n` turns and the occupied tiles after them.
pub open spec fn pass_state(
    friends: Seq<FriendTurn>,
    player: Option<GridPosition>,
    plants: Seq<GridPosition>,
    rolls: Seq<usize>,
    energies: Seq<EnergyReading>,
    n: nat,
) -> (Seq<TurnResult>, Set<GridPosition>)
    decreases n,
{
    if n == 0 {
        (Seq::empty(), start_tiles(friends).to_set())
    } else {
        let (done, occ) = pass_state(friends, player, plants, rolls, energies, (n - 1) as nat);
        let (r, after) = turn_outcome(occ, friends[n - 1], player, plants, rolls[n - 1], energies[n - 1]);
        (done.push(r), after)
    }
}

/// The turns only depend on the energies of earlier turns.
pub proof fn lemma_pass_state_prefix(
    friends: Seq<FriendTurn>,
    player: Option<GridPosition>,
    plants: Seq<GridPosition>,
    rolls: Seq<usize>,
    energies1: Seq<EnergyReading>,
    energies2: Seq<EnergyReading>,
    n: nat,
)
    requires
        forall|j: int| 0 <= j < n ==> energies1[j] == energies2[j],
    ensures
        pass_state(friends, player, plants, rolls, energies1, n) == pass_state(
            friends,
            player,
            plants,
            rolls,
            energies2,
            n,
        ),
    decreases n,
{
    if n > 0 {
        lemma_pass_state_prefix(friends, player, plants, rolls, energies1, energies2, (n - 1) as nat);
    }
}

/// The pass state after `n` turns holds `n` results.
pub proof fn lemma_pass_state_len(
    friends: Seq<FriendTurn>,
    player: Option<GridPosition>,
    plants: Seq<GridPosition>,
    rolls: Seq<usize>,
    energies: Seq<EnergyReading>,
    n: nat,
)
    ensures
        pass_state(friends, player, plants, rolls, energies, n).0.len() == n,
    decreases n,
{
    if n > 0 {
        lemma_pass_state_len(friends, player, plants, rolls, energies, (n - 1) as nat);
    }
}

/// The move of turn `f` with random number `roll` stays on the `i32` grid.
pub open spec fn move_computable(
    f: FriendTurn,
    player: Option<GridPosition>,
    plants: Seq<GridPosition>,
    roll: usize,
) -> bool {
    f.timer_expired ==> target_computable(f.state, f.tile, player, plants, roll)
}

/// Settling the move of turn `f` beside its target, when the target is taken,
/// stays on the `i32` grid.
pub open spec fn settle_computable(
    occ: Set<GridPosition>,
    f: FriendTurn,
    player: Option<GridPosition>,
    plants: Seq<GridPosition>,
    roll: usize,
) -> bool {
    f.timer_expired ==> (movement_target(f.state, f.tile, player, plants, roll) matches Some(t) ==> (occ.contains(t)
        ==> has_neighbours(t)))
}

/// The offspring of turn `f`, if it produces one, is placed without leaving
/// the `i32` grid.
pub open spec fn offspring_computable(
    occ: Set<GridPosition>,
    f: FriendTurn,
    player: Option<GridPosition>,
    plants: Seq<GridPosition>,
    roll: usize,
    energy: EnergyReading,
) -> bool {
    (energy.above(OFFSPRING_THRESHOLD as int) && f.state == AIState::Reproducing) ==> spots_computable(
        moved(occ, f, player, plants, roll).1,
        moved(occ, f, player, plants, roll).0,
    )
}

/// The energies are the ones `energy_after` reports for the first `n` turns,
/// on the tiles those turns end on.
pub open spec fn energies_reported<F: Fn(usize, GridPosition) -> EnergyReading>(
    energy_after: F,
    friends: Seq<FriendTurn>,
    player: Option<GridPosition>,
    plants: Seq<GridPosition>,
    rolls: Seq<usize>,
    energies: Seq<EnergyReading>,
    n: nat,
) -> bool {
    forall|j: int|
        0 <= j < n ==> energy_after.ensures(
            (j as usize, pass_state(friends, player, plants, rolls, energies, n).0[j].tile),
            #[trigger] energies[j],
        )
}

/// Every turn of the pass, with the random numbers drawn and the energies
/// `energy_after` can report, stays on the `i32` grid.
pub open spec fn pass_computable<F: Fn(usize, GridPosition) -> EnergyReading>(
    friends: Seq<FriendTurn>,
    player: Option<GridPosition>,
    plants: Seq<GridPosition>,
    rolls: Seq<usize>,
    energy_after: F,
) -> bool {
    &&& forall|n: int| 0 <= n < friends.len() ==> #[trigger] move_computable(friends[n], player, plants, rolls[n])
    &&& forall|energies: Seq<EnergyReading>, n: nat|
        n < friends.len() && energies_reported(energy_after, friends, player, plants, rolls, energies, n)
            ==> #[trigger] settle_computable(
            pass_state(friends, player, plants, rolls, energies, n).1,
            friends[n as int],
            player,
            plants,
            rolls[n as int],
        )
    &&& forall|energies: Seq<EnergyReading>, n: nat, energy: EnergyReading|
        n < friends.len() && energies_reported(energy_after, friends, player, plants, rolls, energies, n)
            && energy_after.ensures(
            (
                n as usize,
                moved(
                    pass_state(friends, player, plants, rolls, energies, n).1,
                    friends[n as int],
                    player,
                    plants,
                    rolls[n as int],
                ).0,
            ),
            energy,
        ) ==> #[trigger] offspring_computable(
            pass_state(friends, player, plants, rolls, energies, n).1,
            friends[n as int],
            player,
            plants,
            rolls[n as int],
            energy,
        )
}

/// One random number per friend, for the random steps of a movement pass.
pub fn draw_rolls(n: usize) -> (rolls: Vec<usize>)
    ensures
        rolls.len() == n,
{
    let mut rolls: Vec<usize> = Vec::new();
    for i in 0..n
        invariant
            rolls.len() == i,
    {
        rolls.push(random_usize());
    }
    rolls
}

/// One pass of the state-based movement system. `rolls[i]` is the random
/// number for friend `i`'s random step; `energy_after(i, tile)` gives friend
/// `i`'s energy after its turn's metabolism and eating, when it ends on
/// `tile`.
pub fn movement_pass<F: Fn(usize, GridPosition) -> EnergyReading>(
    friends: &[FriendTurn],
    player: Option<GridPosition>,
    plants: &[GridPosition],
    rolls: &[usize],
    energy_after: F,
) -> (results: Vec<TurnResult>)
    requires
        rolls@.len() == friends@.len(),
        pass_computable(friends@, player, plants@, rolls@, energy_after),
        forall|i: usize, t: GridPosition| #[trigger] energy_after.requires((i, t)),
    ensures
        exists|energies: Seq<EnergyReading>|
            {
                &&& energies.len() == friends@.len()
                &&& forall|i: int|
                    0 <= i < friends@.len() ==> energy_after.ensures(
                        (i as usize, results@[i].tile),
                        #[trigger] energies[i],
                    )
                &&& results@ == pass_state(friends@, player, plants@, rolls@, energies, friends@.len()).0
            },
{
    let n = friends.len();
    let mut tiles: Vec<GridPosition> = Vec::new();
    for i in 0..n
        invariant
            n == friends@.len(),
            tiles@ == start_tiles(friends@).take(i as int),
    {
        tiles.push(friends[i].tile);
        assert(start_tiles(friends@).take(i + 1) =~= start_tiles(friends@).take(i as int).push(friends@[i as int].tile));
    }
    assert(start_tiles(friends@).take(n as int) =~= start_tiles(friends@));
    let mut occ = Occupancy::from_positions(&tiles);
    assert(occ@ =~= start_tiles(friends@).to_set());
    let mut results: Vec<TurnResult> = Vec::new();
    let ghost mut energies: Seq<EnergyReading> = Seq::empty();
    for i in 0..n
        invariant
            n == friends@.len(),
            rolls@.len() == n,
            pass_computable(friends@, player, plants@, rolls@, energy_after),
            forall|j: usize, t: GridPosition| #[trigger] energy_after.requires((j, t)),
            energies.len() == i,
            results@ == pass_state(friends@, player, plants@, rolls@, energies, i as nat).0,
            occ@ == pass_state(friends@, player, plants@, rolls@, energies, i as nat).1,
            forall|j: int|
                0 <= j < i ==> energy_after.ensures((j as usize, results@[j].tile), #[trigger] energies[j]),
    {
        let f = friends[i];
        let roll = rolls[i];
        let ghost before = occ@;
        assert(move_computable(friends@[i as int], player, plants@, rolls@[i as int]));
        proof {
            lemma_pass_state_len(friends@, player, plants@, rolls@, energies, i as nat);
            assert(energies_reported(energy_after, friends@, player, plants@, rolls@, energies, i as nat));
            assert(settle_computable(
                pass_state(friends@, player, plants@, rolls@, energies, i as nat).1,
                friends@[i as int],
                player,
                plants@,
                rolls@[i as int],
            ));
        }
        let to = if f.timer_expired {
            move_friend(&mut occ, f.tile, f.state, player, plants, roll)
        } else {
            f.tile
        };
        assert((to, occ@) == moved(before, f, player, plants@, roll));
        let e = energy_after(i, to);
        proof {
            lemma_pass_state_len(friends@, player, plants@, rolls@, energies, i as nat);
            assert(energies_reported(energy_after, friends@, player, plants@, rolls@, energies, i as nat));
            assert(offspring_computable(
                pass_state(friends@, player, plants@, rolls@, energies, i as nat).1,
                friends@[i as int],
                player,
                plants@,
                rolls@[i as int],
                e,
            ));
        }
        let offspring = if ready_to_reproduce(e, f.state) {
            let spot = place_offspring(&mut occ, to);
            proof {
                let after_move = moved(before, f, player, plants@, roll).1;
                match spot {
                    Some(q) => {
                        let k = choose|k: int|
                            is_first_free_spot(after_move, to, k) && q == #[trigger] offspring_spot(to, k)
                                && occ@ == after_move.insert(q);
                        let c = choose|c: int| is_first_free_spot(after_move, to, c);
                        lemma_first_free_spot_unique(after_move, to, k, c);
                    },
                    None => {
                        assert forall|k: int| !is_first_free_spot(after_move, to, k) by {
                            if 0 <= k < 8 {
                                assert(after_move.contains(offspring_spot(to, k)));
                            }
                        }
                    },
                }
            }
            spot
        } else {
            None
        };
        let r = TurnResult { tile: to, offspring };
        assert((r, occ@) == turn_outcome(before, f, player, plants@, roll, e));
        let ghost old_results = results@;
        let ghost energies_next = energies.push(e);
        proof {
            lemma_pass_state_prefix(friends@, player, plants@, rolls@, energies, energies_next, i as nat);
        }
        results.push(r);
        proof {
            energies = energies_next;
            assert(results@ == pass_state(friends@, player, plants@, rolls@, energies, (i + 1) as nat).0);
            assert forall|j: int| 0 <= j < i + 1 implies energy_after.ensures(
                (j as usize, results@[j].tile),
                #[trigger] energies[j],
            ) by {
                if j == i {
                    assert(energies[j] == e);
                    assert(results@[j].tile == to);
                } else {
                    assert(results@[j] == old_results[j]);
                }
            }
        }
    }
    results
}


/// The tiles friends end their turns on.
pub open spec fn result_tiles(results: Seq<TurnResult>) -> Seq<GridPosition> {
    results.map_values(|r: TurnResult| r.tile)
}

/// The tiles of the offspring produced, in the order of the turns.
pub open spec fn offspring_tiles(results: Seq<TurnResult>) -> Seq<GridPosition>
    decreases results.len(),
{
    if results.len() == 0 {
        Seq::empty()
    } else {
        let rest = offspring_tiles(results.drop_last());
        match results.last().offspring {
            Some(q) => rest.push(q),
            None => rest,
        }
    }
}

/// The tiles of everyone on the field after some turns: friends that had
/// their turn, friends still waiting, and the offspring produced so far.
pub open spec fn field(friends: Seq<FriendTurn>, results: Seq<TurnResult>) -> Seq<GridPosition> {
    result_tiles(results) + start_tiles(friends).skip(results.len() as int) + offspring_tiles(results)
}

/// Through the pass, everyone on the field stands on a tile of their own and
/// the occupied tiles are exactly theirs.
proof fn lemma_pass_invariant(
    friends: Seq<FriendTurn>,
    player: Option<GridPosition>,
    plants: Seq<GridPosition>,
    rolls: Seq<usize>,
    energies: Seq<EnergyReading>,
    n: nat,
)
    requires
        n <= friends.len(),
        all_apart(start_tiles(friends)),
    ensures
        ({
            let (results, occ) = pass_state(friends, player, plants, rolls, energies, n);
            &&& results.len() == n
            &&& all_apart(field(friends, results))
            &&& occ == field(friends, results).to_set()
        }),
    decreases n,
{
    lemma_pass_state_len(friends, player, plants, rolls, energies, n);
    if n == 0 {
        let (results, occ) = pass_state(friends, player, plants, rolls, energies, n);
        assert(field(friends, results) =~= start_tiles(friends));
    } else {
        let m = (n - 1) as nat;
        lemma_pass_invariant(friends, player, plants, rolls, energies, m);
        let (done, occ) = pass_state(friends, player, plants, rolls, energies, m);
        let f = friends[m as int];
        let roll = rolls[m as int];
        let energy = energies[m as int];
        let here = field(friends, done);
        assert(here[m as int] == f.tile);
        let (to, after_move) = moved(occ, f, player, plants, roll);
        let stepped = here.update(m as int, to);
        if f.timer_expired {
            lemma_settles_keep_friends_apart(here, m as int, movement_target(f.state, f.tile, player, plants, roll));
        } else {
            assert(stepped =~= here);
        }
        assert(all_apart(stepped) && after_move == stepped.to_set());
        let (r, after) = turn_outcome(occ, f, player, plants, roll, energy);
        let results = done.push(r);
        assert(results.drop_last() =~= done);
        assert(result_tiles(results) =~= result_tiles(done).push(to));
        match r.offspring {
            Some(q) => {
                let k = choose|k: int| is_first_free_spot(after_move, to, k);
                assert(!after_move.contains(q));
                lemma_offspring_keeps_friends_apart(stepped, q);
                assert(offspring_tiles(results) =~= offspring_tiles(done).push(q));
                assert(field(friends, results) =~= stepped.push(q));
            },
            None => {
                assert(offspring_tiles(results) =~= offspring_tiles(done));
                assert(field(friends, results) =~= stepped);
            },
        }
    }
}

/// No two friends ever share a tile: when the friends start on distinct
/// tiles, after the whole pass the friends and all offspring produced stand
/// on distinct tiles, whatever the random numbers and energies.
pub proof fn lemma_pass_keeps_friends_apart(
    friends: Seq<FriendTurn>,
    player: Option<GridPosition>,
    plants: Seq<GridPosition>,
    rolls: Seq<usize>,
    energies: Seq<EnergyReading>,
)
    requires
        all_apart(start_tiles(friends)),
    ensures
        ({
            let results = pass_state(friends, player, plants, rolls, energies, friends.len()).0;
            all_apart(result_tiles(results) + offspring_tiles(results))
        }),
{
    lemma_pass_invariant(friends, player, plants, rolls, energies, friends.len());
    let results = pass_state(friends, player, plants, rolls, energies, friends.len()).0;
    assert(field(friends, results) =~= result_tiles(results) + offspring_tiles(results));
}

/// Later turns of the pass leave the results of earlier turns as they were.
proof fn lemma_pass_results_stable(
    friends: Seq<FriendTurn>,
    player: Option<GridPosition>,
    plants: Seq<GridPosition>,
    rolls: Seq<usize>,
    energies: Seq<EnergyReading>,
    m: nat,
    n: nat,
)
    requires
        m <= n,
    ensures
        forall|i: int|
            0 <= i < m ==> pass_state(friends, player, plants, rolls, energies, n).0[i]
                == #[trigger] pass_state(friends, player, plants, rolls, energies, m).0[i],
    decreases n,
{
    if n > 0 {
        lemma_pass_state_len(friends, player, plants, rolls, energies, (n - 1) as nat);
        if m < n {
            lemma_pass_results_stable(friends, player, plants, rolls, energies, m, (n - 1) as nat);
        }
    }
}

/// Every move of the pass goes onto a tile that no friend held at that
/// moment (the target, or a neighbour of it when the target was taken), and
/// only a friend whose movement timer ran out moves; every
/// offspring is placed on one of the eight tiles around its parent's new
/// tile that was free at that moment.
pub proof fn lemma_pass_moves_onto_free_tiles(
    friends: Seq<FriendTurn>,
    player: Option<GridPosition>,
    plants: Seq<GridPosition>,
    rolls: Seq<usize>,
    energies: Seq<EnergyReading>,
    i: int,
)
    requires
        0 <= i < friends.len(),
    ensures
        ({
            let r = pass_state(friends, player, plants, rolls, energies, friends.len()).0[i];
            let before = pass_state(friends, player, plants, rolls, energies, i as nat).1;
            let after_move = moved(before, friends[i], player, plants, rolls[i]).1;
            &&& r.tile == friends[i].tile || (friends[i].timer_expired && !before.contains(r.tile))
            &&& r.offspring matches Some(q) ==> !after_move.contains(q) && exists|k: int|
                0 <= k < 8 && q == #[trigger] offspring_spot(r.tile, k)
        }),
{
    lemma_pass_results_stable(friends, player, plants, rolls, energies, (i + 1) as nat, friends.len());
    lemma_pass_state_len(friends, player, plants, rolls, energies, i as nat);
    let (done, before) = pass_state(friends, player, plants, rolls, energies, i as nat);
    let (r, after) = turn_outcome(before, friends[i], player, plants, rolls[i], energies[i]);
    assert(pass_state(friends, player, plants, rolls, energies, (i + 1) as nat).0 == done.push(r));
    assert(pass_state(friends, player, plants, rolls, energies, (i + 1) as nat).0[i] == r);
    let (to, after_move) = moved(before, friends[i], player, plants, rolls[i]);
    assert(r.tile == to);
    if let Some(q) = r.offspring {
        let k = choose|k: int| is_first_free_spot(after_move, to, k);
        assert(q == offspring_spot(to, k));
    }
}

/// Only a reproducing friend whose energy after eating is above 120 produces
/// an offspring, and such a friend does produce one whenever one of the eight
/// tiles around its new tile is free at that moment.
pub proof fn lemma_only_reproducing_friends_breed(
    friends: Seq<FriendTurn>,
    player: Option<GridPosition>,
    plants: Seq<GridPosition>,
    rolls: Seq<usize>,
    energies: Seq<EnergyReading>,
)
    ensures
        forall|i: int|
            0 <= i < friends.len() ==> {
                let r = #[trigger] pass_state(friends, player, plants, rolls, energies, friends.len()).0[i];
                let before = pass_state(friends, player, plants, rolls, energies, i as nat).1;
                let after_move = moved(before, friends[i], player, plants, rolls[i]).1;
                &&& r.offspring is Some ==> friends[i].state == AIState::Reproducing && energies[i].ceil > 120
                &&& (friends[i].state == AIState::Reproducing && energies[i].ceil > 120 && exists|k: int|
                    0 <= k < 8 && !after_move.contains(#[trigger] offspring_spot(r.tile, k))) ==> r.offspring is Some
            },
{
    assert forall|i: int| 0 <= i < friends.len() implies {
        let r = #[trigger] pass_state(friends, player, plants, rolls, energies, friends.len()).0[i];
        let before = pass_state(friends, player, plants, rolls, energies, i as nat).1;
        let after_move = moved(before, friends[i], player, plants, rolls[i]).1;
        &&& r.offspring is Some ==> friends[i].state == AIState::Reproducing && energies[i].ceil > 120
        &&& (friends[i].state == AIState::Reproducing && energies[i].ceil > 120 && exists|k: int|
            0 <= k < 8 && !after_move.contains(#[trigger] offspring_spot(r.tile, k))) ==> r.offspring is Some
    } by {
        lemma_pass_results_stable(friends, player, plants, rolls, energies, (i + 1) as nat, friends.len());
        lemma_pass_state_len(friends, player, plants, rolls, energies, i as nat);
        let (done, before) = pass_state(friends, player, plants, rolls, energies, i as nat);
        let (r, after) = turn_outcome(before, friends[i], player, plants, rolls[i], energies[i]);
        assert(pass_state(friends, player, plants, rolls, energies, (i + 1) as nat).0 == done.push(r));
        assert(pass_state(friends, player, plants, rolls, energies, (i + 1) as nat).0[i] == r);
        let (to, after_move) = moved(before, friends[i], player, plants, rolls[i]);
        if friends[i].state == AIState::Reproducing && energies[i].ceil > 120 && exists|k: int|
            0 <= k < 8 && !after_move.contains(#[trigger] offspring_spot(to, k)) {
            let k0 = choose|k: int| 0 <= k < 8 && !after_move.contains(#[trigger] offspring_spot(to, k));
            lemma_first_free_spot_exists(after_move, to, k0);
        }
    }
}

/// When one of the eight spots around `p` is free, there is a first free one.
proof fn lemma_first_free_spot_exists(occ: Set<GridPosition>, p: GridPosition, k: int)
    requires
        0 <= k < 8,
        !occ.contains(offspring_spot(p, k)),
    ensures
        exists|j: int| is_first_free_spot(occ, p, j),
    decreases k,
{
    if forall|j: int| 0 <= j < k ==> occ.contains(#[trigger] offspring_spot(p, j)) {
        assert(is_first_free_spot(occ, p, k));
    } else {
        let j = choose|j: int| 0 <= j < k && !occ.contains(#[trigger] offspring_spot(p, j));
        lemma_first_free_spot_exists(occ, p, j);
    }
}

/// Where friend `i` of the simple attraction model ends its turn, and the
/// occupied tiles then: it moves (see `approach_target`) only when its
/// movement timer ran out.
pub open spec fn approach_turn(
    occ: Set<GridPosition>,
    from: GridPosition,
    expired: bool,
    player: GridPosition,
) -> (GridPosition, Set<GridPosition>) {
    if expired {
        move_outcome(occ, from, approach_target(from, player))
    } else {
        (from, occ)
    }
}

/// The tiles after the first `n` turns of the simple attraction model, and
/// the occupied tiles then.
pub open spec fn approach_state(
    start: Seq<GridPosition>,
    expired: Seq<bool>,
    player: GridPosition,
    n: nat,
) -> (Seq<GridPosition>, Set<GridPosition>)
    decreases n,
{
    if n == 0 {
        (Seq::empty(), start.to_set())
    } else {
        let (done, occ) = approach_state(start, expired, player, (n - 1) as nat);
        let (to, after) = approach_turn(occ, start[n - 1], expired[n - 1], player);
        (done.push(to), after)
    }
}

/// Every friend that moves is close enough to the player for its squared
/// distance to fit in `i32`.
pub open spec fn approach_computable(start: Seq<GridPosition>, expired: Seq<bool>, player: GridPosition) -> bool {
    forall|n: int| 0 <= n < start.len() && #[trigger] expired[n] ==> dist_squared(start[n], player) <= i32::MAX
}

/// One pass of the simple attraction model: in order, each friend whose
/// movement timer ran out takes one step toward the player when farther than
/// two tiles, unless another friend holds that tile. Returns the friends'
/// new tiles.
pub fn approach_pass(start: &[GridPosition], expired: &[bool], player: GridPosition) -> (tiles: Vec<GridPosition>)
    requires
        expired@.len() == start@.len(),
        approach_computable(start@, expired@, player),
    ensures
        tiles@ == approach_state(start@, expired@, player, start@.len()).0,
{
    let n = start.len();
    let mut occ = Occupancy::from_positions(start);
    assert(start@.take(n as int) =~= start@);
    let mut tiles: Vec<GridPosition> = Vec::new();
    for i in 0..n
        invariant
            n == start@.len(),
            expired@.len() == n,
            approach_computable(start@, expired@, player),
            tiles@ == approach_state(start@, expired@, player, i as nat).0,
            occ@ == approach_state(start@, expired@, player, i as nat).1,
    {
        let from = start[i];
        let to = if expired[i] {
            assert(expired@[i as int]);
            approach_player(&mut occ, from, player)
        } else {
            from
        };
        tiles.push(to);
    }
    tiles
}

/// The simple attraction model after `n` turns holds `n` tiles; everyone
/// stands on a tile of their own, and the occupied tiles are exactly theirs.
proof fn lemma_approach_invariant(start: Seq<GridPosition>, expired: Seq<bool>, player: GridPosition, n: nat)
    requires
        n <= start.len(),
        all_apart(start),
    ensures
        ({
            let (done, occ) = approach_state(start, expired, player, n);
            &&& done.len() == n
            &&& all_apart(done + start.skip(n as int))
            &&& occ == (done + start.skip(n as int)).to_set()
        }),
    decreases n,
{
    if n == 0 {
        assert(approach_state(start, expired, player, n).0 + start.skip(0) =~= start);
    } else {
        let m = (n - 1) as nat;
        lemma_approach_invariant(start, expired, player, m);
        let (done, occ) = approach_state(start, expired, player, m);
        let here = done + start.skip(m as int);
        assert(here[m as int] == start[m as int]);
        let (to, after) = approach_turn(occ, start[m as int], expired[m as int], player);
        if expired[m as int] {
            lemma_moves_keep_friends_apart(here, m as int, approach_target(start[m as int], player));
        } else {
            assert(here.update(m as int, to) =~= here);
        }
        assert(done.push(to) + start.skip(n as int) =~= here.update(m as int, to));
    }
}

/// Friends of the simple attraction model never share a tile: when they
/// start on distinct tiles they end on distinct tiles. Each friend either
/// stays or, when its timer ran out and it was farther than two tiles from
/// the player, moves one step along a row or column onto a tile that no
/// friend held at that moment.
pub proof fn lemma_approach_keeps_friends_apart(start: Seq<GridPosition>, expired: Seq<bool>, player: GridPosition)
    requires
        expired.len() == start.len(),
        all_apart(start),
    ensures
        all_apart(approach_state(start, expired, player, start.len()).0),
        forall|i: int|
            0 <= i < start.len() ==> {
                let to = #[trigger] approach_state(start, expired, player, start.len()).0[i];
                to == start[i] || (expired[i] && dist_squared(start[i], player) > 4 && manhattan(start[i], to) == 1
                    && !approach_state(start, expired, player, i as nat).1.contains(to))
            },
{
    let n = start.len();
    lemma_approach_invariant(start, expired, player, n);
    let tiles = approach_state(start, expired, player, n).0;
    assert(tiles + start.skip(n as int) =~= tiles);
    assert forall|i: int|
        0 <= i < start.len() implies {
            let to = #[trigger] approach_state(start, expired, player, start.len()).0[i];
            to == start[i] || (expired[i] && dist_squared(start[i], player) > 4 && manhattan(start[i], to) == 1
                && !approach_state(start, expired, player, i as nat).1.contains(to))
        } by {
        lemma_approach_prefix(start, expired, player, (i + 1) as nat, n);
        lemma_approach_invariant(start, expired, player, i as nat);
        let (done, occ) = approach_state(start, expired, player, i as nat);
        let (to, after) = approach_turn(occ, start[i], expired[i], player);
        assert(approach_state(start, expired, player, (i + 1) as nat).0 == done.push(to));
        assert(approach_state(start, expired, player, (i + 1) as nat).0[i] == to);
        if start[i] != player {
            lemma_step_toward_closes_in(start[i], player);
        }
    }
}

/// Later turns of the simple attraction model leave the tiles of earlier
/// turns as they were.
proof fn lemma_approach_prefix(start: Seq<GridPosition>, expired: Seq<bool>, player: GridPosition, m: nat, n: nat)
    requires
        m <= n,
    ensures
        approach_state(start, expired, player, n).0.len() == n,
        forall|i: int| 0 <= i < m ==> approach_state(start, expired, player, n).0[i] == #[trigger] approach_state(start, expired, player, m).0[i],
    decreases n,
{
    if n > 0 {
        if m < n {
            lemma_approach_prefix(start, expired, player, m, (n - 1) as nat);
        }
        lemma_approach_prefix(start, expired, player, (n - 1) as nat, (n - 1) as nat);
    }
}

} // verus!
