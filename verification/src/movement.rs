//! Where friends go: the nearest plant, the tile each behaviour aims for,
//! settling on a free tile, placing offspring, and which plants get eaten.
use vstd::prelude::*;
use crate::behaviour::{AIState, EnergyReading, HUNGER_ENERGY};
use crate::grid::{
    GridPosition, manhattan, dist_squared, cardinal_step, diagonal_step, neighbour,
    has_neighbours, fits_i32, pos, manhattan_distance, distance_squared, step_toward,
    step_diagonally_toward, lemma_step_toward_closes_in, lemma_small_gaps, neighbours,
    is_step_toward, lemma_cardinal_step_is_step_toward,
};
use crate::occupancy::Occupancy;
use crate::random::random_below;

verus! {

/// `plants[i]` is the first of the plants at the smallest Manhattan distance
/// from `from`.
pub open spec fn is_first_closest(plants: Seq<GridPosition>, from: GridPosition, i: int) -> bool {
    &&& 0 <= i < plants.len()
    &&& forall|j: int|
        0 <= j < i ==> manhattan(from, #[trigger] plants[j]) > manhattan(from, plants[i])
    &&& forall|j: int|
        i < j < plants.len() ==> manhattan(from, #[trigger] plants[j]) >= manhattan(from, plants[i])
}

/// `plants[i]` is the plant a hungry friend heads for: the first closest one,
/// provided its distance is below the largest `i32` (the search starts from
/// that value and only takes strictly closer plants).
pub open spec fn is_nearest_plant(plants: Seq<GridPosition>, from: GridPosition, i: int) -> bool {
    is_first_closest(plants, from, i) && manhattan(from, plants[i]) < i32::MAX
}

/// Index of the plant a hungry friend at `from` heads for, if any.
pub open spec fn nearest_plant_of(plants: Seq<GridPosition>, from: GridPosition) -> Option<int> {
    if exists|i: int| is_nearest_plant(plants, from, i) {
        Some(choose|i: int| is_nearest_plant(plants, from, i))
    } else {
        None
    }
}

/// Index of the first closest plant, if there is any plant.
pub open spec fn closest_plant_of(plants: Seq<GridPosition>, from: GridPosition) -> Option<int> {
    if exists|i: int| is_first_closest(plants, from, i) {
        Some(choose|i: int| is_first_closest(plants, from, i))
    } else {
        None
    }
}

/// Every plant's distance from `from` can be computed in `i32`.
pub open spec fn distances_fit(plants: Seq<GridPosition>, from: GridPosition) -> bool {
    forall|j: int| 0 <= j < plants.len() ==> manhattan(from, #[trigger] plants[j]) <= i32::MAX
}

/// `Some(i)` as an index of the sequence, or `None`.
pub open spec fn index_of(r: Option<usize>) -> Option<int> {
    match r {
        Some(i) => Some(i as int),
        None => None,
    }
}

/// There is only one first closest plant.
pub proof fn lemma_first_closest_unique(plants: Seq<GridPosition>, from: GridPosition, i: int, k: int)
    requires
        is_first_closest(plants, from, i),
        is_first_closest(plants, from, k),
    ensures
        i == k,
{
    if i < k {
        assert(manhattan(from, plants[i]) > manhattan(from, plants[k]));
    } else if k < i {
        assert(manhattan(from, plants[k]) > manhattan(from, plants[i]));
    }
}

/// The tile one step in the direction picked by `roll`: right, left, up or
/// down for remainders 0 to 3 by four.
pub open spec fn wander_target(p: GridPosition, roll: usize) -> GridPosition {
    neighbour(p, (roll % 4) as int)
}

/// The step picked by `roll` stays on the `i32` grid.
pub open spec fn wander_fits(p: GridPosition, roll: usize) -> bool {
    let k = roll % 4;
    if k == 0 {
        p.x < i32::MAX
    } else if k == 1 {
        p.x > i32::MIN
    } else if k == 2 {
        p.y < i32::MAX
    } else {
        p.y > i32::MIN
    }
}

/// Where a friend seeking food goes: nowhere when a plant is on its tile,
/// otherwise one step toward the nearest plant, or a random step when no
/// plant is near enough.
pub open spec fn seek_target(p: GridPosition, plants: Seq<GridPosition>, roll: usize) -> Option<GridPosition> {
    if plants.contains(p) {
        None
    } else {
        match nearest_plant_of(plants, p) {
            Some(i) => Some(cardinal_step(p, plants[i])),
            None => Some(wander_target(p, roll)),
        }
    }
}

/// Where a friend following the player goes: one diagonal step toward the
/// player when farther than two tiles (squared distance above 4), nowhere when
/// closer, a random step when there is no player.
pub open spec fn follow_target(p: GridPosition, player: Option<GridPosition>, roll: usize) -> Option<GridPosition> {
    match player {
        Some(q) => if dist_squared(p, q) > 4 {
            Some(diagonal_step(p, q))
        } else {
            None
        },
        None => Some(wander_target(p, roll)),
    }
}

/// Where a reproducing friend goes: one step toward the player when farther
/// than three tiles (squared distance above 9), nowhere otherwise.
pub open spec fn breeding_target(p: GridPosition, player: Option<GridPosition>) -> Option<GridPosition> {
    match player {
        Some(q) => if dist_squared(p, q) > 9 {
            Some(cardinal_step(p, q))
        } else {
            None
        },
        None => None,
    }
}

/// The tile a friend in state `s` aims for when its movement timer runs out,
/// or `None` when it stays put.
pub open spec fn movement_target(
    s: AIState,
    p: GridPosition,
    player: Option<GridPosition>,
    plants: Seq<GridPosition>,
    roll: usize,
) -> Option<GridPosition> {
    match s {
        AIState::Wandering => Some(wander_target(p, roll)),
        AIState::SeekingFood => seek_target(p, plants, roll),
        AIState::FollowingPlayer => follow_target(p, player, roll),
        AIState::Reproducing => breeding_target(p, player),
    }
}

/// The aim of a friend can be worked out without leaving the `i32` range.
pub open spec fn target_computable(
    s: AIState,
    p: GridPosition,
    player: Option<GridPosition>,
    plants: Seq<GridPosition>,
    roll: usize,
) -> bool {
    match s {
        AIState::Wandering => wander_fits(p, roll),
        AIState::SeekingFood => plants.contains(p) || (distances_fit(plants, p) && (
        nearest_plant_of(plants, p) is None ==> wander_fits(p, roll))),
        AIState::FollowingPlayer => match player {
            Some(q) => dist_squared(p, q) <= i32::MAX,
            None => wander_fits(p, roll),
        },
        AIState::Reproducing => match player {
            Some(q) => dist_squared(p, q) <= i32::MAX,
            None => true,
        },
    }
}

/// Whether any plant stands on the tile.
pub fn has_plant_at(plants: &[GridPosition], p: GridPosition) -> (b: bool)
    ensures
        b == plants@.contains(p),
{
    let n = plants.len();
    for i in 0..n
        invariant
            n == plants@.len(),
            forall|j: int| 0 <= j < i ==> plants@[j] != p,
    {
        if plants[i] == p {
            return true;
        }
    }
    false
}

/// Index of the plant a hungry friend at `from` heads for: the first plant at
/// the smallest Manhattan distance, if that distance is below `i32::MAX`.
pub fn nearest_plant(plants: &[GridPosition], from: GridPosition) -> (r: Option<usize>)
    requires
        distances_fit(plants@, from),
    ensures
        index_of(r) == nearest_plant_of(plants@, from),
        r matches Some(i) ==> is_nearest_plant(plants@, from, i as int),
{
    let n = plants.len();
    let mut best: Option<usize> = None;
    let mut min_distance: i32 = i32::MAX;
    for i in 0..n
        invariant
            n == plants@.len(),
            distances_fit(plants@, from),
            match best {
                Some(b) => {
                    &&& b < i
                    &&& min_distance == manhattan(from, plants@[b as int])
                    &&& min_distance < i32::MAX
                    &&& forall|j: int| 0 <= j < b ==> manhattan(from, #[trigger] plants@[j]) > min_distance
                    &&& forall|j: int| b < j < i ==> manhattan(from, #[trigger] plants@[j]) >= min_distance
                },
                None => {
                    &&& min_distance == i32::MAX
                    &&& forall|j: int| 0 <= j < i ==> manhattan(from, #[trigger] plants@[j]) >= i32::MAX
                },
            },
    {
        let d = manhattan_distance(from, plants[i]);
        if d < min_distance {
            min_distance = d;
            best = Some(i);
        }
    }
    proof {
        match best {
            Some(b) => {
                assert(is_nearest_plant(plants@, from, b as int));
                let c = choose|c: int| is_nearest_plant(plants@, from, c);
                lemma_first_closest_unique(plants@, from, b as int, c);
            },
            None => {
                assert forall|c: int| !is_nearest_plant(plants@, from, c) by {
                    if 0 <= c < plants@.len() {
                        assert(manhattan(from, plants@[c]) >= i32::MAX);
                    }
                }
            },
        }
    }
    best
}

/// Index of the first closest plant, `None` only when there are no plants.
pub fn closest_plant(plants: &[GridPosition], from: GridPosition) -> (r: Option<usize>)
    requires
        distances_fit(plants@, from),
    ensures
        index_of(r) == closest_plant_of(plants@, from),
        r is None <==> plants@.len() == 0,
        r matches Some(i) ==> is_first_closest(plants@, from, i as int),
{
    let n = plants.len();
    if n == 0 {
        return None;
    }
    let mut best: usize = 0;
    let mut min_distance: i32 = manhattan_distance(from, plants[0]);
    for i in 1..n
        invariant
            n == plants@.len(),
            distances_fit(plants@, from),
            best < i,
            min_distance == manhattan(from, plants@[best as int]),
            forall|j: int| 0 <= j < best ==> manhattan(from, #[trigger] plants@[j]) > min_distance,
            forall|j: int| best < j < i ==> manhattan(from, #[trigger] plants@[j]) >= min_distance,
    {
        let d = manhattan_distance(from, plants[i]);
        if d < min_distance {
            min_distance = d;
            best = i;
        }
    }
    proof {
        assert(is_first_closest(plants@, from, best as int));
        let c = choose|c: int| is_first_closest(plants@, from, c);
        lemma_first_closest_unique(plants@, from, best as int, c);
    }
    Some(best)
}


/// A random step from `p` in the direction picked by `roll`.
pub fn wander_step_target(p: GridPosition, roll: usize) -> (t: GridPosition)
    requires
        wander_fits(p, roll),
    ensures
        t == wander_target(p, roll),
{
    let k = roll % 4;
    if k == 0 {
        GridPosition { x: p.x + 1, y: p.y }
    } else if k == 1 {
        GridPosition { x: p.x - 1, y: p.y }
    } else if k == 2 {
        GridPosition { x: p.x, y: p.y + 1 }
    } else {
        GridPosition { x: p.x, y: p.y - 1 }
    }
}

/// The tile a friend in state `s` at `p` aims for when its movement timer runs
/// out (`None`: it stays put), given the player's tile if there is a player,
/// the plants' tiles, and the random number used for random steps.
pub fn plan_target(
    s: AIState,
    p: GridPosition,
    player: Option<GridPosition>,
    plants: &[GridPosition],
    roll: usize,
) -> (t: Option<GridPosition>)
    requires
        target_computable(s, p, player, plants@, roll),
    ensures
        t == movement_target(s, p, player, plants@, roll),
{
    match s {
        AIState::Wandering => Some(wander_step_target(p, roll)),
        AIState::SeekingFood => {
            if has_plant_at(plants, p) {
                None
            } else {
                match nearest_plant(plants, p) {
                    Some(i) => Some(step_toward(p, plants[i])),
                    None => Some(wander_step_target(p, roll)),
                }
            }
        },
        AIState::FollowingPlayer => match player {
            Some(q) => {
                if distance_squared(p, q) > 4 {
                    proof {
                        lemma_small_gaps(p, q);
                    }
                    Some(step_diagonally_toward(p, q))
                } else {
                    None
                }
            },
            None => Some(wander_step_target(p, roll)),
        },
        AIState::Reproducing => match player {
            Some(q) => {
                if distance_squared(p, q) > 9 {
                    proof {
                        lemma_small_gaps(p, q);
                    }
                    Some(step_toward(p, q))
                } else {
                    None
                }
            },
            None => None,
        },
    }
}

/// The tile a friend at `from` ends on and the occupied tiles afterwards,
/// when it aims for `target`: it steps onto the target only when no friend
/// holds it, and otherwise stays where it is.
pub open spec fn move_outcome(
    occ: Set<GridPosition>,
    from: GridPosition,
    target: Option<GridPosition>,
) -> (GridPosition, Set<GridPosition>) {
    match target {
        Some(t) => if !occ.contains(t) {
            (t, occ.remove(from).insert(t))
        } else {
            (from, occ)
        },
        None => (from, occ),
    }
}

/// Where a friend heading for `target` ends up: on `target` when it is free,
/// else on the first free neighbour of `target` (right, left, up, down), or
/// nowhere (`None`) when all of them are taken.
pub open spec fn settled(occ: Set<GridPosition>, target: GridPosition) -> Option<GridPosition> {
    if !occ.contains(target) {
        Some(target)
    } else if !occ.contains(neighbour(target, 0)) {
        Some(neighbour(target, 0))
    } else if !occ.contains(neighbour(target, 1)) {
        Some(neighbour(target, 1))
    } else if !occ.contains(neighbour(target, 2)) {
        Some(neighbour(target, 2))
    } else if !occ.contains(neighbour(target, 3)) {
        Some(neighbour(target, 3))
    } else {
        None
    }
}

/// The tile a friend at `from` ends on and the occupied tiles afterwards, when
/// it aims for `target` in the state-based movement: it settles on the target
/// or, when that is taken, on the first free neighbour of the target (its own
/// tile counts as taken); it stays when none is free.
pub open spec fn settle_outcome(
    occ: Set<GridPosition>,
    from: GridPosition,
    target: Option<GridPosition>,
) -> (GridPosition, Set<GridPosition>) {
    match target {
        None => (from, occ),
        Some(t) => match settled(occ, t) {
            Some(q) => (q, occ.remove(from).insert(q)),
            None => (from, occ),
        },
    }
}

/// Moves a friend from `from` onto `target` when no friend holds it, and
/// records the move; a friend whose target is taken stays. Returns the
/// friend's new tile.
pub fn step_if_free(occ: &mut Occupancy, from: GridPosition, target: GridPosition) -> (to: GridPosition)
    ensures
        (to, final(occ)@) == move_outcome(old(occ)@, from, Some(target)),
{
    if !occ.contains(target) {
        occ.remove(from);
        occ.insert(target);
        target
    } else {
        from
    }
}

/// The tile a friend heading for `target` settles on.
fn free_spot(occ: &Occupancy, target: GridPosition) -> (r: Option<GridPosition>)
    requires
        occ@.contains(target) ==> has_neighbours(target),
    ensures
        r == settled(occ@, target),
{
    if !occ.contains(target) {
        return Some(target);
    }
    let around = neighbours(target);
    for k in 0..4
        invariant
            forall|j: int| 0 <= j < k ==> occ@.contains(#[trigger] neighbour(target, j)),
            occ@.contains(target),
            forall|j: int| 0 <= j < 4 ==> around[j] == neighbour(target, j),
    {
        if !occ.contains(around[k]) {
            proof {
                assert(k == 0 || occ@.contains(neighbour(target, 0)));
                assert(k <= 1 || occ@.contains(neighbour(target, 1)));
                assert(k <= 2 || occ@.contains(neighbour(target, 2)));
            }
            return Some(around[k]);
        }
    }
    assert(occ@.contains(neighbour(target, 0)));
    assert(occ@.contains(neighbour(target, 1)));
    assert(occ@.contains(neighbour(target, 2)));
    assert(occ@.contains(neighbour(target, 3)));
    None
}

/// Moves a friend from `from` toward `target`: onto the target when it is
/// free, else onto the first free neighbour of the target (right, left, up,
/// down; its own tile counts as taken), and records the move. A friend with
/// no free tile there stays. Returns the friend's new tile.
pub fn settle(occ: &mut Occupancy, from: GridPosition, target: GridPosition) -> (to: GridPosition)
    requires
        old(occ)@.contains(target) ==> has_neighbours(target),
    ensures
        (to, final(occ)@) == settle_outcome(old(occ)@, from, Some(target)),
{
    match free_spot(occ, target) {
        Some(q) => {
            occ.remove(from);
            occ.insert(q);
            q
        },
        None => from,
    }
}

/// Moves a friend whose movement timer ran out: it aims for the tile its state
/// calls for (see `plan_target`) and settles there or beside it (see
/// `settle`). Returns its new tile.
pub fn move_friend(
    occ: &mut Occupancy,
    from: GridPosition,
    s: AIState,
    player: Option<GridPosition>,
    plants: &[GridPosition],
    roll: usize,
) -> (to: GridPosition)
    requires
        target_computable(s, from, player, plants@, roll),
        movement_target(s, from, player, plants@, roll) matches Some(t) ==> (old(occ)@.contains(t)
            ==> has_neighbours(t)),
    ensures
        (to, final(occ)@) == settle_outcome(old(occ)@, from, movement_target(s, from, player, plants@, roll)),
{
    match plan_target(s, from, player, plants, roll) {
        Some(t) => settle(occ, from, t),
        None => from,
    }
}

/// Where a friend of the simple attraction model aims: one step toward the
/// player (along the axis with the larger gap) when farther than two tiles.
pub open spec fn approach_target(from: GridPosition, player: GridPosition) -> Option<GridPosition> {
    if dist_squared(from, player) > 4 {
        Some(cardinal_step(from, player))
    } else {
        None
    }
}

/// Moves a friend of the simple attraction model whose movement timer ran
/// out: one step toward the player when farther than two tiles, unless
/// another friend holds that tile. Returns its new tile.
pub fn approach_player(occ: &mut Occupancy, from: GridPosition, player: GridPosition) -> (to: GridPosition)
    requires
        dist_squared(from, player) <= i32::MAX,
    ensures
        (to, final(occ)@) == move_outcome(old(occ)@, from, approach_target(from, player)),
{
    if distance_squared(from, player) > 4 {
        proof {
            lemma_small_gaps(from, player);
        }
        let t = step_toward(from, player);
        step_if_free(occ, from, t)
    } else {
        from
    }
}

/// A friend never moves onto a tile that another friend occupies: it either
/// stays or ends on a tile that was free (its target, or with the state-based
/// settling a neighbour of it), and the occupied tiles change only by its own
/// move.
pub proof fn lemma_no_two_friends_share_a_tile(
    occ: Set<GridPosition>,
    from: GridPosition,
    target: Option<GridPosition>,
)
    requires
        occ.contains(from),
    ensures
        ({
            let (to, after) = move_outcome(occ, from, target);
            &&& to == from || (!occ.contains(to) && target == Some(to))
            &&& after.contains(to)
            &&& forall|q: GridPosition| q != from && q != to ==> (after.contains(q) <==> occ.contains(q))
        }),
        ({
            let (to, after) = settle_outcome(occ, from, target);
            &&& to == from || !occ.contains(to)
            &&& after.contains(to)
            &&& forall|q: GridPosition| q != from && q != to ==> (after.contains(q) <==> occ.contains(q))
        }),
{
}

/// A friend that settles ends on its target or on a tile next to it.
pub proof fn lemma_settles_near_target(occ: Set<GridPosition>, target: GridPosition)
    requires
        has_neighbours(target),
    ensures
        settled(occ, target) matches Some(q) ==> manhattan(q, target) <= 1,
{
}

/// Offset of the `k`-th spot tried for an offspring: right first, then left,
/// up, down, and the four diagonals up-right, down-right, up-left, down-left.
pub open spec fn offspring_offset(k: int) -> (int, int) {
    if k == 0 {
        (1, 0)
    } else if k == 1 {
        (-1, 0)
    } else if k == 2 {
        (0, 1)
    } else if k == 3 {
        (0, -1)
    } else if k == 4 {
        (1, 1)
    } else if k == 5 {
        (1, -1)
    } else if k == 6 {
        (-1, 1)
    } else {
        (-1, -1)
    }
}

/// The `k`-th spot tried for an offspring of a parent at `p`.
pub open spec fn offspring_spot(p: GridPosition, k: int) -> GridPosition {
    pos(p.x + offspring_offset(k).0, p.y + offspring_offset(k).1)
}

/// The `k`-th spot lies on the `i32` grid.
pub open spec fn spot_fits(p: GridPosition, k: int) -> bool {
    fits_i32(p.x + offspring_offset(k).0) && fits_i32(p.y + offspring_offset(k).1)
}

/// The `k`-th spot is the first free one.
pub open spec fn is_first_free_spot(occ: Set<GridPosition>, p: GridPosition, k: int) -> bool {
    &&& 0 <= k < 8
    &&& !occ.contains(offspring_spot(p, k))
    &&& forall|j: int| 0 <= j < k ==> occ.contains(#[trigger] offspring_spot(p, j))
}

/// Every spot that is looked at (all spots up to the first free one) lies on
/// the `i32` grid.
pub open spec fn spots_computable(occ: Set<GridPosition>, p: GridPosition) -> bool {
    forall|k: int|
        0 <= k < 8 && (forall|j: int| 0 <= j < k ==> occ.contains(#[trigger] offspring_spot(p, j)))
            ==> spot_fits(p, k)
}

/// The offset of the `k`-th spot, for `k` below 8.
fn offspring_offset_at(k: usize) -> (o: (i32, i32))
    requires
        k < 8,
    ensures
        o.0 == offspring_offset(k as int).0,
        o.1 == offspring_offset(k as int).1,
{
    if k == 0 {
        (1, 0)
    } else if k == 1 {
        (-1, 0)
    } else if k == 2 {
        (0, 1)
    } else if k == 3 {
        (0, -1)
    } else if k == 4 {
        (1, 1)
    } else if k == 5 {
        (1, -1)
    } else if k == 6 {
        (-1, 1)
    } else {
        (-1, -1)
    }
}

/// Places the offspring of a parent at `parent` on the first free spot around
/// it (right first, then left, up, down and the four diagonals) and marks that
/// tile occupied; `None` when all eight spots are taken.
pub fn place_offspring(occ: &mut Occupancy, parent: GridPosition) -> (spot: Option<GridPosition>)
    requires
        spots_computable(old(occ)@, parent),
    ensures
        match spot {
            Some(q) => exists|k: int|
                is_first_free_spot(old(occ)@, parent, k) && q == #[trigger] offspring_spot(parent, k)
                    && final(occ)@ == old(occ)@.insert(q),
            None => final(occ)@ == old(occ)@ && forall|j: int|
                0 <= j < 8 ==> old(occ)@.contains(#[trigger] offspring_spot(parent, j)),
        },
{
    for k in 0..8
        invariant
            occ@ == old(occ)@,
            spots_computable(occ@, parent),
            forall|j: int| 0 <= j < k ==> occ@.contains(#[trigger] offspring_spot(parent, j)),
    {
        assert(spot_fits(parent, k as int));
        let (ox, oy) = offspring_offset_at(k);
        let q = GridPosition { x: parent.x + ox, y: parent.y + oy };
        assert(q == offspring_spot(parent, k as int));
        if !occ.contains(q) {
            occ.insert(q);
            assert(is_first_free_spot(old(occ)@, parent, k as int));
            return Some(q);
        }
    }
    None
}

/// An offspring is placed on a tile that was free, next to its parent
/// (including diagonally), and never on the parent's own tile.
pub proof fn lemma_offspring_beside_parent(occ: Set<GridPosition>, p: GridPosition, k: int)
    requires
        is_first_free_spot(occ, p, k),
        spot_fits(p, k),
    ensures
        !occ.contains(offspring_spot(p, k)),
        offspring_spot(p, k) != p,
        abs_diff_at_most_one(offspring_spot(p, k).x as int, p.x as int),
        abs_diff_at_most_one(offspring_spot(p, k).y as int, p.y as int),
{
}

/// Two integers differ by at most one.
pub open spec fn abs_diff_at_most_one(a: int, b: int) -> bool {
    -1 <= a - b <= 1
}

/// Indices, in increasing order, of the plants standing on `tile`: the ones a
/// friend on that tile eats.
pub fn plants_on_tile(plants: &[GridPosition], tile: GridPosition) -> (eaten: Vec<usize>)
    ensures
        forall|k: int| 0 <= k < eaten.len() ==> eaten[k] < plants.len() && plants@[#[trigger] eaten[k] as int] == tile,
        forall|i: int| 0 <= i < plants.len() && plants@[i] == tile ==> eaten@.contains(i as usize),
        forall|a: int, b: int| 0 <= a < b < eaten.len() ==> eaten[a] < eaten[b],
{
    let n = plants.len();
    let mut eaten: Vec<usize> = Vec::new();
    for i in 0..n
        invariant
            n == plants@.len(),
            forall|k: int| 0 <= k < eaten.len() ==> eaten[k] < i && plants@[#[trigger] eaten[k] as int] == tile,
            forall|j: int| 0 <= j < i && plants@[j] == tile ==> eaten@.contains(j as usize),
            forall|a: int, b: int| 0 <= a < b < eaten.len() ==> eaten[a] < eaten[b],
    {
        let ghost before = eaten@;
        if plants[i] == tile {
            eaten.push(i);
            assert(eaten@[eaten.len() - 1] == i);
        }
        assert forall|j: int| 0 <= j < i + 1 && plants@[j] == tile implies eaten@.contains(j as usize) by {
            if j < i {
                let k = choose|k: int| 0 <= k < before.len() && before[k] == j as usize;
                assert(eaten@[k] == j as usize);
            } else {
                assert(eaten@[eaten.len() - 1] == i);
            }
        }
    }
    eaten
}

/// Indices, in increasing order, of the plants that some friend stands on:
/// the plants that are trampled and removed.
pub fn trampled_plants(plants: &[GridPosition], friends: &[GridPosition]) -> (gone: Vec<usize>)
    ensures
        forall|k: int| 0 <= k < gone.len() ==> gone[k] < plants.len() && friends@.contains(plants@[#[trigger] gone[k] as int]),
        forall|i: int| 0 <= i < plants.len() && friends@.contains(plants@[i]) ==> gone@.contains(i as usize),
        forall|a: int, b: int| 0 <= a < b < gone.len() ==> gone[a] < gone[b],
{
    let n = plants.len();
    let mut gone: Vec<usize> = Vec::new();
    for i in 0..n
        invariant
            n == plants@.len(),
            forall|k: int| 0 <= k < gone.len() ==> gone[k] < i && friends@.contains(plants@[#[trigger] gone[k] as int]),
            forall|j: int| 0 <= j < i && friends@.contains(plants@[j]) ==> gone@.contains(j as usize),
            forall|a: int, b: int| 0 <= a < b < gone.len() ==> gone[a] < gone[b],
    {
        let ghost before = gone@;
        if has_plant_at(friends, plants[i]) {
            gone.push(i);
            assert(gone@[gone.len() - 1] == i);
        }
        assert forall|j: int| 0 <= j < i + 1 && friends@.contains(plants@[j]) implies gone@.contains(j as usize) by {
            if j < i {
                let k = choose|k: int| 0 <= k < before.len() && before[k] == j as usize;
                assert(gone@[k] == j as usize);
            } else {
                assert(gone@[gone.len() - 1] == i);
            }
        }
    }
    gone
}


/// Where a friend of the stateless wandering model (friends wander on each
/// simulation tick and reproduce without a behaviour state) goes when its
/// wander timer runs out: a hungry friend steps toward the first closest plant (staying put
/// when it already stands on it), any other friend, or a hungry one when there
/// are no plants, steps in the direction picked by `roll` (0 to 3: right,
/// left, up, down).
pub open spec fn wander_model_step(
    from: GridPosition,
    hungry: bool,
    plants: Seq<GridPosition>,
    roll: u32,
) -> GridPosition {
    if hungry && plants.len() > 0 {
        match closest_plant_of(plants, from) {
            Some(i) => cardinal_step(from, plants[i]),
            None => from,
        }
    } else {
        neighbour(from, roll as int)
    }
}

/// The step of the stateless wandering model can be worked out without leaving
/// the `i32` range.
pub open spec fn wander_model_computable(
    from: GridPosition,
    hungry: bool,
    plants: Seq<GridPosition>,
    roll: u32,
) -> bool {
    if hungry && plants.len() > 0 {
        distances_fit(plants, from)
    } else {
        wander_fits(from, roll as usize)
    }
}

/// The step of the stateless wandering model for a friend with energy `e`, given
/// the direction `roll` (below 4) used for a random step.
pub fn wander_step(from: GridPosition, e: EnergyReading, plants: &[GridPosition], roll: u32) -> (to: GridPosition)
    requires
        roll < 4,
        wander_model_computable(from, e.below(HUNGER_ENERGY as int), plants@, roll),
    ensures
        to == wander_model_step(from, e.below(HUNGER_ENERGY as int), plants@, roll),
{
    let hungry = e.floor < HUNGER_ENERGY;
    if hungry && plants.len() > 0 {
        match closest_plant(plants, from) {
            Some(i) => step_toward(from, plants[i]),
            None => from,
        }
    } else {
        wander_step_target(from, roll as usize)
    }
}

/// The step of the stateless wandering model, drawing the direction of a random
/// step from `0..4` when one is needed.
pub fn wander_step_randomly(from: GridPosition, e: EnergyReading, plants: &[GridPosition]) -> (to: GridPosition)
    requires
        forall|roll: u32|
            roll < 4 ==> #[trigger] wander_model_computable(from, e.below(HUNGER_ENERGY as int), plants@, roll),
    ensures
        exists|roll: u32|
            roll < 4 && to == #[trigger] wander_model_step(from, e.below(HUNGER_ENERGY as int), plants@, roll),
{
    let hungry = e.floor < HUNGER_ENERGY;
    if hungry && plants.len() > 0 {
        assert(wander_model_computable(from, e.below(HUNGER_ENERGY as int), plants@, 0));
        wander_step(from, e, plants, 0)
    } else {
        let roll = random_below(4);
        assert(wander_model_computable(from, e.below(HUNGER_ENERGY as int), plants@, roll));
        wander_step(from, e, plants, roll)
    }
}

/// Tile of an offspring in the stateless wandering model: the neighbour of the
/// parent in the direction `roll` (0 to 3: right, left, up, down), whether or
/// not another friend stands there.
pub fn wander_offspring_spot(parent: GridPosition, roll: u32) -> (q: GridPosition)
    requires
        roll < 4,
        wander_fits(parent, roll as usize),
    ensures
        q == neighbour(parent, roll as int),
{
    wander_step_target(parent, roll as usize)
}

/// Tile of an offspring in the stateless wandering model, with the direction
/// drawn from `0..4`.
pub fn wander_offspring_spot_randomly(parent: GridPosition) -> (q: GridPosition)
    requires
        has_neighbours(parent),
    ensures
        exists|roll: u32| roll < 4 && q == #[trigger] neighbour(parent, roll as int),
{
    let roll = random_below(4);
    wander_offspring_spot(parent, roll)
}

/// In the stateless wandering model a friend moves at most one step along a
/// row or a column per tick.
pub proof fn lemma_wander_step_is_one_step(from: GridPosition, hungry: bool, plants: Seq<GridPosition>, roll: u32)
    requires
        roll < 4,
        wander_model_computable(from, hungry, plants, roll),
    ensures
        wander_model_step(from, hungry, plants, roll) == from || manhattan(
            from,
            wander_model_step(from, hungry, plants, roll),
        ) == 1,
{
    if hungry && plants.len() > 0 {
        match closest_plant_of(plants, from) {
            Some(i) => {
                if from != plants[i] {
                    lemma_step_toward_closes_in(from, plants[i]);
                }
            },
            None => {},
        }
    }
}

/// Tiles of the nine friends present at start: a 3 by 3 block with every
/// other tile taken, `(2i, 2j)` for `i` and `j` from 0 to 2, `i` outermost.
pub fn initial_friend_positions() -> (ps: Vec<GridPosition>)
    ensures
        ps.len() == 9,
        forall|k: int| 0 <= k < 9 ==> #[trigger] ps[k] == pos(2 * (k / 3), 2 * (k % 3)),
{
    let mut ps: Vec<GridPosition> = Vec::new();
    for i in 0i32..3
        invariant
            ps.len() == 3 * i,
            forall|k: int| 0 <= k < ps.len() ==> #[trigger] ps[k] == pos(2 * (k / 3), 2 * (k % 3)),
    {
        for j in 0i32..3
            invariant
                ps.len() == 3 * i + j,
                i < 3,
                forall|k: int| 0 <= k < ps.len() ==> #[trigger] ps[k] == pos(2 * (k / 3), 2 * (k % 3)),
        {
            let k: usize = ps.len();
            ps.push(GridPosition { x: i * 2, y: j * 2 });
            assert(k as int / 3 == i && k as int % 3 == j);
        }
    }
    ps
}


/// No two of the friends stand on the same tile.
pub open spec fn all_apart(tiles: Seq<GridPosition>) -> bool {
    forall|a: int, b: int| 0 <= a < b < tiles.len() ==> tiles[a] != tiles[b]
}

/// Friends never share a tile, through a whole pass of moves: when the
/// occupied tiles are exactly the tiles of friends standing apart, and friend
/// `i` either stays or moves onto a free tile, the friends still stand apart
/// and the occupied tiles are again exactly theirs.
proof fn lemma_step_keeps_friends_apart(tiles: Seq<GridPosition>, i: int, to: GridPosition, after: Set<GridPosition>)
    requires
        0 <= i < tiles.len(),
        all_apart(tiles),
        (to == tiles[i] && after == tiles.to_set()) || (!tiles.to_set().contains(to) && after == tiles.to_set().remove(
            tiles[i],
        ).insert(to)),
    ensures
        all_apart(tiles.update(i, to)),
        after == tiles.update(i, to).to_set(),
{
    let occ = tiles.to_set();
    let moved = tiles.update(i, to);
    assert forall|a: int, b: int| 0 <= a < b < moved.len() implies moved[a] != moved[b] by {
        if a == i && to != tiles[i] {
            assert(tiles.contains(tiles[b]));
        } else if b == i && to != tiles[i] {
            assert(tiles.contains(tiles[a]));
        }
    }
    assert forall|x: GridPosition| after.contains(x) <==> moved.to_set().contains(x) by {
        if after.contains(x) {
            if x == to {
                assert(moved[i] == x);
            } else {
                assert(occ.contains(x));
                let j = choose|j: int| 0 <= j < tiles.len() && tiles[j] == x;
                if j == i {
                    assert(after == occ);
                    assert(x == tiles[i]);
                    assert(to == tiles[i]);
                }
                assert(moved[j] == x);
            }
        }
        if moved.to_set().contains(x) {
            let j = choose|j: int| 0 <= j < moved.len() && moved[j] == x;
            if j != i {
                assert(tiles[j] == x);
                assert(tiles.contains(x));
            }
        }
    }
    assert(after =~= moved.to_set());
}

/// Friends of the simple attraction model never share a tile: when the
/// occupied tiles are exactly the tiles of friends standing apart, and friend
/// `i` steps toward `target`, the friends still stand apart and the occupied
/// tiles are again exactly theirs.
pub proof fn lemma_moves_keep_friends_apart(tiles: Seq<GridPosition>, i: int, target: Option<GridPosition>)
    requires
        0 <= i < tiles.len(),
        all_apart(tiles),
    ensures
        ({
            let (to, after) = move_outcome(tiles.to_set(), tiles[i], target);
            all_apart(tiles.update(i, to)) && after == tiles.update(i, to).to_set()
        }),
{
    let (to, after) = move_outcome(tiles.to_set(), tiles[i], target);
    lemma_step_keeps_friends_apart(tiles, i, to, after);
}

/// Friends of the state-based movement never share a tile: when the occupied
/// tiles are exactly the tiles of friends standing apart, and friend `i`
/// settles toward `target`, the friends still stand apart and the occupied
/// tiles are again exactly theirs.
pub proof fn lemma_settles_keep_friends_apart(tiles: Seq<GridPosition>, i: int, target: Option<GridPosition>)
    requires
        0 <= i < tiles.len(),
        all_apart(tiles),
    ensures
        ({
            let (to, after) = settle_outcome(tiles.to_set(), tiles[i], target);
            all_apart(tiles.update(i, to)) && after == tiles.update(i, to).to_set()
        }),
{
    let (to, after) = settle_outcome(tiles.to_set(), tiles[i], target);
    lemma_step_keeps_friends_apart(tiles, i, to, after);
}

/// Placing an offspring on a free tile keeps all friends apart and adds
/// exactly its tile to the occupied ones.
pub proof fn lemma_offspring_keeps_friends_apart(tiles: Seq<GridPosition>, q: GridPosition)
    requires
        all_apart(tiles),
        !tiles.to_set().contains(q),
    ensures
        all_apart(tiles.push(q)),
        tiles.push(q).to_set() == tiles.to_set().insert(q),
{
    let grown = tiles.push(q);
    assert forall|a: int, b: int| 0 <= a < b < grown.len() implies grown[a] != grown[b] by {
        if b == tiles.len() {
            assert(tiles.contains(tiles[a]));
        }
    }
    tiles.lemma_push_to_set_commute(q);
}

/// Among plants that are not empty there is a first closest one.
pub proof fn lemma_first_closest_exists(plants: Seq<GridPosition>, from: GridPosition)
    requires
        plants.len() > 0,
    ensures
        exists|i: int| is_first_closest(plants, from, i),
    decreases plants.len(),
{
    if plants.len() == 1 {
        assert(is_first_closest(plants, from, 0));
    } else {
        let init = plants.drop_last();
        let last = plants.len() - 1;
        lemma_first_closest_exists(init, from);
        let i = choose|i: int| is_first_closest(init, from, i);
        assert forall|j: int| 0 <= j < last implies #[trigger] plants[j] == init[j] by {}
        if manhattan(from, plants[last]) < manhattan(from, init[i]) {
            assert forall|j: int| 0 <= j < last implies manhattan(from, #[trigger] plants[j]) > manhattan(
                from,
                plants[last],
            ) by {
                assert(plants[j] == init[j]);
                if j < i {
                    assert(manhattan(from, init[j]) > manhattan(from, init[i]));
                } else if j > i {
                    assert(manhattan(from, init[j]) >= manhattan(from, init[i]));
                }
            }
            assert(is_first_closest(plants, from, last));
        } else {
            assert forall|j: int| 0 <= j < i implies manhattan(from, #[trigger] plants[j]) > manhattan(
                from,
                plants[i],
            ) by {
                assert(plants[j] == init[j]);
                assert(manhattan(from, init[j]) > manhattan(from, init[i]));
            }
            assert forall|j: int| i < j < plants.len() implies manhattan(from, #[trigger] plants[j]) >= manhattan(
                from,
                plants[i],
            ) by {
                if j < last {
                    assert(plants[j] == init[j]);
                    assert(manhattan(from, init[j]) >= manhattan(from, init[i]));
                }
            }
            assert(is_first_closest(plants, from, i));
        }
    }
}

/// A friend seeking food that does not stand on a plant, with some plant
/// within reach of the distance search, aims one step (along a row or a
/// column, on the axis with the larger gap) toward a plant that no other
/// plant is closer than; among equally close plants, the first listed.
pub proof fn lemma_seeker_steps_toward_nearest_plant(
    p: GridPosition,
    player: Option<GridPosition>,
    plants: Seq<GridPosition>,
    roll: usize,
    k: int,
)
    requires
        !plants.contains(p),
        0 <= k < plants.len(),
        manhattan(p, plants[k]) < i32::MAX,
    ensures
        exists|i: int|
            #![trigger plants[i]]
            {
                &&& 0 <= i < plants.len()
                &&& forall|j: int| 0 <= j < plants.len() ==> manhattan(p, plants[i]) <= manhattan(p, #[trigger] plants[j])
                &&& forall|j: int| 0 <= j < i ==> manhattan(p, plants[i]) < manhattan(p, #[trigger] plants[j])
                &&& movement_target(AIState::SeekingFood, p, player, plants, roll) matches Some(t) && is_step_toward(
                    p,
                    t,
                    plants[i],
                )
            },
{
    lemma_first_closest_exists(plants, p);
    let f = choose|i: int| is_first_closest(plants, p, i);
    if f != k {
        assert(manhattan(p, plants[f]) <= manhattan(p, plants[k]));
    }
    assert(is_nearest_plant(plants, p, f));
    let c = choose|i: int| is_nearest_plant(plants, p, i);
    assert(plants[c] != p) by {
        assert(plants.contains(plants[c]));
    }
    lemma_cardinal_step_is_step_toward(p, plants[c]);
    assert forall|j: int| 0 <= j < plants.len() implies manhattan(p, plants[c]) <= manhattan(p, #[trigger] plants[j]) by {
        if j < c {
            assert(manhattan(p, plants[j]) > manhattan(p, plants[c]));
        } else if j > c {
            assert(manhattan(p, plants[j]) >= manhattan(p, plants[c]));
        }
    }
}

/// A friend of the simple attraction model aims one step toward the player
/// (along a row or a column, on the axis with the larger gap) exactly when it
/// is farther than two tiles from it, and nowhere otherwise.
pub proof fn lemma_approach_steps_toward_player(from: GridPosition, player: GridPosition)
    ensures
        dist_squared(from, player) > 4 ==> (approach_target(from, player) matches Some(t) && is_step_toward(
            from,
            t,
            player,
        )),
        dist_squared(from, player) <= 4 ==> approach_target(from, player) is None,
{
    if dist_squared(from, player) > 4 {
        assert(from != player) by {
            if from == player {
                assert(dist_squared(from, player) == 0);
            }
        }
        lemma_cardinal_step_is_step_toward(from, player);
    }
}

/// A hungry friend of the stateless wandering model, when there are plants,
/// heads for a plant that no other plant is closer than (the first listed
/// among equally close ones): it stays when it stands on that plant, and
/// otherwise takes one step toward it along the axis with the larger gap.
pub proof fn lemma_hungry_wanderer_steps_toward_nearest_plant(
    from: GridPosition,
    plants: Seq<GridPosition>,
    roll: u32,
)
    requires
        plants.len() > 0,
    ensures
        exists|i: int|
            #![trigger plants[i]]
            {
                &&& 0 <= i < plants.len()
                &&& forall|j: int| 0 <= j < plants.len() ==> manhattan(from, plants[i]) <= manhattan(from, #[trigger] plants[j])
                &&& forall|j: int| 0 <= j < i ==> manhattan(from, plants[i]) < manhattan(from, #[trigger] plants[j])
                &&& if from == plants[i] {
                    wander_model_step(from, true, plants, roll) == from
                } else {
                    is_step_toward(from, wander_model_step(from, true, plants, roll), plants[i])
                }
            },
{
    lemma_first_closest_exists(plants, from);
    let c = choose|i: int| is_first_closest(plants, from, i);
    if from != plants[c] {
        lemma_cardinal_step_is_step_toward(from, plants[c]);
    }
    assert forall|j: int| 0 <= j < plants.len() implies manhattan(from, plants[c]) <= manhattan(from, #[trigger] plants[j]) by {
        if j < c {
            assert(manhattan(from, plants[j]) > manhattan(from, plants[c]));
        } else if j > c {
            assert(manhattan(from, plants[j]) >= manhattan(from, plants[c]));
        }
    }
}

} // verus!
