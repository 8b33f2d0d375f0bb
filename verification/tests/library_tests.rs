//! Concrete checks of the library's rules and laws.

use biogrid::behaviour::{
    behaviour_transition, is_depleted, movement_speed_range, movement_timer_range,
    offspring_state_timer_range, ready_to_reproduce, update_behaviour, AIState, EnergyReading,
    TenthsRange, OFFSPRING_ENERGY, WANDER_OFFSPRING_ENERGY,
};
use biogrid::grid::{
    chunk_coord, distance_squared, key_of, manhattan_distance, neighbours, signum,
    step_diagonally_toward, step_toward, ChunkPosition, GridPosition,
};
use biogrid::movement::{
    approach_player, closest_plant, has_plant_at, initial_friend_positions, move_friend, nearest_plant,
    place_offspring, plan_target, plants_on_tile, settle, step_if_free, trampled_plants,
    wander_offspring_spot, wander_offspring_spot_randomly, wander_step, wander_step_randomly,
};
use biogrid::occupancy::Occupancy;
use biogrid::pass::{approach_pass, movement_pass, FriendTurn, TurnResult};
use biogrid::player::{apply_movement_keys, MoveKeys};
use biogrid::world::{
    chunk_seed, chunk_tiles, choose_plant_spawn, count_plants_in_chunk, plan_chunk_loading,
    plan_plant_spawn, spawn_chunk, spawn_tile, visible_chunks, ChunkCache, ChunkData, PlantSpawn,
};

fn at(x: i32, y: i32) -> GridPosition {
    GridPosition::new(x, y)
}

fn reading(e: f32) -> EnergyReading {
    EnergyReading::new(e.floor() as i64, e.ceil() as i64)
}

#[test]
fn chunk_coordinates_round_toward_zero() {
    assert_eq!(chunk_coord(0), 0);
    assert_eq!(chunk_coord(15), 0);
    assert_eq!(chunk_coord(16), 1);
    assert_eq!(chunk_coord(-1), 0);
    assert_eq!(chunk_coord(-15), 0);
    assert_eq!(chunk_coord(-16), -1);
    assert_eq!(chunk_coord(-17), -1);
    assert_eq!(at(33, -40).chunk(), ChunkPosition::new(2, -2));
}

#[test]
fn distances_and_signs() {
    assert_eq!(manhattan_distance(at(-3, 4), at(2, -1)), 10);
    assert_eq!(distance_squared(at(0, 0), at(3, 4)), 25);
    assert_eq!(signum(-7), -1);
    assert_eq!(signum(0), 0);
    assert_eq!(signum(9), 1);
    assert_eq!(manhattan_distance(at(0, 0), at(i32::MAX, 0)), i32::MAX);
}

#[test]
fn steps_close_in_by_one() {
    assert_eq!(step_toward(at(0, 0), at(3, 1)), at(1, 0));
    assert_eq!(step_toward(at(0, 0), at(1, -3)), at(0, -1));
    // Equal gaps: the step is taken along y.
    assert_eq!(step_toward(at(0, 0), at(2, 2)), at(0, 1));
    assert_eq!(step_toward(at(4, 4), at(4, 4)), at(4, 4));
    assert_eq!(step_diagonally_toward(at(0, 0), at(-5, 2)), at(-1, 1));
    assert_eq!(step_diagonally_toward(at(0, 0), at(0, 2)), at(0, 1));
    let from = at(3, -7);
    let target = at(-2, 5);
    let d = manhattan_distance(from, target);
    assert_eq!(manhattan_distance(step_toward(from, target), target), d - 1);
}

#[test]
fn neighbours_in_order() {
    assert_eq!(neighbours(at(2, 3)), [at(3, 3), at(1, 3), at(2, 4), at(2, 2)]);
}

#[test]
fn cell_keys_are_distinct() {
    assert_ne!(key_of(1, 0), key_of(0, 1));
    assert_ne!(key_of(-1, 0), key_of(0, -1));
    assert_ne!(key_of(i32::MIN, i32::MAX), key_of(i32::MAX, i32::MIN));
    assert_eq!(key_of(3, 4), key_of(3, 4));
}

#[test]
fn occupancy_tracks_tiles() {
    let mut occ = Occupancy::from_positions(&[at(1, 1), at(1, 1), at(2, 2)]);
    assert!(occ.contains(at(1, 1)));
    occ.remove(at(1, 1));
    assert!(!occ.contains(at(1, 1)));
    assert!(occ.contains(at(2, 2)));
    occ.insert(at(-5, 9));
    assert!(occ.contains(at(-5, 9)));
    assert!(!occ.contains(at(9, -5)));
}

#[test]
fn nearest_plant_takes_first_among_ties() {
    let plants = [at(5, 0), at(0, 2), at(-2, 0), at(1, 1)];
    assert_eq!(nearest_plant(&plants, at(0, 0)), Some(1));
    assert_eq!(closest_plant(&plants, at(0, 0)), Some(1));
    assert_eq!(nearest_plant(&[], at(0, 0)), None);
    assert_eq!(closest_plant(&[], at(0, 0)), None);
    // A plant at the largest distance is never sought, but is the closest.
    let far = [at(i32::MAX, 0)];
    assert_eq!(nearest_plant(&far, at(0, 0)), None);
    assert_eq!(closest_plant(&far, at(0, 0)), Some(0));
    assert!(has_plant_at(&plants, at(-2, 0)));
    assert!(!has_plant_at(&plants, at(2, 0)));
}

#[test]
fn targets_per_state() {
    let plants = [at(0, 4)];
    assert_eq!(plan_target(AIState::Wandering, at(0, 0), None, &plants, 5), Some(at(-1, 0)));
    assert_eq!(plan_target(AIState::SeekingFood, at(0, 0), None, &plants, 0), Some(at(0, 1)));
    assert_eq!(plan_target(AIState::SeekingFood, at(0, 4), None, &plants, 0), None);
    assert_eq!(plan_target(AIState::SeekingFood, at(0, 0), None, &[], 3), Some(at(0, -1)));
    assert_eq!(plan_target(AIState::FollowingPlayer, at(0, 0), Some(at(2, 0)), &plants, 0), None);
    assert_eq!(plan_target(AIState::FollowingPlayer, at(0, 0), Some(at(3, 0)), &plants, 0), Some(at(1, 0)));
    assert_eq!(plan_target(AIState::FollowingPlayer, at(0, 0), None, &plants, 2), Some(at(0, 1)));
    assert_eq!(plan_target(AIState::Reproducing, at(0, 0), Some(at(3, 0)), &plants, 0), None);
    assert_eq!(plan_target(AIState::Reproducing, at(0, 0), Some(at(4, 0)), &plants, 0), Some(at(1, 0)));
    assert_eq!(plan_target(AIState::Reproducing, at(0, 0), None, &plants, 0), None);
}

#[test]
fn settling_avoids_other_friends() {
    // The target is taken: the friend settles on its first free neighbour.
    let mut occ = Occupancy::from_positions(&[at(0, 0), at(1, 0)]);
    assert_eq!(settle(&mut occ, at(0, 0), at(1, 0)), at(2, 0));
    assert!(!occ.contains(at(0, 0)));
    assert!(occ.contains(at(2, 0)));
    assert!(occ.contains(at(1, 0)));

    // Target and all its neighbours taken (the friend's own tile counts):
    // the friend stays.
    let mut full = Occupancy::from_positions(&[at(0, 0), at(1, 0), at(2, 0), at(1, 1), at(1, -1)]);
    assert_eq!(settle(&mut full, at(0, 0), at(1, 0)), at(0, 0));
    assert!(full.contains(at(0, 0)));
}

#[test]
fn stepping_only_onto_free_tiles() {
    // The target is taken: the friend stays.
    let mut occ = Occupancy::from_positions(&[at(0, 0), at(1, 0)]);
    assert_eq!(step_if_free(&mut occ, at(0, 0), at(1, 0)), at(0, 0));
    assert!(occ.contains(at(0, 0)));
    assert!(occ.contains(at(1, 0)));
    // The target is free: the friend moves onto it.
    assert_eq!(step_if_free(&mut occ, at(0, 0), at(0, 1)), at(0, 1));
    assert!(!occ.contains(at(0, 0)));
    assert!(occ.contains(at(0, 1)));
}

#[test]
fn moving_friends() {
    let mut occ = Occupancy::from_positions(&[at(0, 0), at(5, 5)]);
    let to = move_friend(&mut occ, at(0, 0), AIState::FollowingPlayer, Some(at(5, 5)), &[], 0);
    assert_eq!(to, at(1, 1));
    assert!(occ.contains(at(1, 1)));
    assert!(!occ.contains(at(0, 0)));

    let mut occ = Occupancy::from_positions(&[at(0, 0)]);
    assert_eq!(approach_player(&mut occ, at(0, 0), at(2, 0)), at(0, 0));
    assert_eq!(approach_player(&mut occ, at(0, 0), at(3, 1)), at(1, 0));
}

#[test]
fn offspring_placement_order() {
    let mut occ = Occupancy::from_positions(&[at(0, 0)]);
    assert_eq!(place_offspring(&mut occ, at(0, 0)), Some(at(1, 0)));
    assert_eq!(place_offspring(&mut occ, at(0, 0)), Some(at(-1, 0)));
    assert_eq!(place_offspring(&mut occ, at(0, 0)), Some(at(0, 1)));
    assert_eq!(place_offspring(&mut occ, at(0, 0)), Some(at(0, -1)));
    assert_eq!(place_offspring(&mut occ, at(0, 0)), Some(at(1, 1)));
    assert_eq!(place_offspring(&mut occ, at(0, 0)), Some(at(1, -1)));
    assert_eq!(place_offspring(&mut occ, at(0, 0)), Some(at(-1, 1)));
    assert_eq!(place_offspring(&mut occ, at(0, 0)), Some(at(-1, -1)));
    assert_eq!(place_offspring(&mut occ, at(0, 0)), None);
}

#[test]
fn eating_and_trampling() {
    let plants = [at(1, 1), at(0, 0), at(1, 1), at(2, 2)];
    assert_eq!(plants_on_tile(&plants, at(1, 1)), vec![0, 2]);
    assert_eq!(plants_on_tile(&plants, at(5, 5)), Vec::<usize>::new());
    assert_eq!(trampled_plants(&plants, &[at(2, 2), at(1, 1)]), vec![0, 2, 3]);
}

#[test]
fn energy_rules() {
    let t = behaviour_transition(AIState::SeekingFood, reading(50.0), false, 0);
    assert_eq!(t.state, AIState::FollowingPlayer);
    assert!(t.by_energy);
    assert_eq!(t.restart, Some(TenthsRange { low: 30, width: 50 }));
    let t = behaviour_transition(AIState::SeekingFood, reading(49.9), false, 0);
    assert_eq!((t.state, t.restart), (AIState::SeekingFood, None));
    let t = behaviour_transition(AIState::FollowingPlayer, reading(80.0), false, 0);
    assert_eq!(t.state, AIState::Reproducing);
    assert_eq!(t.restart, Some(TenthsRange { low: 50, width: 30 }));
    let t = behaviour_transition(AIState::FollowingPlayer, reading(29.5), false, 0);
    assert_eq!(t.state, AIState::SeekingFood);
    assert_eq!(t.restart, Some(TenthsRange { low: 20, width: 40 }));
    let t = behaviour_transition(AIState::Reproducing, reading(59.99), false, 0);
    assert_eq!(t.state, AIState::FollowingPlayer);
    let t = behaviour_transition(AIState::Wandering, reading(39.0), false, 0);
    assert_eq!(t.state, AIState::SeekingFood);
    let t = behaviour_transition(AIState::Wandering, reading(90.0), false, 0);
    assert_eq!(t.state, AIState::FollowingPlayer);
    let t = behaviour_transition(AIState::Wandering, reading(89.9), false, 0);
    assert_eq!((t.state, t.restart), (AIState::Wandering, None));
}

#[test]
fn timer_rules() {
    let full = TenthsRange { low: 20, width: 80 };
    assert_eq!(behaviour_transition(AIState::Wandering, reading(60.0), true, 0).state, AIState::SeekingFood);
    assert_eq!(behaviour_transition(AIState::Wandering, reading(60.0), true, 4).state, AIState::FollowingPlayer);
    assert_eq!(behaviour_transition(AIState::Wandering, reading(60.0), true, 5).state, AIState::Reproducing);
    assert_eq!(behaviour_transition(AIState::SeekingFood, reading(60.0), true, 0).state, AIState::FollowingPlayer);
    assert_eq!(behaviour_transition(AIState::FollowingPlayer, reading(50.0), true, 0).state, AIState::Wandering);
    let t = behaviour_transition(AIState::Reproducing, reading(70.0), true, 0);
    assert_eq!((t.state, t.restart), (AIState::Wandering, Some(full)));
    assert!(!t.by_energy);
    // An energy rule takes precedence over a run-out timer.
    let t = behaviour_transition(AIState::Reproducing, reading(10.0), true, 0);
    assert_eq!((t.state, t.restart), (AIState::SeekingFood, Some(TenthsRange { low: 20, width: 40 })));
    // A hungry friend seeking food keeps seeking when its timer runs out.
    let t = behaviour_transition(AIState::SeekingFood, reading(20.0), true, 0);
    assert_eq!((t.state, t.restart), (AIState::SeekingFood, Some(full)));
    let t = update_behaviour(AIState::Wandering, reading(60.0), true);
    assert_ne!(t.state, AIState::Wandering);
    assert_eq!(t.restart, Some(full));
}

#[test]
fn death_and_reproduction_thresholds() {
    assert!(is_depleted(reading(0.0)));
    assert!(is_depleted(reading(-3.2)));
    assert!(!is_depleted(reading(0.5)));
    assert!(!ready_to_reproduce(reading(90.0), AIState::Reproducing));
    assert!(!ready_to_reproduce(reading(120.0), AIState::Reproducing));
    assert!(ready_to_reproduce(reading(120.5), AIState::Reproducing));
    assert!(!ready_to_reproduce(reading(500.0), AIState::Wandering));
    assert_eq!(OFFSPRING_ENERGY, 60);
    assert_eq!(WANDER_OFFSPRING_ENERGY, 50);
}

#[test]
fn timer_ranges() {
    assert_eq!(movement_timer_range(), TenthsRange { low: 1, width: 4 });
    assert_eq!(movement_speed_range(), TenthsRange { low: 8, width: 4 });
    assert_eq!(offspring_state_timer_range(), TenthsRange { low: 30, width: 40 });
}

#[test]
fn stateless_wandering_model() {
    let plants = [at(3, 0), at(0, -3)];
    // Hungry: toward the first closest plant.
    assert_eq!(wander_step(at(0, 0), reading(10.0), &plants, 3), at(1, 0));
    // Hungry on a plant: stays.
    assert_eq!(wander_step(at(3, 0), reading(10.0), &plants, 3), at(3, 0));
    // Not hungry, or no plants: random direction.
    assert_eq!(wander_step(at(0, 0), reading(50.0), &plants, 2), at(0, 1));
    assert_eq!(wander_step(at(0, 0), reading(10.0), &[], 1), at(-1, 0));
    assert_eq!(wander_offspring_spot(at(0, 0), 3), at(0, -1));
    let drawn = wander_offspring_spot_randomly(at(0, 0));
    assert!(neighbours(at(0, 0)).contains(&drawn));
    let stepped = wander_step_randomly(at(7, 7), reading(75.0), &plants);
    assert!(neighbours(at(7, 7)).contains(&stepped));
}

#[test]
fn initial_friends() {
    let ps = initial_friend_positions();
    assert_eq!(ps.len(), 9);
    assert_eq!(ps[0], at(0, 0));
    assert_eq!(ps[1], at(0, 2));
    assert_eq!(ps[3], at(2, 0));
    assert_eq!(ps[8], at(4, 4));
}

#[test]
fn player_keys() {
    let keys = MoveKeys { up: true, down: true, left: false, right: true };
    assert_eq!(apply_movement_keys(at(0, 0), keys), at(1, 0));
    let keys = MoveKeys { up: true, down: false, left: true, right: false };
    assert_eq!(apply_movement_keys(at(0, 0), keys), at(-1, 1));
}

#[test]
fn chunk_cache_contents() {
    let mut cache = ChunkCache::new();
    assert_eq!(cache.len(), 0);
    assert!(cache.get_chunk((1, 2)).is_none());
    let mut data = ChunkData::new(1, 2);
    data.set_tile(3, 4, 2);
    cache.insert_chunk((1, 2), data);
    assert!(cache.is_visited((1, 2)));
    assert_eq!(cache.len(), 1);
    let stored = cache.get_chunk((1, 2)).unwrap();
    assert_eq!(stored.position, (1, 2));
    assert_eq!(stored.get_tile(3, 4), Some(2));
    cache.insert_chunk((1, 2), ChunkData::new(1, 2));
    assert_eq!(cache.len(), 1);
    cache.mark_visited((5, 5));
    assert_eq!(cache.len(), 1);
    assert!(cache.get_chunk((5, 5)).is_none());
    let copy = cache.get_chunk((1, 2)).unwrap().clone();
    assert_eq!(copy.get_tile(3, 4), Some(0));
}

#[test]
fn chunk_tiles_bounds() {
    let mut d = ChunkData::new(0, 0);
    assert_eq!(d.get_tile(0, 0), Some(0));
    assert_eq!(d.get_tile(16, 0), None);
    assert_eq!(d.get_tile(-1, 3), None);
    d.set_tile(15, 15, 7);
    d.set_tile(16, 15, 9);
    assert_eq!(d.get_tile(15, 15), Some(7));
    assert_eq!(d.tiles[15][15], 7);
}

#[test]
fn visible_chunks_square() {
    let cs = visible_chunks(at(0, 0));
    assert_eq!(cs.len(), 49);
    assert_eq!(cs[0], (-3, -3));
    assert_eq!(cs[1], (-2, -3));
    assert_eq!(cs[48], (3, 3));
    assert!(cs.contains(&(0, 0)));
    let cs = visible_chunks(at(-20, 40));
    assert_eq!(cs[24], (-1, 2));
}

#[test]
fn chunk_loading_spawns_chunks_coming_into_view() {
    let mut cache = ChunkCache::new();
    let first = plan_chunk_loading(&mut cache, at(0, 0));
    assert_eq!(first.keep.len(), 49);
    assert_eq!(first.spawn.len(), 49);
    assert!(cache.is_loaded((3, 3)));
    // Same view: nothing new to spawn.
    let again = plan_chunk_loading(&mut cache, at(5, 5));
    assert_eq!(again.spawn.len(), 0);
    // One chunk to the right: the new column comes into view.
    let moved = plan_chunk_loading(&mut cache, at(16, 0));
    assert_eq!(moved.spawn.len(), 7);
    assert!(moved.spawn.iter().all(|c| c.0 == 4));
    assert!(moved.keeps((4, 0)));
    assert!(!moved.keeps((-3, 0)));
    assert!(cache.is_visited((-3, 0)));
    assert!(!cache.is_loaded((-3, 0)));
    // Back again: the column that left the view is spawned again.
    let back = plan_chunk_loading(&mut cache, at(0, 0));
    assert_eq!(back.spawn.len(), 7);
    assert!(back.spawn.iter().all(|c| c.0 == -3));
    assert!(cache.is_loaded((-3, 0)));
    assert!(!cache.is_loaded((4, 0)));
}

#[test]
fn visited_chunk_without_tiles_is_spawned() {
    let mut cache = ChunkCache::new();
    cache.mark_visited((10, 0));
    assert!(!cache.is_loaded((10, 0)));
    let plan = plan_chunk_loading(&mut cache, at(160, 0));
    assert_eq!(plan.spawn.len(), 49);
    assert!(plan.spawn.contains(&(10, 0)));
    assert!(cache.is_loaded((10, 0)));
}

#[test]
fn terrain_seeds_wrap() {
    assert_eq!(chunk_seed(1, 2), 131073);
    assert_eq!(chunk_seed(-1, 0), u32::MAX);
    assert_eq!(chunk_seed(0, 65536), 0);
    assert_eq!(chunk_seed(0, -1), 0xFFFF_0000);
}

#[test]
fn chunk_tile_order() {
    let ts = chunk_tiles(1, -1);
    assert_eq!(ts.len(), 256);
    assert_eq!(ts[0], at(16, -16));
    assert_eq!(ts[1], at(17, -16));
    assert_eq!(ts[16], at(16, -15));
    assert_eq!(ts[255], at(31, -1));
}

#[test]
fn plant_spawning() {
    // Remainders are taken in 0..5 and 0..16, so the chunk lies within two
    // chunks of the player's and the tile inside the chunk.
    assert_eq!(spawn_chunk(at(0, 0), -4, 7), ChunkPosition::new(-1, 0));
    assert_eq!(spawn_chunk(at(0, 0), -5, -1), ChunkPosition::new(-2, 2));
    assert_eq!(spawn_chunk(at(40, 0), 2, 3), ChunkPosition::new(2, 1));
    assert_eq!(spawn_tile(ChunkPosition::new(1, 0), -17, 5), at(31, 5));
    assert_eq!(spawn_tile(ChunkPosition::new(-1, -1), -1, 16), at(-1, -16));
    let chunks = [ChunkPosition::new(0, 0), ChunkPosition::new(1, 0), ChunkPosition::new(0, 0)];
    assert_eq!(count_plants_in_chunk(&chunks, ChunkPosition::new(0, 0)), 2);
    let mut cache = ChunkCache::new();
    assert_eq!(plan_plant_spawn(at(0, 0), &cache, &chunks, 5, 2, 2, 3, 4), None);
    cache.mark_visited((0, 0));
    assert_eq!(
        plan_plant_spawn(at(0, 0), &cache, &chunks, 5, 2, 2, 3, 4),
        Some(PlantSpawn { position: at(3, 4), chunk: ChunkPosition::new(0, 0) })
    );
    assert_eq!(plan_plant_spawn(at(0, 0), &cache, &chunks, 2, 2, 2, 3, 4), None);
    let empty = ChunkCache::new();
    for _ in 0..20 {
        assert_eq!(choose_plant_spawn(at(0, 0), &empty, &chunks, 5), None);
    }
}

#[test]
fn movement_pass_keeps_friends_apart() {
    // Three friends in a row all head right toward the player; the last one
    // reproduces.
    let turns = [
        FriendTurn { tile: at(0, 0), state: AIState::FollowingPlayer, timer_expired: true },
        FriendTurn { tile: at(1, 0), state: AIState::FollowingPlayer, timer_expired: true },
        FriendTurn { tile: at(2, 0), state: AIState::Reproducing, timer_expired: false },
    ];
    let results = movement_pass(&turns, Some(at(10, 0)), &[], &[0, 0, 0], |i: usize, _t: GridPosition| {
        if i == 2 { EnergyReading::new(200, 200) } else { EnergyReading::new(50, 50) }
    });
    assert_eq!(results.len(), 3);
    // The first friend's target (1, 0) is taken, and so are the tiles right
    // and left of it (its own tile counts as taken): it settles above it.
    assert_eq!(results[0], TurnResult { tile: at(1, 1), offspring: None });
    // The second friend's target (2, 0) is taken; right of it is free.
    assert_eq!(results[1], TurnResult { tile: at(3, 0), offspring: None });
    // The reproducing friend stays; right of it is now taken, left is free.
    assert_eq!(results[2], TurnResult { tile: at(2, 0), offspring: Some(at(1, 0)) });

    // In the other order the front friend moves first and frees its tile.
    let turns = [
        FriendTurn { tile: at(1, 0), state: AIState::FollowingPlayer, timer_expired: true },
        FriendTurn { tile: at(0, 0), state: AIState::FollowingPlayer, timer_expired: true },
        FriendTurn { tile: at(3, 0), state: AIState::Reproducing, timer_expired: false },
    ];
    let results = movement_pass(&turns, Some(at(10, 0)), &[], &[0, 0, 0], |i: usize, _t: GridPosition| {
        if i == 2 { EnergyReading::new(130, 130) } else { EnergyReading::new(50, 50) }
    });
    assert_eq!(results[0], TurnResult { tile: at(2, 0), offspring: None });
    assert_eq!(results[1], TurnResult { tile: at(1, 0), offspring: None });
    assert_eq!(results[2], TurnResult { tile: at(3, 0), offspring: Some(at(4, 0)) });
    // At or below the offspring threshold a reproducing friend produces none.
    let results = movement_pass(&turns, Some(at(10, 0)), &[], &[0, 0, 0], |i: usize, _t: GridPosition| {
        if i == 2 { EnergyReading::new(100, 100) } else { EnergyReading::new(50, 50) }
    });
    assert_eq!(results[2], TurnResult { tile: at(3, 0), offspring: None });
    let mut all: Vec<GridPosition> = results.iter().map(|r| r.tile).collect();
    all.extend(results.iter().filter_map(|r| r.offspring));
    for a in 0..all.len() {
        for b in a + 1..all.len() {
            assert_ne!(all[a], all[b]);
        }
    }
}

#[test]
fn approach_pass_settles_in_order() {
    // Two friends in a column far from the player; only the ones whose timer
    // ran out move.
    let start = [at(0, 0), at(1, 0), at(0, 5)];
    let expired = [true, true, false];
    let tiles = approach_pass(&start, &expired, at(10, 0));
    // The first friend's target (1, 0) is taken: it stays.
    assert_eq!(tiles[0], at(0, 0));
    // The second friend's target (2, 0) is free.
    assert_eq!(tiles[1], at(2, 0));
    assert_eq!(tiles[2], at(0, 5));
    // The front friend first: both move.
    let tiles = approach_pass(&[at(1, 0), at(0, 0)], &[true, true], at(10, 0));
    assert_eq!(tiles, vec![at(2, 0), at(1, 0)]);
    // Close to the player nobody moves.
    let near = approach_pass(&[at(9, 0)], &[true], at(10, 0));
    assert_eq!(near, vec![at(9, 0)]);
}

#[test]
fn random_directions_vary() {
    // Drawn directions are spread over all four neighbours, not fixed.
    let mut seen = std::collections::HashSet::new();
    for _ in 0..200 {
        seen.insert(wander_offspring_spot_randomly(at(0, 0)));
    }
    assert!(seen.len() >= 2);
    for spot in &seen {
        assert!(neighbours(at(0, 0)).contains(spot));
    }
}
