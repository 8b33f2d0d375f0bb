//! One update of the friend systems on small worlds: behaviour transitions,
//! movement, eating and reproduction, driven through the library's rules.

use biogrid::behaviour::{
    behaviour_transition, initial_state, random_initial_state, state_timer_range, update_behaviour,
    AIState, EnergyReading, OFFSPRING_ENERGY,
};
use biogrid::grid::GridPosition;
use biogrid::movement::plants_on_tile;
use biogrid::pass::{draw_rolls, movement_pass, FriendTurn};

fn reading(e: f32) -> EnergyReading {
    EnergyReading::new(e.floor() as i64, e.ceil() as i64)
}

struct Friend {
    pos: GridPosition,
    energy: f32,
    timer: f32,
    state: AIState,
}

struct Plant {
    pos: GridPosition,
    nutrition: f32,
}

/// One pass of the state-based movement system with frame time `dt`, as the
/// game runs it: friends move in turn, eat what lies on their tile and
/// reproduce when ready. Returns the tiles of offspring and the indices of
/// eaten plants.
fn movement_pass_of(
    friends: &mut Vec<Friend>,
    player: Option<GridPosition>,
    plants: &[Plant],
    dt: f32,
) -> (Vec<GridPosition>, Vec<usize>) {
    let plant_tiles: Vec<GridPosition> = plants.iter().map(|p| p.pos).collect();
    let mut turns = Vec::new();
    for f in friends.iter_mut() {
        f.timer -= dt;
        let expired = f.timer <= 0.0;
        if expired {
            f.timer = 0.3;
        }
        turns.push(FriendTurn { tile: f.pos, state: f.state, timer_expired: expired });
    }
    let energies: Vec<f32> = friends.iter().map(|f| f.energy).collect();
    let energy_after = |i: usize, tile: GridPosition| {
        let mut e = energies[i] - 0.5 * dt;
        for k in plants_on_tile(&plant_tiles, tile) {
            e += plants[k].nutrition;
        }
        reading(e)
    };
    let rolls = draw_rolls(turns.len());
    let results = movement_pass(&turns, player, &plant_tiles, &rolls, energy_after);
    let mut offspring = Vec::new();
    let mut eaten_all = Vec::new();
    for (f, r) in friends.iter_mut().zip(results.iter()) {
        f.pos = r.tile;
        f.energy -= 0.5 * dt;
        for i in plants_on_tile(&plant_tiles, f.pos) {
            f.energy += plants[i].nutrition;
            eaten_all.push(i);
        }
        if let Some(spot) = r.offspring {
            offspring.push(spot);
            f.energy -= OFFSPRING_ENERGY as f32;
        }
    }
    (offspring, eaten_all)
}

#[test]
fn test_friend_initialization() {
    let friend = Friend { pos: GridPosition::new(0, 0), energy: 100.0, timer: 5.0, state: AIState::Wandering };
    let results = vec![&friend];

    assert_eq!(results.len(), 1);
    let (state, state_timer) = (results[0].state, results[0].timer);

    assert!(matches!(state, AIState::Wandering | AIState::SeekingFood | AIState::FollowingPlayer | AIState::Reproducing));

    let range = state_timer_range();
    let low = range.low as f32 / 10.0;
    let high = (range.low + range.width) as f32 / 10.0;
    assert_eq!((low, high), (2.0, 10.0));
    assert!(state_timer >= low && state_timer <= high);

    let drawn = random_initial_state();
    assert!(matches!(drawn, AIState::Wandering | AIState::SeekingFood | AIState::FollowingPlayer | AIState::Reproducing));
    assert_eq!(initial_state(6), AIState::FollowingPlayer);
}

#[test]
fn test_energy_based_transitions() {
    let mut friend = Friend { pos: GridPosition::new(0, 0), energy: 25.0, timer: 5.0, state: AIState::SeekingFood };

    let dt = 0.0f32;
    friend.timer -= dt;
    let t = behaviour_transition(friend.state, reading(friend.energy), friend.timer <= 0.0, 0);
    friend.state = t.state;

    assert_eq!(friend.state, AIState::SeekingFood);
    assert_eq!(friend.energy, 25.0);
    assert!(t.restart.is_none());
}

#[test]
fn test_state_timer_transitions() {
    let mut friend = Friend { pos: GridPosition::new(0, 0), energy: 60.0, timer: 0.0, state: AIState::Wandering };

    let dt = 0.0f32;
    friend.timer -= dt;
    let t = update_behaviour(friend.state, reading(friend.energy), friend.timer <= 0.0);
    friend.state = t.state;

    assert!(friend.state != AIState::Wandering);
    assert_eq!(t.restart, Some(state_timer_range()));
}

#[test]
fn test_plant_consumption() {
    let mut friends = vec![Friend { pos: GridPosition::new(0, 0), energy: 40.0, timer: 0.0, state: AIState::SeekingFood }];
    let plants = vec![Plant { pos: GridPosition::new(0, 0), nutrition: 30.0 }];

    let (_, eaten) = movement_pass_of(&mut friends, None, &plants, 0.0);

    assert_eq!(friends.len(), 1);
    assert_eq!(eaten, vec![0]);
    assert_eq!(friends[0].energy, 70.0);
}

#[test]
fn test_reproduction() {
    let mut friends = vec![Friend {
        pos: GridPosition::new(0, 0),
        energy: 2000000000.0,
        timer: 0.0,
        state: AIState::Reproducing,
    }];

    let (offspring, _) = movement_pass_of(&mut friends, None, &[], 0.0);

    let friend_count = friends.len() + offspring.len();
    assert!(friend_count > 1);
    assert_eq!(offspring, vec![GridPosition::new(1, 0)]);
}

#[test]
fn test_plant_finding() {
    let mut friends = vec![Friend { pos: GridPosition::new(0, 0), energy: 40.0, timer: 0.0, state: AIState::SeekingFood }];
    let plants = vec![Plant { pos: GridPosition::new(2, 0), nutrition: 30.0 }];

    movement_pass_of(&mut friends, None, &plants, 0.0);

    assert_eq!(friends.len(), 1);
    assert_eq!(friends[0].pos, GridPosition::new(1, 0));
}

#[test]
fn test_player_following() {
    let mut friends = vec![Friend { pos: GridPosition::new(0, 0), energy: 60.0, timer: 0.0, state: AIState::FollowingPlayer }];

    movement_pass_of(&mut friends, Some(GridPosition::new(5, 5)), &[], 0.0);

    assert_eq!(friends.len(), 1);
    assert_eq!(friends[0].pos, GridPosition::new(1, 1));
}

#[test]
fn test_reproduction_staying_near_player() {
    let mut friends = vec![Friend { pos: GridPosition::new(1, 1), energy: 90.0, timer: 0.0, state: AIState::Reproducing }];

    let (offspring, _) = movement_pass_of(&mut friends, Some(GridPosition::new(0, 0)), &[], 0.0);

    assert_eq!(friends.len() + offspring.len(), 1);
    assert_eq!(friends[0].pos, GridPosition::new(1, 1));
}
