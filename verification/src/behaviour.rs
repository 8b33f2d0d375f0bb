//! Friend behaviour: the four behaviour states, the energy- and timer-driven
//! transitions between them, death by starvation and the reproduction gate.
use vstd::prelude::*;
use crate::random::random_u8;

verus! {

/// What a friend is currently trying to do.
#[derive(Clone, Copy, Debug, PartialEq, Eq, Hash, Structural)]
pub enum AIState {
    Wandering,
    SeekingFood,
    FollowingPlayer,
    Reproducing,
}

/// A friend's energy, given by the whole numbers at or just below (`floor`)
/// and at or just above (`ceil`) it. Every rule compares energy with a whole
/// number, so these two values decide every rule exactly: `e >= c` and
/// `e < c` hold as `floor >= c` and `floor < c`, `e > c` and `e <= c` as
/// `ceil > c` and `ceil <= c`.
#[derive(Clone, Copy, Debug, PartialEq, Eq, Structural)]
pub struct EnergyReading {
    pub floor: i64,
    pub ceil: i64,
}

impl EnergyReading {
    /// The reading of an energy value that lies between `floor` and `ceil`.
    pub fn new(floor: i64, ceil: i64) -> (e: EnergyReading)
        ensures
            e.floor == floor,
            e.ceil == ceil,
    {
        EnergyReading { floor, ceil }
    }

    /// The two bounds belong to one real value.
    pub open spec fn is_reading(self) -> bool {
        self.floor <= self.ceil <= self.floor + 1
    }

    /// Energy is at least `c`.
    pub open spec fn at_least(self, c: int) -> bool {
        self.floor >= c
    }

    /// Energy is below `c`.
    pub open spec fn below(self, c: int) -> bool {
        self.floor < c
    }

    /// Energy is above `c`.
    pub open spec fn above(self, c: int) -> bool {
        self.ceil > c
    }

    /// Energy is at most `c`.
    pub open spec fn at_most(self, c: int) -> bool {
        self.ceil <= c
    }
}

/// Below this energy a friend seeks food; from it on a friend seeking food
/// follows the player again.
pub const HUNGER_ENERGY: i64 = 50;

/// From this energy on a friend following the player starts reproducing; in
/// the stateless wandering model a friend reproduces above it.
pub const BREEDING_ENERGY: i64 = 80;

/// A reproducing friend produces an offspring when its energy, after eating,
/// is above this.
pub const OFFSPRING_THRESHOLD: i64 = 120;

/// A reproducing friend gives up and follows the player below this energy.
pub const SPENT_ENERGY: i64 = 60;

/// A wandering friend starts following the player from this energy on.
pub const RESTLESS_ENERGY: i64 = 90;

/// Energy that a reproducing parent hands over to each offspring, and that
/// the offspring starts with.
pub const OFFSPRING_ENERGY: i64 = 60;

/// Energy that a parent of the stateless wandering model hands over to each
/// offspring, and that the offspring starts with.
pub const WANDER_OFFSPRING_ENERGY: i64 = 50;

/// A span of time (or, for movement speed, of a factor) from which a fresh
/// value is drawn uniformly: from `low` to `low + width`, in tenths.
#[derive(Clone, Copy, Debug, PartialEq, Eq, Structural)]
pub struct TenthsRange {
    pub low: u32,
    pub width: u32,
}

/// The range `[low, low + width]` tenths.
pub open spec fn tenths(low: int, width: int) -> TenthsRange {
    TenthsRange { low: low as u32, width: width as u32 }
}

/// Range of a state timer after the timer ran out or on first setup: 2 to 10
/// seconds.
pub open spec fn spec_state_timer_range() -> TenthsRange {
    tenths(20, 80)
}

/// Range of the state timer when a friend enters `s` because of its energy:
/// 3 to 8 seconds when following the player, 5 to 8 seconds when
/// reproducing, 2 to 6 seconds when seeking food.
pub open spec fn entry_timer_range(s: AIState) -> TenthsRange {
    match s {
        AIState::FollowingPlayer => tenths(30, 50),
        AIState::Reproducing => tenths(50, 30),
        AIState::SeekingFood => tenths(20, 40),
        AIState::Wandering => tenths(20, 80),
    }
}

/// The state that a friend's energy moves it to, if any: below the hunger
/// energy every friend seeks food; a friend seeking food that is no longer
/// hungry follows the player; one following the player starts reproducing
/// from the breeding energy on; one reproducing falls back to following the
/// player below the spent energy; one wandering follows the player from the
/// restless energy on.
pub open spec fn energy_rule(s: AIState, e: EnergyReading) -> Option<AIState> {
    if e.below(HUNGER_ENERGY as int) {
        if s == AIState::SeekingFood {
            None
        } else {
            Some(AIState::SeekingFood)
        }
    } else {
        match s {
            AIState::SeekingFood => Some(AIState::FollowingPlayer),
            AIState::FollowingPlayer => if e.at_least(BREEDING_ENERGY as int) {
                Some(AIState::Reproducing)
            } else {
                None
            },
            AIState::Reproducing => if e.below(SPENT_ENERGY as int) {
                Some(AIState::FollowingPlayer)
            } else {
                None
            },
            AIState::Wandering => if e.at_least(RESTLESS_ENERGY as int) {
                Some(AIState::FollowingPlayer)
            } else {
                None
            },
        }
    }
}

/// The state a friend moves to when its state timer runs out; a wandering
/// friend picks one of the three other states by `roll`, a hungry friend
/// keeps seeking food.
pub open spec fn expiry_rule(s: AIState, e: EnergyReading, roll: u8) -> AIState {
    match s {
        AIState::Wandering => if roll % 3 == 0 {
            AIState::SeekingFood
        } else if roll % 3 == 1 {
            AIState::FollowingPlayer
        } else {
            AIState::Reproducing
        },
        AIState::SeekingFood => if e.at_least(HUNGER_ENERGY as int) {
            AIState::FollowingPlayer
        } else {
            AIState::SeekingFood
        },
        AIState::FollowingPlayer => if e.at_least(BREEDING_ENERGY as int) {
            AIState::Reproducing
        } else if e.below(HUNGER_ENERGY as int) {
            AIState::SeekingFood
        } else {
            AIState::Wandering
        },
        AIState::Reproducing => if e.below(SPENT_ENERGY as int) {
            AIState::FollowingPlayer
        } else {
            AIState::Wandering
        },
    }
}

/// The outcome of one behaviour update: the new state, whether an energy
/// rule moved the friend there, and, when the state timer is restarted, the
/// range its new value is drawn from.
#[derive(Clone, Copy, Debug, PartialEq, Eq, Structural)]
pub struct Transition {
    pub state: AIState,
    pub by_energy: bool,
    pub restart: Option<TenthsRange>,
}

/// One behaviour update. Energy rules come first and restart the timer with a
/// value of at least two seconds, so the timer only decides when no energy
/// rule applied; `timer_expired` says whether the timer, counted down for
/// this update, has reached zero.
pub open spec fn transition_of(s: AIState, e: EnergyReading, timer_expired: bool, roll: u8) -> Transition {
    match energy_rule(s, e) {
        Some(next) => Transition { state: next, by_energy: true, restart: Some(entry_timer_range(next)) },
        None => if timer_expired {
            Transition { state: expiry_rule(s, e, roll), by_energy: false, restart: Some(spec_state_timer_range()) }
        } else {
            Transition { state: s, by_energy: false, restart: None }
        },
    }
}

/// The state a new friend starts in, chosen by `roll`.
pub open spec fn initial_state_of(roll: u8) -> AIState {
    if roll % 4 == 0 {
        AIState::Wandering
    } else if roll % 4 == 1 {
        AIState::SeekingFood
    } else if roll % 4 == 2 {
        AIState::FollowingPlayer
    } else {
        AIState::Reproducing
    }
}

/// Range of the state timer on first setup: 2 to 10 seconds.
pub fn state_timer_range() -> (r: TenthsRange)
    ensures
        r == spec_state_timer_range(),
{
    TenthsRange { low: 20, width: 80 }
}

/// Range of a friend's movement timer: 0.1 to 0.5 seconds.
pub fn movement_timer_range() -> (r: TenthsRange)
    ensures
        r == tenths(1, 4),
{
    TenthsRange { low: 1, width: 4 }
}

/// Range of a friend's movement speed factor: 0.8 to 1.2.
pub fn movement_speed_range() -> (r: TenthsRange)
    ensures
        r == tenths(8, 4),
{
    TenthsRange { low: 8, width: 4 }
}

/// Range of an offspring's first state timer: 3 to 7 seconds.
pub fn offspring_state_timer_range() -> (r: TenthsRange)
    ensures
        r == tenths(30, 40),
{
    TenthsRange { low: 30, width: 40 }
}

/// The state a newly set up friend starts in, for a random byte `roll`: its
/// remainder by four picks wandering, seeking food, following the player or
/// reproducing.
pub fn initial_state(roll: u8) -> (s: AIState)
    ensures
        s == initial_state_of(roll),
{
    let r = roll % 4;
    if r == 0 {
        AIState::Wandering
    } else if r == 1 {
        AIState::SeekingFood
    } else if r == 2 {
        AIState::FollowingPlayer
    } else {
        AIState::Reproducing
    }
}

/// The state of a newly set up friend, drawn at random.
pub fn random_initial_state() -> (s: AIState)
    ensures
        exists|roll: u8| s == initial_state_of(roll),
{
    let roll = random_u8();
    initial_state(roll)
}

/// One behaviour update with the given random byte (used only when a
/// wandering friend's timer runs out).
pub fn behaviour_transition(s: AIState, e: EnergyReading, timer_expired: bool, roll: u8) -> (t: Transition)
    ensures
        t == transition_of(s, e, timer_expired, roll),
{
    let hungry = e.floor < HUNGER_ENERGY;
    let by_energy: Option<AIState> = if hungry {
        if s == AIState::SeekingFood {
            None
        } else {
            Some(AIState::SeekingFood)
        }
    } else {
        match s {
            AIState::SeekingFood => Some(AIState::FollowingPlayer),
            AIState::FollowingPlayer => if e.floor >= BREEDING_ENERGY {
                Some(AIState::Reproducing)
            } else {
                None
            },
            AIState::Reproducing => if e.floor < SPENT_ENERGY {
                Some(AIState::FollowingPlayer)
            } else {
                None
            },
            AIState::Wandering => if e.floor >= RESTLESS_ENERGY {
                Some(AIState::FollowingPlayer)
            } else {
                None
            },
        }
    };
    if let Some(next) = by_energy {
        let restart = match next {
            AIState::FollowingPlayer => TenthsRange { low: 30, width: 50 },
            AIState::Reproducing => TenthsRange { low: 50, width: 30 },
            AIState::SeekingFood => TenthsRange { low: 20, width: 40 },
            AIState::Wandering => TenthsRange { low: 20, width: 80 },
        };
        return Transition { state: next, by_energy: true, restart: Some(restart) };
    }
    if !timer_expired {
        return Transition { state: s, by_energy: false, restart: None };
    }
    let next = match s {
        AIState::Wandering => {
            let r = roll % 3;
            if r == 0 {
                AIState::SeekingFood
            } else if r == 1 {
                AIState::FollowingPlayer
            } else {
                AIState::Reproducing
            }
        },
        AIState::SeekingFood => if !hungry {
            AIState::FollowingPlayer
        } else {
            AIState::SeekingFood
        },
        AIState::FollowingPlayer => if e.floor >= BREEDING_ENERGY {
            AIState::Reproducing
        } else if hungry {
            AIState::SeekingFood
        } else {
            AIState::Wandering
        },
        AIState::Reproducing => if e.floor < SPENT_ENERGY {
            AIState::FollowingPlayer
        } else {
            AIState::Wandering
        },
    };
    Transition { state: next, by_energy: false, restart: Some(state_timer_range()) }
}

/// One behaviour update; a random byte is drawn when a wandering friend's
/// timer runs out and no energy rule applies.
pub fn update_behaviour(s: AIState, e: EnergyReading, timer_expired: bool) -> (t: Transition)
    ensures
        exists|roll: u8| t == transition_of(s, e, timer_expired, roll),
{
    let needs_roll = timer_expired && s == AIState::Wandering && e.floor >= HUNGER_ENERGY
        && e.floor < RESTLESS_ENERGY;
    if needs_roll {
        let roll = random_u8();
        behaviour_transition(s, e, timer_expired, roll)
    } else {
        let t = behaviour_transition(s, e, timer_expired, 0);
        t
    }
}

/// A friend whose energy is used up (at most zero) dies.
pub fn is_depleted(e: EnergyReading) -> (dead: bool)
    ensures
        dead == e.at_most(0),
{
    e.ceil <= 0
}

/// A friend produces offspring when it is reproducing and its energy is above
/// the offspring threshold.
pub fn ready_to_reproduce(e: EnergyReading, s: AIState) -> (b: bool)
    ensures
        b == (e.above(OFFSPRING_THRESHOLD as int) && s == AIState::Reproducing),
{
    e.ceil > OFFSPRING_THRESHOLD && s == AIState::Reproducing
}

/// In the stateless wandering model (friends wander on each simulation tick
/// and reproduce without a behaviour state) a friend seeks food when its
/// energy is below the hunger energy.
pub fn wander_is_hungry(e: EnergyReading) -> (b: bool)
    ensures
        b == e.below(HUNGER_ENERGY as int),
{
    e.floor < HUNGER_ENERGY
}

/// In the stateless wandering model a friend reproduces when its energy is
/// above the breeding energy.
pub fn wander_can_reproduce(e: EnergyReading) -> (b: bool)
    ensures
        b == e.above(BREEDING_ENERGY as int),
{
    e.ceil > BREEDING_ENERGY
}

/// A wandering friend whose timer runs out always leaves the wandering state,
/// whatever its energy and whatever is drawn.
pub proof fn lemma_expired_wanderer_moves_on(e: EnergyReading, roll: u8)
    ensures
        transition_of(AIState::Wandering, e, true, roll).state != AIState::Wandering,
{
}

/// Every restart of the state timer is at least two seconds, so a timer that
/// was just restarted has not run out.
pub proof fn lemma_restart_is_positive(s: AIState, e: EnergyReading, expired: bool, roll: u8)
    ensures
        transition_of(s, e, expired, roll).restart matches Some(r) ==> r.low >= 20,
{
}

/// When neither the energy rules nor the timer apply, a friend keeps its state
/// and its running timer.
pub proof fn lemma_settled_friend_stays(s: AIState, e: EnergyReading, roll: u8)
    requires
        energy_rule(s, e) is None,
    ensures
        transition_of(s, e, false, roll) == (Transition { state: s, by_energy: false, restart: None }),
{
}

/// A friend whose energy lies in the middle band (50 up to 90) and that is
/// wandering keeps wandering until its timer runs out.
pub proof fn lemma_mid_energy_wanderer_explores(e: EnergyReading, roll: u8)
    requires
        e.at_least(HUNGER_ENERGY as int),
        e.below(RESTLESS_ENERGY as int),
    ensures
        transition_of(AIState::Wandering, e, false, roll).state == AIState::Wandering,
{
}

/// A friend whose energy is below the hunger energy seeks food after every
/// update, whatever its state, its timer and the random byte.
pub proof fn lemma_hungry_friend_seeks_food(s: AIState, e: EnergyReading, expired: bool, roll: u8)
    requires
        e.below(HUNGER_ENERGY as int),
    ensures
        transition_of(s, e, expired, roll).state == AIState::SeekingFood,
{
}

/// A starved friend never reproduces, and a friend that can reproduce is not
/// hungry.
pub proof fn lemma_depleted_never_reproduces(e: EnergyReading)
    requires
        e.is_reading(),
    ensures
        e.at_most(0) ==> !e.above(BREEDING_ENERGY as int),
        e.above(BREEDING_ENERGY as int) ==> !e.below(HUNGER_ENERGY as int),
{
}

/// A friend seeking food never jumps straight to reproducing.
pub proof fn lemma_no_band_skipping(s: AIState, e: EnergyReading, expired: bool, roll: u8)
    ensures
        s == AIState::SeekingFood ==> transition_of(s, e, expired, roll).state != AIState::Reproducing,
{
}

/// A friend following the player whose energy is 80 or more starts
/// reproducing, however high its energy and whatever its timer and the random
/// byte, and its state timer restarts at 5 to 8 seconds.
pub proof fn lemma_follower_with_energy_starts_reproducing(e: EnergyReading, expired: bool, roll: u8)
    requires
        e.floor >= 80,
    ensures
        transition_of(AIState::FollowingPlayer, e, expired, roll) == (Transition {
            state: AIState::Reproducing,
            by_energy: true,
            restart: Some(TenthsRange { low: 50, width: 30 }),
        }),
{
}

} // verus!
