//! Grid-based ecosystem simulation: the rules that decide where friends move,
//! when they change behaviour, eat, reproduce and die, and which chunks of the
//! infinite world are loaded around the player.
pub mod grid;
pub mod occupancy;
pub mod behaviour;
pub mod movement;
pub mod pass;
pub mod world;
pub mod player;
mod random;
