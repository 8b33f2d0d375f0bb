//! The player's movement on the grid, one tile per key press.
use vstd::prelude::*;
use crate::grid::{GridPosition, pos};

verus! {

/// The movement keys pressed in this frame (W or arrow up, S or arrow down, A
/// or arrow left, D or arrow right).
#[derive(Clone, Copy, Debug, PartialEq, Eq, Structural)]
pub struct MoveKeys {
    pub up: bool,
    pub down: bool,
    pub left: bool,
    pub right: bool,
}

/// One for a pressed key, zero otherwise.
pub open spec fn pressed(b: bool) -> int {
    if b { 1 } else { 0 }
}

/// The player's tile after the pressed keys move it one tile each.
pub open spec fn moved_by(p: GridPosition, keys: MoveKeys) -> GridPosition {
    pos(
        p.x - pressed(keys.left) + pressed(keys.right),
        p.y + pressed(keys.up) - pressed(keys.down),
    )
}

/// The moves are applied up, down, left, right, in that order, without
/// leaving the `i32` range at any point.
pub open spec fn moves_fit(p: GridPosition, keys: MoveKeys) -> bool {
    &&& keys.up ==> p.y < i32::MAX
    &&& keys.down ==> p.y + pressed(keys.up) > i32::MIN
    &&& keys.left ==> p.x > i32::MIN
    &&& keys.right ==> p.x - pressed(keys.left) < i32::MAX
}

/// Moves the player one tile per pressed key: up adds one to `y`, down takes
/// one off, left takes one off `x`, right adds one.
pub fn apply_movement_keys(p: GridPosition, keys: MoveKeys) -> (q: GridPosition)
    requires
        moves_fit(p, keys),
    ensures
        q == moved_by(p, keys),
{
    let mut q = p;
    if keys.up {
        q.y = q.y + 1;
    }
    if keys.down {
        q.y = q.y - 1;
    }
    if keys.left {
        q.x = q.x - 1;
    }
    if keys.right {
        q.x = q.x + 1;
    }
    q
}

/// Opposite keys pressed together cancel out, and without keys the player
/// stays.
pub proof fn lemma_opposite_keys_cancel(p: GridPosition, keys: MoveKeys)
    ensures
        keys.up == keys.down ==> moved_by(p, keys).y == p.y,
        keys.left == keys.right ==> moved_by(p, keys).x == p.x,
{
}

} // verus!
