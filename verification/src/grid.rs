//! Integer grid coordinates, chunk coordinates and the distance measures and
//! single steps that movement is built from.
use vstd::prelude::*;

verus! {

/// Side length of a chunk, in tiles.
pub const CHUNK_SIZE: i32 = 16;

/// Radius, in chunks, of the square of chunks kept visible around the player.
pub const VISIBLE_RADIUS: i32 = 2;

/// Extra ring of chunks loaded beyond the visible radius.
pub const PRELOAD_RADIUS: i32 = 1;

/// Radius, in chunks, of the square of chunks that is loaded around the player.
pub const TOTAL_CHUNK_RADIUS: i32 = VISIBLE_RADIUS + PRELOAD_RADIUS;

/// A tile of the world, in whole grid units.
#[derive(Clone, Copy, Debug, PartialEq, Eq, Hash, Structural)]
pub struct GridPosition {
    pub x: i32,
    pub y: i32,
}

/// A chunk of the world, in whole chunk units.
#[derive(Clone, Copy, Debug, PartialEq, Eq, Hash, Structural)]
pub struct ChunkPosition {
    pub x: i32,
    pub y: i32,
}

/// Absolute value of an integer.
pub open spec fn abs(v: int) -> int {
    if v < 0 { -v } else { v }
}

/// Sign of an integer: -1, 0 or 1.
pub open spec fn sign(v: int) -> int {
    if v > 0 { 1 } else if v < 0 { -1 } else { 0 }
}

/// Division that rounds toward zero, as integer division does on the machine.
pub open spec fn div_toward_zero(a: int, d: int) -> int {
    if a >= 0 { a / d } else { -((-a) / d) }
}

/// Remainder that takes the sign of the dividend, as `%` does on the machine.
pub open spec fn rem_toward_zero(a: int, d: int) -> int {
    a - d * div_toward_zero(a, d)
}

/// Chunk coordinate that the grid coordinate `v` falls in.
pub open spec fn chunk_index(v: int) -> int {
    div_toward_zero(v, CHUNK_SIZE as int)
}

/// Manhattan (taxicab) distance between two tiles.
pub open spec fn manhattan(a: GridPosition, b: GridPosition) -> int {
    abs(b.x - a.x) + abs(b.y - a.y)
}

/// Chebyshev (king-move) distance between two tiles.
pub open spec fn chebyshev(a: GridPosition, b: GridPosition) -> int {
    if abs(b.x - a.x) >= abs(b.y - a.y) { abs(b.x - a.x) } else { abs(b.y - a.y) }
}

/// Squared Euclidean distance between two tiles.
pub open spec fn dist_squared(a: GridPosition, b: GridPosition) -> int {
    (b.x - a.x) * (b.x - a.x) + (b.y - a.y) * (b.y - a.y)
}

/// The tile `(x, y)` as a position value.
pub open spec fn pos(x: int, y: int) -> GridPosition {
    GridPosition { x: x as i32, y: y as i32 }
}

/// One step along the axis on which `target` is farther from `from`: along x
/// when the x gap is strictly larger, along y otherwise.
pub open spec fn cardinal_step(from: GridPosition, target: GridPosition) -> GridPosition {
    let dx = target.x - from.x;
    let dy = target.y - from.y;
    if abs(dx) > abs(dy) {
        pos(from.x + sign(dx), from.y as int)
    } else {
        pos(from.x as int, from.y + sign(dy))
    }
}

/// One step on both axes at once toward `target`.
pub open spec fn diagonal_step(from: GridPosition, target: GridPosition) -> GridPosition {
    pos(from.x + sign(target.x - from.x), from.y + sign(target.y - from.y))
}

/// Whether a coordinate lies inside the range of `i32`.
pub open spec fn fits_i32(v: int) -> bool {
    i32::MIN <= v <= i32::MAX
}

/// Whether all four neighbours of the tile exist on the `i32` grid.
pub open spec fn has_neighbours(p: GridPosition) -> bool {
    i32::MIN < p.x < i32::MAX && i32::MIN < p.y < i32::MAX
}

/// The four neighbours of a tile in the order right, left, up, down.
pub open spec fn neighbour(p: GridPosition, k: int) -> GridPosition {
    if k == 0 {
        pos(p.x + 1, p.y as int)
    } else if k == 1 {
        pos(p.x - 1, p.y as int)
    } else if k == 2 {
        pos(p.x as int, p.y + 1)
    } else {
        pos(p.x as int, p.y - 1)
    }
}

impl GridPosition {
    /// The tile at `(x, y)`.
    pub fn new(x: i32, y: i32) -> (p: GridPosition)
        ensures
            p.x == x,
            p.y == y,
    {
        GridPosition { x, y }
    }

    /// The chunk this tile belongs to: each coordinate divided by the chunk
    /// size, rounding toward zero.
    pub fn chunk(&self) -> (c: ChunkPosition)
        ensures
            c.x == chunk_index(self.x as int),
            c.y == chunk_index(self.y as int),
    {
        ChunkPosition { x: chunk_coord(self.x), y: chunk_coord(self.y) }
    }
}

impl ChunkPosition {
    /// The chunk at `(x, y)`.
    pub fn new(x: i32, y: i32) -> (c: ChunkPosition)
        ensures
            c.x == x,
            c.y == y,
    {
        ChunkPosition { x, y }
    }
}

/// Chunk coordinate of a grid coordinate: division by the chunk size rounding
/// toward zero, so that tiles -15 to 15 all lie in chunk 0.
pub fn chunk_coord(v: i32) -> (c: i32)
    ensures
        c == chunk_index(v as int),
{
    v / CHUNK_SIZE
}

/// Manhattan distance between two tiles.
pub fn manhattan_distance(a: GridPosition, b: GridPosition) -> (d: i32)
    requires
        manhattan(a, b) <= i32::MAX,
    ensures
        d == manhattan(a, b),
{
    let dx = b.x - a.x;
    let dy = b.y - a.y;
    let ax = if dx < 0 { -dx } else { dx };
    let ay = if dy < 0 { -dy } else { dy };
    ax + ay
}

/// When the squared distance fits in `i32`, so do both coordinate gaps, their
/// squares and the Manhattan distance.
pub proof fn lemma_small_gaps(p: GridPosition, q: GridPosition)
    requires
        dist_squared(p, q) <= i32::MAX,
    ensures
        fits_i32(q.x - p.x),
        fits_i32(q.y - p.y),
        0 <= (q.x - p.x) * (q.x - p.x) <= i32::MAX,
        0 <= (q.y - p.y) * (q.y - p.y) <= i32::MAX,
        manhattan(p, q) <= i32::MAX,
{
    let gx: int = q.x - p.x;
    let gy: int = q.y - p.y;
    assert(0 <= gx * gx <= i32::MAX && 0 <= gy * gy <= i32::MAX) by (nonlinear_arith)
        requires
            gx * gx + gy * gy <= i32::MAX,
    ;
    assert(-46341 < gx < 46341 && -46341 < gy < 46341) by (nonlinear_arith)
        requires
            gx * gx <= i32::MAX,
            gy * gy <= i32::MAX,
    ;
}

/// Squared Euclidean distance between two tiles.
pub fn distance_squared(a: GridPosition, b: GridPosition) -> (d: i32)
    requires
        dist_squared(a, b) <= i32::MAX,
    ensures
        d == dist_squared(a, b),
{
    proof {
        lemma_small_gaps(a, b);
    }
    let dx = b.x - a.x;
    let dy = b.y - a.y;
    dx * dx + dy * dy
}

/// Sign of a coordinate difference: -1, 0 or 1.
pub fn signum(v: i32) -> (s: i32)
    ensures
        s == sign(v as int),
{
    if v > 0 {
        1
    } else if v < 0 {
        -1
    } else {
        0
    }
}

/// One step toward `target` along the axis with the larger gap (along y when
/// the gaps are equal); no step when `from` is `target`.
pub fn step_toward(from: GridPosition, target: GridPosition) -> (p: GridPosition)
    requires
        manhattan(from, target) <= i32::MAX,
    ensures
        p == cardinal_step(from, target),
{
    let dx = target.x - from.x;
    let dy = target.y - from.y;
    let ax = if dx < 0 { -dx } else { dx };
    let ay = if dy < 0 { -dy } else { dy };
    if ax > ay {
        GridPosition { x: from.x + signum(dx), y: from.y }
    } else {
        GridPosition { x: from.x, y: from.y + signum(dy) }
    }
}

/// One step toward `target` on both axes at once (a diagonal step when both
/// gaps are non-zero).
pub fn step_diagonally_toward(from: GridPosition, target: GridPosition) -> (p: GridPosition)
    requires
        fits_i32(target.x - from.x),
        fits_i32(target.y - from.y),
    ensures
        p == diagonal_step(from, target),
{
    let dx = target.x - from.x;
    let dy = target.y - from.y;
    GridPosition { x: from.x + signum(dx), y: from.y + signum(dy) }
}

/// The four neighbours of a tile: right, left, up, down.
pub fn neighbours(p: GridPosition) -> (n: [GridPosition; 4])
    requires
        has_neighbours(p),
    ensures
        forall|k: int| 0 <= k < 4 ==> n[k] == neighbour(p, k),
{
    [
        GridPosition { x: p.x + 1, y: p.y },
        GridPosition { x: p.x - 1, y: p.y },
        GridPosition { x: p.x, y: p.y + 1 },
        GridPosition { x: p.x, y: p.y - 1 },
    ]
}

/// `t` is one step from `from` toward `target` along a row or a column: one
/// tile away from `from`, one tile closer to `target`, and along x only when
/// the x gap to `target` is strictly the larger one, along y otherwise.
pub open spec fn is_step_toward(from: GridPosition, t: GridPosition, target: GridPosition) -> bool {
    &&& manhattan(from, t) == 1
    &&& manhattan(t, target) == manhattan(from, target) - 1
    &&& (t.x != from.x ==> abs(target.x - from.x) > abs(target.y - from.y))
    &&& (t.y != from.y ==> abs(target.x - from.x) <= abs(target.y - from.y))
}

/// A cardinal step toward another tile is one step toward it along the axis
/// with the larger gap.
pub proof fn lemma_cardinal_step_is_step_toward(from: GridPosition, target: GridPosition)
    requires
        from != target,
    ensures
        is_step_toward(from, cardinal_step(from, target), target),
{
}

/// A step along the axis with the larger gap brings a tile exactly one unit
/// closer (in Manhattan distance) to any other tile.
pub proof fn lemma_step_toward_closes_in(from: GridPosition, target: GridPosition)
    requires
        from != target,
    ensures
        manhattan(cardinal_step(from, target), target) == manhattan(from, target) - 1,
        manhattan(from, cardinal_step(from, target)) == 1,
{
}

/// A diagonal step brings a tile exactly one unit closer (in Chebyshev
/// distance) to any other tile, and moves it by at most one on each axis.
pub proof fn lemma_diagonal_step_closes_in(from: GridPosition, target: GridPosition)
    requires
        from != target,
    ensures
        chebyshev(diagonal_step(from, target), target) == chebyshev(from, target) - 1,
        chebyshev(from, diagonal_step(from, target)) == 1,
{
}

/// A tile lies within its chunk: its coordinate differs from the chunk's
/// origin by less than one chunk, on the same side of zero.
pub proof fn lemma_chunk_contains(v: int)
    ensures
        v >= 0 ==> CHUNK_SIZE * chunk_index(v) <= v < CHUNK_SIZE * chunk_index(v) + CHUNK_SIZE,
        v < 0 ==> CHUNK_SIZE * chunk_index(v) - CHUNK_SIZE < v <= CHUNK_SIZE * chunk_index(v),
        0 <= v < CHUNK_SIZE ==> chunk_index(v) == 0,
{
}


/// The single integer that a pair of `i32` coordinates is stored under in
/// hashed collections: the first coordinate in the high half, the second,
/// shifted to be non-negative, in the low half.
pub open spec fn cell_key(x: int, y: int) -> int {
    x * 0x1_0000_0000 + (y + 0x8000_0000)
}

/// Key of the coordinate pair `(x, y)` for hashed collections.
pub fn key_of(x: i32, y: i32) -> (k: i64)
    ensures
        k == cell_key(x as int, y as int),
{
    proof {
        lemma_cell_key_bounds(x, y);
    }
    (x as i64) * 0x1_0000_0000i64 + ((y as i64) + 0x8000_0000i64)
}

/// Every key fits in an `i64`.
pub proof fn lemma_cell_key_bounds(x: i32, y: i32)
    ensures
        i64::MIN <= x * 0x1_0000_0000 <= i64::MAX,
        i64::MIN <= cell_key(x as int, y as int) <= i64::MAX,
{
    let xi: int = x as int;
    assert(-0x8000_0000_0000_0000 <= xi * 0x1_0000_0000 <= 0x7fff_ffff_0000_0000) by (nonlinear_arith)
        requires
            -0x8000_0000 <= xi <= 0x7fff_ffff,
    ;
}

/// Distinct coordinate pairs have distinct keys.
pub proof fn lemma_cell_key_injective(x1: i32, y1: i32, x2: i32, y2: i32)
    ensures
        cell_key(x1 as int, y1 as int) == cell_key(x2 as int, y2 as int) <==> (x1 == x2 && y1 == y2),
{
    if cell_key(x1 as int, y1 as int) == cell_key(x2 as int, y2 as int) {
        let dx: int = x1 - x2;
        assert(dx * 0x1_0000_0000 == y2 - y1);
        assert(dx == 0) by (nonlinear_arith)
            requires
                dx * 0x1_0000_0000 == y2 - y1,
                -0x1_0000_0000 < y2 - y1 < 0x1_0000_0000,
        ;
    }
}

} // verus!
