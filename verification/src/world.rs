//! The infinite world: which chunks are loaded around the player, the record
//! of chunks already generated, the tiles of a chunk, terrain seeds and where
//! new plants appear.
use std::collections::{HashMap, HashSet};
use vstd::prelude::*;
use crate::grid::{
    GridPosition, ChunkPosition, CHUNK_SIZE, VISIBLE_RADIUS, TOTAL_CHUNK_RADIUS, chunk_index,
    chunk_coord, cell_key, key_of, lemma_cell_key_injective, lemma_cell_key_bounds,
    div_toward_zero, rem_toward_zero, pos, fits_i32, PRELOAD_RADIUS,
};
use vstd::arithmetic::div_mod::lemma_fundamental_div_mod_converse;
use crate::random::random_i32;

verus! {

broadcast use vstd::std_specs::hash::group_hash_axioms;

/// What was changed in a chunk.
#[derive(Clone, Copy, Debug, PartialEq, Eq, Structural)]
pub enum ModificationType {
    /// A plant was placed, with the bit pattern of its nutritional value.
    Plant { nutritional_value_bits: u32 },
    /// A decoration of the given kind was placed.
    Decoration { decoration_type: i32 },
}

/// A change made to a chunk, at a tile in world coordinates.
#[derive(Clone, Copy, Debug, PartialEq, Eq, Structural)]
pub struct ChunkModification {
    pub position: GridPosition,
    pub modification_type: ModificationType,
}

/// The stored contents of one chunk: its coordinates, a tile id for each of
/// its 16 by 16 tiles (0 grass, 1 dirt, 2 water, ...), indexed by local x and
/// then local y, and the changes made to it.
#[derive(Debug)]
pub struct ChunkData {
    pub position: (i32, i32),
    pub tiles: [[i32; 16]; 16],
    pub modifications: Vec<ChunkModification>,
}

impl Clone for ChunkData {
    fn clone(&self) -> (d: ChunkData)
        ensures
            d.position == self.position,
            d.tiles == self.tiles,
            d.modifications@ == self.modifications@,
    {
        ChunkData {
            position: self.position,
            tiles: self.tiles,
            modifications: self.modifications.clone(),
        }
    }
}

/// Whether local chunk coordinates lie inside a chunk.
pub open spec fn in_chunk(local_x: int, local_y: int) -> bool {
    0 <= local_x < CHUNK_SIZE && 0 <= local_y < CHUNK_SIZE
}

impl ChunkData {
    /// Tile id at local coordinates inside the chunk.
    pub open spec fn tile(&self, local_x: int, local_y: int) -> i32 {
        self.tiles[local_x][local_y]
    }

    /// An empty chunk at `(chunk_x, chunk_y)`: every tile 0, no changes.
    pub fn new(chunk_x: i32, chunk_y: i32) -> (d: ChunkData)
        ensures
            d.position == (chunk_x, chunk_y),
            forall|x: int, y: int| in_chunk(x, y) ==> d.tile(x, y) == 0,
            d.modifications@.len() == 0,
    {
        ChunkData { position: (chunk_x, chunk_y), tiles: [[0; 16]; 16], modifications: Vec::new() }
    }

    /// The tile id at local coordinates, or `None` outside the chunk.
    pub fn get_tile(&self, local_x: i32, local_y: i32) -> (t: Option<i32>)
        ensures
            t == (if in_chunk(local_x as int, local_y as int) {
                Some(self.tile(local_x as int, local_y as int))
            } else {
                None
            }),
    {
        if local_x >= 0 && local_x < CHUNK_SIZE && local_y >= 0 && local_y < CHUNK_SIZE {
            Some(self.tiles[local_x as usize][local_y as usize])
        } else {
            None
        }
    }

    /// Sets the tile id at local coordinates; outside the chunk nothing
    /// changes.
    pub fn set_tile(&mut self, local_x: i32, local_y: i32, tile_id: i32)
        ensures
            final(self).position == old(self).position,
            final(self).modifications == old(self).modifications,
            forall|x: int, y: int|
                in_chunk(x, y) ==> #[trigger] final(self).tile(x, y) == if in_chunk(local_x as int, local_y as int)
                    && x == local_x && y == local_y {
                    tile_id
                } else {
                    old(self).tile(x, y)
                },
    {
        if local_x >= 0 && local_x < CHUNK_SIZE && local_y >= 0 && local_y < CHUNK_SIZE {
            let lx = local_x as usize;
            let ly = local_y as usize;
            self.tiles[lx][ly] = tile_id;
        }
    }
}

/// Key under which chunk `(x, y)` is stored.
pub open spec fn chunk_key(x: i32, y: i32) -> i64 {
    cell_key(x as int, y as int) as i64
}

/// Equal keys mean equal chunks.
proof fn lemma_chunk_key_injective(a: (i32, i32), b: (i32, i32))
    ensures
        chunk_key(a.0, a.1) == chunk_key(b.0, b.1) <==> a == b,
{
    lemma_cell_key_injective(a.0, a.1, b.0, b.1);
    lemma_cell_key_bounds(a.0, a.1);
    lemma_cell_key_bounds(b.0, b.1);
}

/// The record of chunks that have been visited (generated), of the chunks
/// whose tiles are loaded now, and of the chunk contents stored for them.
pub struct ChunkCache {
    data: HashMap<i64, ChunkData>,
    visited: HashMap<i64, bool>,
    loaded: HashSet<i64>,
}

impl ChunkCache {
    /// The chunks whose tiles are loaded now.
    pub closed spec fn loaded_chunks(&self) -> Set<(i32, i32)> {
        Set::new(|c: (i32, i32)| self.loaded@.contains(chunk_key(c.0, c.1)))
    }

    /// The chunks visited so far.
    pub closed spec fn visited_chunks(&self) -> Set<(i32, i32)> {
        Set::new(|c: (i32, i32)| self.visited@.contains_key(chunk_key(c.0, c.1)))
    }

    /// Whether contents are stored for the chunk.
    pub closed spec fn has_data(&self, c: (i32, i32)) -> bool {
        self.data@.contains_key(chunk_key(c.0, c.1))
    }

    /// The contents stored for the chunk.
    pub closed spec fn data_of(&self, c: (i32, i32)) -> ChunkData {
        self.data@[chunk_key(c.0, c.1)]
    }

    /// How many chunks have contents stored.
    pub closed spec fn stored_count(&self) -> nat {
        self.data@.len()
    }

    /// Every chunk with stored contents is visited.
    pub closed spec fn wf(&self) -> bool {
        forall|k: i64| self.data@.contains_key(k) ==> #[trigger] self.visited@.contains_key(k)
    }

    /// An empty record.
    pub fn new() -> (c: ChunkCache)
        ensures
            c.wf(),
            c.visited_chunks() == Set::<(i32, i32)>::empty(),
            c.loaded_chunks() == Set::<(i32, i32)>::empty(),
            forall|p: (i32, i32)| !c.has_data(p),
            c.stored_count() == 0,
    {
        let c = ChunkCache { data: HashMap::new(), visited: HashMap::new(), loaded: HashSet::new() };
        assert(c.visited_chunks() =~= Set::<(i32, i32)>::empty());
        assert(c.loaded_chunks() =~= Set::<(i32, i32)>::empty());
        c
    }

    /// Marks the chunk as visited.
    pub fn mark_visited(&mut self, chunk_pos: (i32, i32))
        requires
            old(self).wf(),
        ensures
            final(self).wf(),
            final(self).visited_chunks() == old(self).visited_chunks().insert(chunk_pos),
            final(self).loaded_chunks() == old(self).loaded_chunks(),
            forall|p: (i32, i32)| final(self).has_data(p) == old(self).has_data(p),
            forall|p: (i32, i32)| old(self).has_data(p) ==> final(self).data_of(p) == old(self).data_of(p),
            final(self).stored_count() == old(self).stored_count(),
    {
        let k = key_of(chunk_pos.0, chunk_pos.1);
        self.visited.insert(k, true);
        assert forall|c: (i32, i32)| #[trigger] final(self).visited_chunks().contains(c) <==> old(self).visited_chunks().insert(chunk_pos).contains(c) by {
            lemma_chunk_key_injective(c, chunk_pos);
        }
        assert(final(self).visited_chunks() =~= old(self).visited_chunks().insert(chunk_pos));
    }

    /// Whether the chunk has been visited.
    pub fn is_visited(&self, chunk_pos: (i32, i32)) -> (b: bool)
        ensures
            b == self.visited_chunks().contains(chunk_pos),
    {
        let k = key_of(chunk_pos.0, chunk_pos.1);
        self.visited.contains_key(&k)
    }

    /// Whether the tiles of the chunk are loaded now.
    pub fn is_loaded(&self, chunk_pos: (i32, i32)) -> (b: bool)
        ensures
            b == self.loaded_chunks().contains(chunk_pos),
    {
        let k = key_of(chunk_pos.0, chunk_pos.1);
        self.loaded.contains(&k)
    }

    /// The contents stored for the chunk, if any.
    pub fn get_chunk(&self, chunk_pos: (i32, i32)) -> (d: Option<&ChunkData>)
        ensures
            match d {
                Some(v) => self.has_data(chunk_pos) && *v == self.data_of(chunk_pos),
                None => !self.has_data(chunk_pos),
            },
    {
        let k = key_of(chunk_pos.0, chunk_pos.1);
        self.data.get(&k)
    }

    /// Stores contents for the chunk, replacing earlier ones, and marks it
    /// visited.
    pub fn insert_chunk(&mut self, chunk_pos: (i32, i32), data: ChunkData)
        requires
            old(self).wf(),
        ensures
            final(self).wf(),
            final(self).visited_chunks() == old(self).visited_chunks().insert(chunk_pos),
            final(self).loaded_chunks() == old(self).loaded_chunks(),
            final(self).has_data(chunk_pos),
            final(self).data_of(chunk_pos) == data,
            forall|p: (i32, i32)| p != chunk_pos ==> final(self).has_data(p) == old(self).has_data(p),
            forall|p: (i32, i32)|
                p != chunk_pos && old(self).has_data(p) ==> final(self).data_of(p) == old(self).data_of(p),
            final(self).stored_count() == old(self).stored_count() + if old(self).has_data(chunk_pos) {
                0nat
            } else {
                1nat
            },
    {
        let k = key_of(chunk_pos.0, chunk_pos.1);
        self.visited.insert(k, true);
        self.data.insert(k, data);
        assert forall|c: (i32, i32)| #[trigger] final(self).visited_chunks().contains(c) <==> old(self).visited_chunks().insert(chunk_pos).contains(c) by {
            lemma_chunk_key_injective(c, chunk_pos);
        }
        assert(final(self).visited_chunks() =~= old(self).visited_chunks().insert(chunk_pos));
        assert forall|p: (i32, i32)| p != chunk_pos implies final(self).has_data(p) == old(self).has_data(p) by {
            lemma_chunk_key_injective(p, chunk_pos);
        }
        proof {
            assert(old(self).data@.dom().finite());
            if old(self).data@.contains_key(k) {
                assert(final(self).data@.dom() =~= old(self).data@.dom());
            } else {
                assert(final(self).data@.dom() =~= old(self).data@.dom().insert(k));
            }
        }
    }

    /// The number of chunks with stored contents.
    pub fn len(&self) -> (n: usize)
        ensures
            n == self.stored_count(),
    {
        self.data.len()
    }
}

impl Default for ChunkCache {
    fn default() -> (c: ChunkCache)
        ensures
            c.wf(),
            c.visited_chunks() == Set::<(i32, i32)>::empty(),
            c.loaded_chunks() == Set::<(i32, i32)>::empty(),
            c.stored_count() == 0,
    {
        ChunkCache::new()
    }
}

/// A stored chunk counts as visited.
pub proof fn lemma_stored_chunk_is_visited(cache: &ChunkCache, c: (i32, i32))
    requires
        cache.wf(),
        cache.has_data(c),
    ensures
        cache.visited_chunks().contains(c),
{
}


/// The `k`-th chunk loaded around a player at `player`, for `k` from 0 to 48:
/// the 7 by 7 square of chunks within three chunks of the player's chunk,
/// row by row from the lowest `y`, each row from the lowest `x`.
pub open spec fn view_chunk(player: GridPosition, k: int) -> (i32, i32) {
    (
        (chunk_index(player.x as int) - TOTAL_CHUNK_RADIUS + k % 7) as i32,
        (chunk_index(player.y as int) - TOTAL_CHUNK_RADIUS + k / 7) as i32,
    )
}

/// The chunks loaded around a player at `player`, in loading order.
pub open spec fn view_chunks(player: GridPosition) -> Seq<(i32, i32)> {
    Seq::new(49, |k: int| view_chunk(player, k))
}

/// Whether the chunk lies within three chunks of the player's chunk on both
/// axes.
pub open spec fn chunk_in_view(player: GridPosition, c: (i32, i32)) -> bool {
    &&& chunk_index(player.x as int) - TOTAL_CHUNK_RADIUS <= c.0 <= chunk_index(player.x as int) + TOTAL_CHUNK_RADIUS
    &&& chunk_index(player.y as int) - TOTAL_CHUNK_RADIUS <= c.1 <= chunk_index(player.y as int) + TOTAL_CHUNK_RADIUS
}

/// The chunks to load around a player at `player`, in loading order.
pub fn visible_chunks(player: GridPosition) -> (cs: Vec<(i32, i32)>)
    ensures
        cs@ == view_chunks(player),
{
    let pcx = chunk_coord(player.x);
    let pcy = chunk_coord(player.y);
    let total_radius = VISIBLE_RADIUS + PRELOAD_RADIUS;
    let min_x = pcx - total_radius;
    let max_x = pcx + total_radius;
    let min_y = pcy - total_radius;
    let max_y = pcy + total_radius;
    let mut cs: Vec<(i32, i32)> = Vec::new();
    let mut cy = min_y;
    while cy <= max_y
        invariant
            min_y == pcy - 3,
            max_y == pcy + 3,
            min_x == pcx - 3,
            max_x == pcx + 3,
            pcx == chunk_index(player.x as int),
            pcy == chunk_index(player.y as int),
            min_y <= cy <= max_y + 1,
            cs.len() == 7 * (cy - min_y),
            forall|k: int| 0 <= k < cs.len() ==> #[trigger] cs@[k] == view_chunk(player, k),
        decreases max_y + 1 - cy,
    {
        let mut cx = min_x;
        while cx <= max_x
            invariant
                min_y == pcy - 3,
                max_y == pcy + 3,
                min_x == pcx - 3,
                max_x == pcx + 3,
                pcx == chunk_index(player.x as int),
                pcy == chunk_index(player.y as int),
                min_y <= cy <= max_y,
                min_x <= cx <= max_x + 1,
                cs.len() == 7 * (cy - min_y) + (cx - min_x),
                forall|k: int| 0 <= k < cs.len() ==> #[trigger] cs@[k] == view_chunk(player, k),
            decreases max_x + 1 - cx,
        {
            let ghost k: int = cs.len() as int;
            cs.push((cx, cy));
            assert(k % 7 == cx - min_x && k / 7 == cy - min_y);
            cx = cx + 1;
        }
        cy = cy + 1;
    }
    assert(cs@ =~= view_chunks(player));
    cs
}

/// The loaded chunks are exactly those within three chunks of the player's
/// chunk, each listed once.
pub proof fn lemma_view_chunks_cover(player: GridPosition)
    ensures
        view_chunks(player).len() == 49,
        forall|c: (i32, i32)| chunk_in_view(player, c) <==> view_chunks(player).contains(c),
        forall|a: int, b: int|
            0 <= a < b < 49 ==> view_chunks(player)[a] != view_chunks(player)[b],
        view_chunks(player).contains(
            (chunk_index(player.x as int) as i32, chunk_index(player.y as int) as i32),
        ),
{
    let vs = view_chunks(player);
    let pcx = chunk_index(player.x as int);
    let pcy = chunk_index(player.y as int);
    assert forall|c: (i32, i32)| chunk_in_view(player, c) <==> vs.contains(c) by {
        if chunk_in_view(player, c) {
            let k = (c.1 - (pcy - 3)) * 7 + (c.0 - (pcx - 3));
            assert(k % 7 == c.0 - (pcx - 3) && k / 7 == c.1 - (pcy - 3));
            assert(vs[k] == c);
        }
        if vs.contains(c) {
            let k = choose|k: int| 0 <= k < vs.len() && vs[k] == c;
            assert(vs[k] == view_chunk(player, k));
        }
    }
    assert forall|a: int, b: int| 0 <= a < b < 49 implies vs[a] != vs[b] by {
        assert(vs[a] == view_chunk(player, a));
        assert(vs[b] == view_chunk(player, b));
    }
    let k: int = 24;
    assert(vs[k] == view_chunk(player, k));
}

/// The outcome of one round of chunk management: the chunks to keep (the
/// ones in view) and, among them, those to spawn now because their tiles are
/// not loaded.
pub struct ChunkPlan {
    pub keep: Vec<(i32, i32)>,
    pub spawn: Vec<(i32, i32)>,
}

impl ChunkPlan {
    /// Whether a tile of the given chunk stays loaded.
    pub fn keeps(&self, chunk: (i32, i32)) -> (b: bool)
        ensures
            b == self.keep@.contains(chunk),
    {
        let n = self.keep.len();
        for i in 0..n
            invariant
                n == self.keep@.len(),
                forall|j: int| 0 <= j < i ==> self.keep@[j] != chunk,
        {
            let c = self.keep[i];
            if c.0 == chunk.0 && c.1 == chunk.1 {
                return true;
            }
        }
        false
    }
}

/// Whether a chunk's tiles still need to be spawned.
pub open spec fn not_loaded_in(loaded: Set<(i32, i32)>) -> spec_fn((i32, i32)) -> bool {
    |c: (i32, i32)| !loaded.contains(c)
}

/// One round of chunk management for a player at `player`: the chunks in
/// view are listed to keep; those among them whose tiles are not loaded are
/// listed to spawn, in loading order; afterwards exactly the chunks in view
/// are loaded, and all of them are visited.
pub fn plan_chunk_loading(cache: &mut ChunkCache, player: GridPosition) -> (plan: ChunkPlan)
    requires
        old(cache).wf(),
    ensures
        final(cache).wf(),
        plan.keep@ == view_chunks(player),
        plan.spawn@ == view_chunks(player).filter(not_loaded_in(old(cache).loaded_chunks())),
        final(cache).loaded_chunks() == view_chunks(player).to_set(),
        final(cache).visited_chunks() == old(cache).visited_chunks() + view_chunks(player).to_set(),
        forall|p: (i32, i32)| final(cache).has_data(p) == old(cache).has_data(p),
        final(cache).stored_count() == old(cache).stored_count(),
{
    let keep = visible_chunks(player);
    let ghost before = cache.visited_chunks();
    let ghost was_loaded = cache.loaded_chunks();
    let ghost pred = not_loaded_in(was_loaded);
    proof {
        lemma_view_chunks_cover(player);
    }
    let mut spawn: Vec<(i32, i32)> = Vec::new();
    let mut now_loaded: HashSet<i64> = HashSet::new();
    let n = keep.len();
    assert(keep@.take(0) =~= Seq::<(i32, i32)>::empty());
    for i in 0..n
        invariant
            n == keep@.len(),
            keep@ == view_chunks(player),
            pred == not_loaded_in(was_loaded),
            forall|a: int, b: int| 0 <= a < b < 49 ==> keep@[a] != keep@[b],
            cache.wf(),
            cache.loaded_chunks() == was_loaded,
            spawn@ == keep@.take(i as int).filter(pred),
            cache.visited_chunks() == before + keep@.take(i as int).to_set(),
            forall|c: (i32, i32)| #[trigger] now_loaded@.contains(chunk_key(c.0, c.1)) <==> keep@.take(i as int).contains(c),
            forall|p: (i32, i32)| cache.has_data(p) == old(cache).has_data(p),
            cache.stored_count() == old(cache).stored_count(),
    {
        let c = keep[i];
        assert(now_loaded@.contains(chunk_key(c.0, c.1)) <==> keep@.take(i as int).contains(c));
        assert(keep@.take(i + 1) =~= keep@.take(i as int).push(c));
        proof {
            keep@.take(i as int).lemma_filter_push(c, pred);
            keep@.take(i as int).lemma_push_to_set_commute(c);
        }
        if !cache.is_loaded(c) {
            spawn.push(c);
        }
        cache.mark_visited(c);
        let k = key_of(c.0, c.1);
        let ghost prev = now_loaded@;
        now_loaded.insert(k);
        assert forall|d: (i32, i32)| now_loaded@.contains(chunk_key(d.0, d.1)) <==> #[trigger] keep@.take(i + 1).contains(d) by {
            lemma_chunk_key_injective(d, c);
            assert(prev.contains(chunk_key(d.0, d.1)) <==> keep@.take(i as int).contains(d));
            if keep@.take(i as int).contains(d) {
                let j = choose|j: int| 0 <= j < i && keep@.take(i as int)[j] == d;
                assert(keep@.take(i + 1)[j] == d);
            }
            if d == c {
                assert(keep@.take(i + 1)[i as int] == d);
            }
            if keep@.take(i + 1).contains(d) && d != c {
                let next = keep@.take(i + 1);
                let j = choose|j: int| 0 <= j < i + 1 && next[j] == d;
                assert(keep@.take(i as int)[j] == d);
            }
        }
        assert(cache.visited_chunks() =~= before + keep@.take(i + 1).to_set());
    }
    assert(keep@.take(n as int) =~= keep@);
    cache.loaded = now_loaded;
    assert forall|d: (i32, i32)| #[trigger] cache.loaded_chunks().contains(d) <==> view_chunks(player).to_set().contains(d) by {
        assert(now_loaded@.contains(chunk_key(d.0, d.1)) <==> keep@.take(n as int).contains(d));
    }
    assert(cache.loaded_chunks() =~= view_chunks(player).to_set());
    ChunkPlan { keep, spawn }
}

/// In the next round, a chunk is spawned exactly when it has come into view:
/// it is in the new view and was not in the one before, whose chunks are the
/// ones loaded. So no chunk is spawned twice while it stays in view, and a
/// chunk that left the view and comes back into it is spawned again.
pub proof fn lemma_spawned_when_coming_into_view(first: GridPosition, second: GridPosition, c: (i32, i32))
    ensures
        view_chunks(second).filter(not_loaded_in(view_chunks(first).to_set())).contains(c) <==> (
        chunk_in_view(second, c) && !chunk_in_view(first, c)),
{
    lemma_view_chunks_cover(first);
    lemma_view_chunks_cover(second);
    let pred = not_loaded_in(view_chunks(first).to_set());
    let s2 = view_chunks(second).filter(pred);
    if s2.contains(c) {
        view_chunks(second).lemma_filter_contains_rev(pred, c);
        let j = choose|j: int| 0 <= j < s2.len() && s2[j] == c;
        view_chunks(second).lemma_filter_pred(pred, j);
    }
    if chunk_in_view(second, c) && !chunk_in_view(first, c) {
        assert(!view_chunks(first).to_set().contains(c));
        let k = choose|k: int| 0 <= k < view_chunks(second).len() && view_chunks(second)[k] == c;
        view_chunks(second).lemma_filter_contains(pred, k);
    }
}

/// After a round of chunk management every chunk in view is loaded and
/// visited.
pub proof fn lemma_view_is_loaded_after_plan(visited: Set<(i32, i32)>, player: GridPosition, c: (i32, i32))
    requires
        chunk_in_view(player, c),
    ensures
        view_chunks(player).to_set().contains(c),
        (visited + view_chunks(player).to_set()).contains(c),
{
    lemma_view_chunks_cover(player);
}

/// Seed of the terrain noise for chunk `(cx, cy)`: the chunk's `x` plus
/// 65536 times its `y`, both taken as `u32`, wrapping around at `2^32`.
pub open spec fn terrain_seed(cx: i32, cy: i32) -> u32 {
    (((cx as u32) as int + ((cy as u32) as int * 65536) % 0x1_0000_0000) % 0x1_0000_0000) as u32
}

/// The terrain-noise seed of a chunk.
pub fn chunk_seed(chunk_x: i32, chunk_y: i32) -> (seed: u32)
    ensures
        seed == terrain_seed(chunk_x, chunk_y),
{
    (chunk_x as u32).wrapping_add((chunk_y as u32).wrapping_mul(65536))
}

/// The `k`-th tile of chunk `(cx, cy)`, for `k` from 0 to 255: rows of the
/// chunk from its lowest `y`, each row from its lowest `x`.
pub open spec fn chunk_tile(cx: i32, cy: i32, k: int) -> GridPosition {
    pos(cx * CHUNK_SIZE + k % 16, cy * CHUNK_SIZE + k / 16)
}

/// The tiles of chunk `(cx, cy)` lie on the `i32` grid.
pub open spec fn chunk_fits(cx: i32, cy: i32) -> bool {
    &&& i32::MIN <= cx * CHUNK_SIZE
    &&& cx * CHUNK_SIZE + 15 <= i32::MAX
    &&& i32::MIN <= cy * CHUNK_SIZE
    &&& cy * CHUNK_SIZE + 15 <= i32::MAX
}

/// The world tiles of a chunk, in generation order.
pub fn chunk_tiles(chunk_x: i32, chunk_y: i32) -> (ts: Vec<GridPosition>)
    requires
        chunk_fits(chunk_x, chunk_y),
    ensures
        ts.len() == 256,
        forall|k: int| 0 <= k < 256 ==> #[trigger] ts[k] == chunk_tile(chunk_x, chunk_y, k),
{
    let base_x = chunk_x * CHUNK_SIZE;
    let base_y = chunk_y * CHUNK_SIZE;
    let mut ts: Vec<GridPosition> = Vec::new();
    for local_y in 0..CHUNK_SIZE
        invariant
            base_x == chunk_x * CHUNK_SIZE,
            base_y == chunk_y * CHUNK_SIZE,
            chunk_fits(chunk_x, chunk_y),
            ts.len() == 16 * local_y,
            forall|k: int| 0 <= k < ts.len() ==> #[trigger] ts[k] == chunk_tile(chunk_x, chunk_y, k),
    {
        for local_x in 0..CHUNK_SIZE
            invariant
                base_x == chunk_x * CHUNK_SIZE,
                base_y == chunk_y * CHUNK_SIZE,
                chunk_fits(chunk_x, chunk_y),
                0 <= local_y < 16,
                ts.len() == 16 * local_y + local_x,
                forall|k: int| 0 <= k < ts.len() ==> #[trigger] ts[k] == chunk_tile(chunk_x, chunk_y, k),
        {
            let ghost k: int = ts.len() as int;
            ts.push(GridPosition { x: base_x + local_x, y: base_y + local_y });
            assert(k % 16 == local_x && k / 16 == local_y);
        }
    }
    ts
}

/// Every tile listed for a chunk lies in that chunk when the chunk is on the
/// non-negative side of both axes.
pub proof fn lemma_chunk_tiles_in_chunk(cx: i32, cy: i32, k: int)
    requires
        chunk_fits(cx, cy),
        0 <= cx,
        0 <= cy,
        0 <= k < 256,
    ensures
        chunk_index(chunk_tile(cx, cy, k).x as int) == cx,
        chunk_index(chunk_tile(cx, cy, k).y as int) == cy,
{
}

/// Where a new plant appears.
#[derive(Clone, Copy, Debug, PartialEq, Eq, Structural)]
pub struct PlantSpawn {
    pub position: GridPosition,
    pub chunk: ChunkPosition,
}

/// The chunk picked for a new plant by two random numbers: on each axis the
/// player's chunk moved by the number's remainder by five (taken in `0..5`)
/// less two, so one of the five chunks centred on the player's chunk.
pub open spec fn spawn_chunk_of(player: GridPosition, rx: i32, ry: i32) -> ChunkPosition {
    ChunkPosition {
        x: (chunk_index(player.x as int) + rx as int % 5 - VISIBLE_RADIUS) as i32,
        y: (chunk_index(player.y as int) + ry as int % 5 - VISIBLE_RADIUS) as i32,
    }
}

/// The tile of chunk `c` picked for a new plant by two random numbers: the
/// chunk's origin plus each number's remainder by sixteen, taken in `0..16`.
pub open spec fn spawn_tile_of(c: ChunkPosition, lx: i32, ly: i32) -> GridPosition {
    pos(c.x * CHUNK_SIZE + lx as int % 16, c.y * CHUNK_SIZE + ly as int % 16)
}

/// Every tile of chunk `c` lies on the `i32` grid.
pub open spec fn spawn_fits(c: ChunkPosition) -> bool {
    &&& fits_i32(c.x * CHUNK_SIZE)
    &&& fits_i32(c.y * CHUNK_SIZE)
    &&& fits_i32(c.x * CHUNK_SIZE + 15)
    &&& fits_i32(c.y * CHUNK_SIZE + 15)
}

/// Every tile of the chunks within two chunks of the player's chunk lies on
/// the `i32` grid.
pub open spec fn spawn_area_fits(player: GridPosition) -> bool {
    &&& fits_i32((chunk_index(player.x as int) - VISIBLE_RADIUS) * CHUNK_SIZE)
    &&& fits_i32((chunk_index(player.y as int) - VISIBLE_RADIUS) * CHUNK_SIZE)
    &&& fits_i32((chunk_index(player.x as int) + VISIBLE_RADIUS) * CHUNK_SIZE + 15)
    &&& fits_i32((chunk_index(player.y as int) + VISIBLE_RADIUS) * CHUNK_SIZE + 15)
}

/// Selects the plants of chunk `c`.
pub open spec fn in_chunk_of(c: ChunkPosition) -> spec_fn(ChunkPosition) -> bool {
    |p: ChunkPosition| p == c
}

/// Number of plants recorded in chunk `c`.
pub open spec fn plants_in(plant_chunks: Seq<ChunkPosition>, c: ChunkPosition) -> nat {
    plant_chunks.filter(in_chunk_of(c)).len()
}

/// Where a new plant appears, for the four random numbers drawn: in the chunk
/// picked by `rx` and `ry` at the tile picked by `lx` and `ly`, provided that
/// chunk has fewer than `max_per_chunk` plants and has been visited.
pub open spec fn plant_spawn_of(
    player: GridPosition,
    visited: Set<(i32, i32)>,
    plant_chunks: Seq<ChunkPosition>,
    max_per_chunk: usize,
    rx: i32,
    ry: i32,
    lx: i32,
    ly: i32,
) -> Option<PlantSpawn> {
    let c = spawn_chunk_of(player, rx, ry);
    if plants_in(plant_chunks, c) < max_per_chunk && visited.contains((c.x, c.y)) {
        Some(PlantSpawn { position: spawn_tile_of(c, lx, ly), chunk: c })
    } else {
        None
    }
}

/// Number of plants recorded in chunk `c`.
pub fn count_plants_in_chunk(plant_chunks: &[ChunkPosition], c: ChunkPosition) -> (n: usize)
    ensures
        n == plants_in(plant_chunks@, c),
{
    let len = plant_chunks.len();
    let mut n: usize = 0;
    for i in 0..len
        invariant
            len == plant_chunks@.len(),
            n == plant_chunks@.take(i as int).filter(in_chunk_of(c)).len(),
            n <= i,
    {
        let p = plant_chunks[i];
        assert(plant_chunks@.take(i + 1) =~= plant_chunks@.take(i as int).push(p));
        proof {
            plant_chunks@.take(i as int).lemma_filter_push(p, in_chunk_of(c));
        }
        if p == c {
            n = n + 1;
        }
    }
    assert(plant_chunks@.take(len as int) =~= plant_chunks@);
    n
}

/// The remainder of `v` by `d`, taken in `0..d`.
fn euclid_rem(v: i32, d: i32) -> (r: i32)
    requires
        d == 5 || d == 16,
    ensures
        r == v as int % d as int,
{
    let t = v % d;
    let ghost q = div_toward_zero(v as int, d as int);
    assert(t == rem_toward_zero(v as int, d as int));
    assert(v == q * d + t);
    assert(-d < t < d);
    if t < 0 {
        proof {
            lemma_fundamental_div_mod_converse(v as int, d as int, q - 1, t + d);
        }
        t + d
    } else {
        proof {
            lemma_fundamental_div_mod_converse(v as int, d as int, q as int, t as int);
        }
        t
    }
}

/// The chunk picked for a new plant.
pub fn spawn_chunk(player: GridPosition, rx: i32, ry: i32) -> (c: ChunkPosition)
    ensures
        c == spawn_chunk_of(player, rx, ry),
{
    let pcx = chunk_coord(player.x);
    let pcy = chunk_coord(player.y);
    let span = VISIBLE_RADIUS * 2 + 1;
    ChunkPosition {
        x: pcx + euclid_rem(rx, span) - VISIBLE_RADIUS,
        y: pcy + euclid_rem(ry, span) - VISIBLE_RADIUS,
    }
}

/// The tile of chunk `c` picked for a new plant.
pub fn spawn_tile(c: ChunkPosition, lx: i32, ly: i32) -> (p: GridPosition)
    requires
        spawn_fits(c),
    ensures
        p == spawn_tile_of(c, lx, ly),
{
    let local_x = euclid_rem(lx, CHUNK_SIZE);
    let local_y = euclid_rem(ly, CHUNK_SIZE);
    GridPosition { x: c.x * CHUNK_SIZE + local_x, y: c.y * CHUNK_SIZE + local_y }
}

/// Where a new plant appears, if anywhere, for the given random numbers.
pub fn plan_plant_spawn(
    player: GridPosition,
    cache: &ChunkCache,
    plant_chunks: &[ChunkPosition],
    max_per_chunk: usize,
    rx: i32,
    ry: i32,
    lx: i32,
    ly: i32,
) -> (s: Option<PlantSpawn>)
    requires
        spawn_fits(spawn_chunk_of(player, rx, ry)),
    ensures
        s == plant_spawn_of(player, cache.visited_chunks(), plant_chunks@, max_per_chunk, rx, ry, lx, ly),
{
    let c = spawn_chunk(player, rx, ry);
    let current = count_plants_in_chunk(plant_chunks, c);
    if current < max_per_chunk && cache.is_visited((c.x, c.y)) {
        Some(PlantSpawn { position: spawn_tile(c, lx, ly), chunk: c })
    } else {
        None
    }
}

/// Where a new plant appears, if anywhere, drawing the random numbers: two for
/// the chunk, and two more for the tile when a plant is placed.
pub fn choose_plant_spawn(
    player: GridPosition,
    cache: &ChunkCache,
    plant_chunks: &[ChunkPosition],
    max_per_chunk: usize,
) -> (s: Option<PlantSpawn>)
    requires
        spawn_area_fits(player),
    ensures
        exists|rx: i32, ry: i32, lx: i32, ly: i32|
            s == #[trigger] plant_spawn_of(player, cache.visited_chunks(), plant_chunks@, max_per_chunk, rx, ry, lx, ly),
{
    let rx = random_i32();
    let ry = random_i32();
    let c = spawn_chunk(player, rx, ry);
    proof {
        lemma_spawn_near_player(player, rx, ry, 0, 0);
    }
    let current = count_plants_in_chunk(plant_chunks, c);
    if current < max_per_chunk && cache.is_visited((c.x, c.y)) {
        let lx = random_i32();
        let ly = random_i32();
        let p = spawn_tile(c, lx, ly);
        let s = Some(PlantSpawn { position: p, chunk: c });
        assert(s == plant_spawn_of(player, cache.visited_chunks(), plant_chunks@, max_per_chunk, rx, ry, lx, ly));
        s
    } else {
        assert(plant_spawn_of(player, cache.visited_chunks(), plant_chunks@, max_per_chunk, rx, ry, 0, 0) is None);
        None
    }
}

/// Plants appear in the chunks around the player: the chunk picked lies
/// within two chunks of the player's chunk on each axis, and the tile picked
/// lies inside that chunk.
pub proof fn lemma_spawn_near_player(player: GridPosition, rx: i32, ry: i32, lx: i32, ly: i32)
    ensures
        ({
            let c = spawn_chunk_of(player, rx, ry);
            let t = spawn_tile_of(c, lx, ly);
            &&& chunk_index(player.x as int) - VISIBLE_RADIUS <= c.x <= chunk_index(player.x as int) + VISIBLE_RADIUS
            &&& chunk_index(player.y as int) - VISIBLE_RADIUS <= c.y <= chunk_index(player.y as int) + VISIBLE_RADIUS
            &&& spawn_fits(c) ==> 0 <= t.x - c.x * CHUNK_SIZE < CHUNK_SIZE
            &&& spawn_fits(c) ==> 0 <= t.y - c.y * CHUNK_SIZE < CHUNK_SIZE
        }),
{
}

/// The spawner respects the density limit and the visited chunks: a plant is
/// only ever placed in a visited chunk holding fewer plants than the limit,
/// the chunk picked by the first two random numbers.
pub proof fn lemma_spawn_respects_density(
    player: GridPosition,
    visited: Set<(i32, i32)>,
    plant_chunks: Seq<ChunkPosition>,
    max_per_chunk: usize,
    rx: i32,
    ry: i32,
    lx: i32,
    ly: i32,
)
    ensures
        plant_spawn_of(player, visited, plant_chunks, max_per_chunk, rx, ry, lx, ly) matches Some(s) ==> {
            &&& plants_in(plant_chunks, s.chunk) < max_per_chunk
            &&& visited.contains((s.chunk.x, s.chunk.y))
            &&& s.chunk == spawn_chunk_of(player, rx, ry)
        },
{
}

/// The spawner never pushes a chunk over the density limit: when every chunk
/// holds at most `max_per_chunk` plants, every chunk still does once the new
/// plant is recorded in its chunk.
pub proof fn lemma_spawn_keeps_density(
    player: GridPosition,
    visited: Set<(i32, i32)>,
    plant_chunks: Seq<ChunkPosition>,
    max_per_chunk: usize,
    rx: i32,
    ry: i32,
    lx: i32,
    ly: i32,
)
    requires
        forall|d: ChunkPosition| #[trigger] plants_in(plant_chunks, d) <= max_per_chunk,
    ensures
        plant_spawn_of(player, visited, plant_chunks, max_per_chunk, rx, ry, lx, ly) matches Some(s) ==> forall|d: ChunkPosition|
            #[trigger] plants_in(plant_chunks.push(s.chunk), d) <= max_per_chunk,
{
    if let Some(s) = plant_spawn_of(player, visited, plant_chunks, max_per_chunk, rx, ry, lx, ly) {
        assert forall|d: ChunkPosition| #[trigger] plants_in(plant_chunks.push(s.chunk), d) <= max_per_chunk by {
            plant_chunks.lemma_filter_push(s.chunk, in_chunk_of(d));
            assert(plants_in(plant_chunks, d) <= max_per_chunk);
        }
    }
}

} // verus!
