//! The set of tiles that friends stand on, consulted and updated while friends
//! move one after another so that no two of them end up on the same tile.
use std::collections::HashSet;
use vstd::prelude::*;
use crate::grid::{GridPosition, cell_key, key_of, lemma_cell_key_injective, lemma_cell_key_bounds};

verus! {

broadcast use vstd::std_specs::hash::group_hash_axioms;

/// A set of occupied tiles.
pub struct Occupancy {
    cells: HashSet<i64>,
}

/// Key under which a tile is stored.
pub open spec fn tile_key(p: GridPosition) -> i64 {
    cell_key(p.x as int, p.y as int) as i64
}

impl View for Occupancy {
    type V = Set<GridPosition>;

    closed spec fn view(&self) -> Set<GridPosition> {
        Set::new(|p: GridPosition| self.cells@.contains(tile_key(p)))
    }
}

/// Equal keys mean equal tiles.
proof fn lemma_tile_key_injective(p: GridPosition, q: GridPosition)
    ensures
        tile_key(p) == tile_key(q) <==> p == q,
{
    lemma_cell_key_injective(p.x, p.y, q.x, q.y);
    lemma_cell_key_bounds(p.x, p.y);
    lemma_cell_key_bounds(q.x, q.y);
}

impl Occupancy {
    /// An empty set of tiles.
    pub fn new() -> (o: Occupancy)
        ensures
            o@ == Set::<GridPosition>::empty(),
    {
        let o = Occupancy { cells: HashSet::new() };
        assert(o@ =~= Set::<GridPosition>::empty());
        o
    }

    /// Whether a friend stands on the tile.
    pub fn contains(&self, p: GridPosition) -> (b: bool)
        ensures
            b == self@.contains(p),
    {
        let k = key_of(p.x, p.y);
        self.cells.contains(&k)
    }

    /// Marks the tile as occupied.
    pub fn insert(&mut self, p: GridPosition)
        ensures
            final(self)@ == old(self)@.insert(p),
    {
        let k = key_of(p.x, p.y);
        self.cells.insert(k);
        assert forall|q: GridPosition| #[trigger] final(self)@.contains(q) <==> old(self)@.insert(p).contains(q) by {
            lemma_tile_key_injective(p, q);
        }
        assert(final(self)@ =~= old(self)@.insert(p));
    }

    /// Marks the tile as free.
    pub fn remove(&mut self, p: GridPosition)
        ensures
            final(self)@ == old(self)@.remove(p),
    {
        let k = key_of(p.x, p.y);
        self.cells.remove(&k);
        assert forall|q: GridPosition| #[trigger] final(self)@.contains(q) <==> old(self)@.remove(p).contains(q) by {
            lemma_tile_key_injective(p, q);
        }
        assert(final(self)@ =~= old(self)@.remove(p));
    }

    /// The set of tiles on which the given friends stand.
    pub fn from_positions(positions: &[GridPosition]) -> (o: Occupancy)
        ensures
            forall|p: GridPosition| o@.contains(p) <==> positions@.contains(p),
    {
        let mut o = Occupancy::new();
        let n = positions.len();
        for i in 0..n
            invariant
                n == positions@.len(),
                forall|p: GridPosition| o@.contains(p) <==> positions@.take(i as int).contains(p),
        {
            let p = positions[i];
            o.insert(p);
            assert(positions@.take(i + 1) =~= positions@.take(i as int).push(p));
            assert forall|q: GridPosition| o@.contains(q) <==> #[trigger] positions@.take(i + 1).contains(q) by {
                if positions@.take(i as int).contains(q) {
                    let j = choose|j: int| 0 <= j < i && positions@.take(i as int)[j] == q;
                    assert(positions@.take(i + 1)[j] == q);
                }
                if q == p {
                    assert(positions@.take(i + 1)[i as int] == q);
                }
            }
        }
        assert(positions@.take(n as int) =~= positions@);
        o
    }
}

} // verus!
