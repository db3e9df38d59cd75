//! The static collision map: a sparse record of tiles whose walkability
//! deviates from the world default. A coordinate with no entry is walkable by
//! convention. The map is built once from static geometry, in declaration
//! order, with later features overwriting earlier ones, and is read-only
//! afterwards.

use vstd::prelude::*;

use crate::tile::{Coord, Tile};

verus! {

/// The mapping that a sequence of insertions denotes: entries are applied in
/// order, so a later entry for the same coordinate overwrites an earlier one.
pub open spec fn map_of(entries: Seq<(Coord, Tile)>) -> Map<Coord, Tile>
    decreases entries.len(),
{
    if entries.len() == 0 {
        Map::empty()
    } else {
        map_of(entries.drop_last()).insert(entries.last().0, entries.last().1)
    }
}

/// The walkability convention: a coordinate missing from the map is walkable.
pub open spec fn walkable_at(m: Map<Coord, Tile>, c: Coord) -> bool {
    !m.dom().contains(c) || m[c].spec_walkable()
}

/// Sparse record of non-default tiles, keyed by world coordinate.
pub struct CollisionMap {
    entries: Vec<(Coord, Tile)>,
}

impl View for CollisionMap {
    type V = Map<Coord, Tile>;

    closed spec fn view(&self) -> Map<Coord, Tile> {
        map_of(self.entries@)
    }
}

impl CollisionMap {
    pub fn new() -> (r: Self)
        ensures
            r@ == Map::<Coord, Tile>::empty(),
    {
        CollisionMap { entries: Vec::new() }
    }

    /// Record `tile` at `coord`, overwriting whatever an earlier feature put
    /// there (last write wins).
    pub fn insert(&mut self, coord: Coord, tile: Tile)
        ensures
            final(self)@ == old(self)@.insert(coord, tile),
    {
        self.entries.push((coord, tile));
        proof {
            assert(self.entries@.drop_last() =~= old(self).entries@);
        }
    }

    /// Look the coordinate up; a miss is meaningful data (default terrain),
    /// not an error.
    pub fn get(&self, coord: Coord) -> (r: Option<Tile>)
        ensures
            r == if self@.dom().contains(coord) {
                Some(self@[coord])
            } else {
                None::<Tile>
            },
    {
        let n = self.entries.len();
        let mut i: usize = n;
        proof {
            assert(self.entries@.take(i as int) =~= self.entries@);
        }
        while i > 0
            invariant
                i <= self.entries@.len(),
                map_of(self.entries@).dom().contains(coord) == map_of(
                    self.entries@.take(i as int),
                ).dom().contains(coord),
                map_of(self.entries@).dom().contains(coord) ==> map_of(self.entries@)[coord]
                    == map_of(self.entries@.take(i as int))[coord],
            decreases i,
        {
            let e = self.entries[i - 1];
            proof {
                assert(self.entries@.take(i as int).drop_last() =~= self.entries@.take(i - 1));
                assert(self.entries@.take(i as int).last() == e);
            }
            if e.0.0 == coord.0 && e.0.1 == coord.1 {
                return Some(e.1);
            }
            i = i - 1;
        }
        proof {
            assert(self.entries@.take(0) =~= Seq::<(Coord, Tile)>::empty());
        }
        None
    }

    /// Whether an agent may occupy `coord` under the map's convention.
    pub fn walkable(&self, coord: Coord) -> (r: bool)
        ensures
            r == walkable_at(self@, coord),
    {
        match self.get(coord) {
            Some(tile) => tile.is_walkable(),
            None => true,
        }
    }
}

/// Last write wins: when two features claim the same coordinate, the map is as
/// if only the later feature had claimed it.
pub proof fn lemma_later_feature_wins(m: Map<Coord, Tile>, c: Coord, first: Tile, second: Tile)
    ensures
        m.insert(c, first).insert(c, second) == m.insert(c, second),
{
    assert(m.insert(c, first).insert(c, second) =~= m.insert(c, second));
}

} // verus!
