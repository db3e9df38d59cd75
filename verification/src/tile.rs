//! Tiles of the static world and the coordinates that address them.

use vstd::prelude::*;

verus! {

/// A coordinate in the unbounded world grid: `(x, y)`.
pub type Coord = (i32, i32);

/// A static terrain tile. Its only attribute is walkability.
#[derive(Clone, Copy, Debug)]
pub struct Tile {
    is_walkable: bool,
}

impl Tile {
    /// Whether an agent may occupy a cell holding this tile.
    pub closed spec fn spec_walkable(self) -> bool {
        self.is_walkable
    }

    /// The tile with the given walkability.
    pub closed spec fn spec_new(is_walkable: bool) -> Tile {
        Tile { is_walkable }
    }

    pub fn new(is_walkable: bool) -> (r: Self)
        ensures
            r == Tile::spec_new(is_walkable),
            r.spec_walkable() == is_walkable,
    {
        Tile { is_walkable }
    }

    pub fn is_walkable(&self) -> (r: bool)
        ensures
            r == self.spec_walkable(),
    {
        self.is_walkable
    }
}

/// The tile built for a walkability has that walkability.
pub proof fn lemma_tile_walkable(is_walkable: bool)
    ensures
        Tile::spec_new(is_walkable).spec_walkable() == is_walkable,
{
}

} // verus!
