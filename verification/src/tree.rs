//! A tree: a single-cell static feature that blocks movement.

use vstd::prelude::*;

use crate::bounding_box::BoundingBox;
use crate::collision_map::CollisionMap;
use crate::frame::{Cell, Color, Frame};
use crate::tile::{lemma_tile_walkable, Tile};

verus! {

pub struct Tree {
    pub x: i32,
    pub y: i32,
}

impl Tree {
    /// Paint the tree's glyph at its world position.
    pub fn draw(&self, frame: &mut Frame)
        requires
            old(frame).wf(),
        ensures
            final(frame).wf(),
            final(frame).same_shape(*old(frame)),
            old(frame).world_write_hits(self.x as int, self.y as int) ==> final(frame).cells()
                == old(frame).cells().update(
                old(frame).world_index(self.x as int, self.y as int),
                (Cell { ch: 'T', fg: Some(Color::Green), bg: None }),
            ),
            !old(frame).world_write_hits(self.x as int, self.y as int) ==> final(frame).cells()
                == old(frame).cells(),
    {
        frame.set_world_cell(self.x, self.y, Cell { ch: 'T', fg: Some(Color::Green), bg: None });
    }

    /// Claim the tree's cell in the collision map as non-walkable.
    pub fn static_map(&self, collision_map: &mut CollisionMap)
        ensures
            final(collision_map)@ == old(collision_map)@.insert(
                (self.x, self.y),
                Tile::spec_new(false),
            ),
            !final(collision_map)@[(self.x, self.y)].spec_walkable(),
    {
        collision_map.insert((self.x, self.y), Tile::new(false));
        proof {
            lemma_tile_walkable(false);
        }
    }

    /// The tree's world-space footprint: a degenerate (zero-area) box at the
    /// tree's cell, which still counts as visible when it lies strictly
    /// inside the camera's rectangle.
    pub fn bound_box(&self) -> (r: BoundingBox)
        ensures
            r.left == self.x && r.right == self.x && r.top == self.y && r.bottom == self.y,
    {
        BoundingBox { left: self.x, right: self.x, top: self.y, bottom: self.y }
    }
}

} // verus!
