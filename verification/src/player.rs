//! The player: a world position and hit points, with movement validated
//! against the static collision map.

use vstd::prelude::*;

use crate::collision_map::{walkable_at, CollisionMap};
use crate::health::Health;

verus! {

pub struct Player {
    pub x: i32,
    pub y: i32,
    pub health: Health,
}

impl Player {
    pub fn new(x: i32, y: i32) -> (r: Self)
        ensures
            r.x == x,
            r.y == y,
            r.health.spec_current() == 100,
            r.health.spec_max() == 100,
    {
        Player { x, y, health: Health::new(100) }
    }

    /// Try to step by `(dx, dy)`. The step happens, and `true` is returned,
    /// exactly when the target coordinate is walkable under the static map's
    /// convention (a missing entry is walkable).
    pub fn attempt_move(&mut self, dx: i32, dy: i32, static_map: &CollisionMap) -> (r: bool)
        requires
            i32::MIN <= old(self).x + dx <= i32::MAX,
            i32::MIN <= old(self).y + dy <= i32::MAX,
        ensures
            final(self).health == old(self).health,
            r == walkable_at(
                static_map@,
                (((old(self).x + dx) as i32), ((old(self).y + dy) as i32)),
            ),
            r ==> final(self).x == old(self).x + dx && final(self).y == old(self).y + dy,
            !r ==> final(self).x == old(self).x && final(self).y == old(self).y,
    {
        let new_x = self.x + dx;
        let new_y = self.y + dy;

        // Only non-default tiles are stored: a coordinate missing from the map
        // is walkable.
        if let Some(tile) = static_map.get((new_x, new_y)) {
            if !tile.is_walkable() {
                return false;
            }
        }

        self.x = new_x;
        self.y = new_y;

        true
    }
}

} // verus!
