//! The closed set of world features the game loop works through: terrain is
//! built from them in declaration order, and each tick culls and draws them
//! in that same order.

use vstd::prelude::*;

use crate::bounding_box::{boxes_intersect, BoundingBox};
use crate::camera::Camera;
use crate::collision_map::CollisionMap;
use crate::frame::{lemma_row_major_in_bounds, lemma_row_major_injective, Cell, Color, Frame};
use crate::goblin::Goblin;
use crate::pathfinding::{path_bottom, path_left, path_right, path_top};
use crate::room::Room;
use crate::tile::Tile;
use crate::tree::Tree;

verus! {

pub enum Entity {
    Room(Room),
    Tree(Tree),
    Goblin(Goblin),
}

impl Entity {
    /// The coordinate bounds a feature needs so that none of its arithmetic
    /// leaves the machine range.
    pub open spec fn in_range(self) -> bool {
        match self {
            Entity::Room(room) => room.in_range(),
            Entity::Tree(tree) => true,
            Entity::Goblin(goblin) => {
                &&& goblin.heart_row_in_range()
                &&& goblin.x < i32::MAX
                &&& goblin.y < i32::MAX
                &&& forall|i: int|
                    0 <= i < goblin.path_points().len() ==> (#[trigger] goblin.path_points()[i]).x
                        < i32::MAX && goblin.path_points()[i].y < i32::MAX
            },
        }
    }

    /// The tile this feature claims at a world coordinate, if any. Dynamic
    /// entities claim no terrain.
    pub open spec fn claim_at(self, wx: int, wy: int) -> Option<Tile> {
        match self {
            Entity::Room(room) => match room.room_cell(wx, wy) {
                Some(g) => Some(Tile::spec_new(g == '+')),
                None => None,
            },
            Entity::Tree(tree) => if wx == tree.x && wy == tree.y {
                Some(Tile::spec_new(false))
            } else {
                None
            },
            Entity::Goblin(_) => None,
        }
    }

    /// The cell this feature's draw leaves at a world coordinate, if any.
    pub open spec fn glyph_at(self, wx: int, wy: int) -> Option<Cell> {
        match self {
            Entity::Room(room) => match room.room_cell(wx, wy) {
                Some(g) => Some(Cell { ch: g, fg: None, bg: None }),
                None => None,
            },
            Entity::Tree(tree) => if wx == tree.x && wy == tree.y {
                Some(Cell { ch: 'T', fg: Some(Color::Green), bg: None })
            } else {
                None
            },
            Entity::Goblin(goblin) => goblin.goblin_glyph_at(wx, wy),
        }
    }

    /// The feature's world-space footprint.
    pub open spec fn spec_bound_box(self) -> BoundingBox {
        match self {
            Entity::Room(room) => BoundingBox {
                left: room.x,
                right: (room.x + room.width) as i32,
                top: room.y,
                bottom: (room.y + room.height) as i32,
            },
            Entity::Tree(tree) => BoundingBox {
                left: tree.x,
                right: tree.x,
                top: tree.y,
                bottom: tree.y,
            },
            Entity::Goblin(goblin) => if goblin.debug_mode {
                BoundingBox {
                    left: path_left(
                        (crate::pathfinding::Point { x: goblin.x, y: goblin.y }),
                        goblin.path_points(),
                    ) as i32,
                    right: path_right(
                        (crate::pathfinding::Point { x: goblin.x, y: goblin.y }),
                        goblin.path_points(),
                    ) as i32,
                    top: path_top(
                        (crate::pathfinding::Point { x: goblin.x, y: goblin.y }),
                        goblin.path_points(),
                    ) as i32,
                    bottom: path_bottom(
                        (crate::pathfinding::Point { x: goblin.x, y: goblin.y }),
                        goblin.path_points(),
                    ) as i32,
                }
            } else {
                BoundingBox {
                    left: goblin.x,
                    right: (goblin.x + 1) as i32,
                    top: goblin.y,
                    bottom: (goblin.y + 1) as i32,
                }
            },
        }
    }

    /// Whether the camera's footprint overlaps this feature's.
    pub open spec fn visible(self, camera: Camera) -> bool {
        boxes_intersect(camera.camera_view, self.spec_bound_box())
    }

    pub fn bound_box(&self) -> (r: BoundingBox)
        requires
            self.in_range(),
        ensures
            r == self.spec_bound_box(),
    {
        match self {
            Entity::Room(room) => room.bound_box(),
            Entity::Tree(tree) => tree.bound_box(),
            Entity::Goblin(goblin) => goblin.bound_box(),
        }
    }

    /// Claim this feature's cells in the collision map; a feature claims a
    /// coordinate exactly when `claim_at` says so, with that tile, and leaves
    /// every other coordinate alone.
    pub fn static_map(&self, collision_map: &mut CollisionMap)
        requires
            self.in_range(),
        ensures
            forall|co: (i32, i32)|
                #[trigger] final(collision_map)@.dom().contains(co) == (old(collision_map)@.dom().contains(co) || self.claim_at(co.0 as int, co.1 as int) is Some),
            forall|co: (i32, i32)|
                self.claim_at(co.0 as int, co.1 as int) matches Some(t) ==> #[trigger] final(collision_map)@[co] == t,
            forall|co: (i32, i32)|
                self.claim_at(co.0 as int, co.1 as int) is None && old(collision_map)@.dom().contains(co) ==> #[trigger] final(collision_map)@[co] == old(collision_map)@[co],
    {
        match self {
            Entity::Room(room) => room.static_map(collision_map),
            Entity::Tree(tree) => tree.static_map(collision_map),
            Entity::Goblin(_) => {
                // A goblin is not terrain.
            },
        }
    }

    /// Paint this feature into the frame; exactly the cells `glyph_at` names,
    /// projected into the game region, change to those glyphs.
    pub fn draw(&self, frame: &mut Frame)
        requires
            self.in_range(),
            old(frame).wf(),
        ensures
            final(frame).wf(),
            final(frame).same_shape(*old(frame)),
            forall|r: int, c: int|
                0 <= r < old(frame).spec_height() && 0 <= c < old(frame).spec_width()
                    ==> #[trigger] final(frame).cell_at(r, c) == {
                    let wx = old(frame).spec_cam_x() + c;
                    let wy = old(frame).spec_cam_y() + r;
                    if r < old(frame).game_rows() && self.glyph_at(wx, wy) is Some {
                        self.glyph_at(wx, wy)->0
                    } else {
                        old(frame).cell_at(r, c)
                    }
                },
    {
        let ghost fw = old(frame).spec_width();
        let ghost fh = old(frame).spec_height();
        let ghost cx = old(frame).spec_cam_x();
        let ghost cy = old(frame).spec_cam_y();
        match self {
            Entity::Room(room) => room.draw(frame),
            Entity::Tree(tree) => {
                let ghost pre = *frame;
                tree.draw(frame);
                proof {
                    assert forall|r: int, c: int| 0 <= r < fh && 0 <= c < fw implies #[trigger]
                    frame.cell_at(r, c) == {
                        let wx = cx + c;
                        let wy = cy + r;
                        if r < pre.game_rows() && self.glyph_at(wx, wy) is Some {
                            self.glyph_at(wx, wy)->0
                        } else {
                            pre.cell_at(r, c)
                        }
                    } by {
                        lemma_row_major_in_bounds(fw, fh, r, c);
                        if pre.world_write_hits(tree.x as int, tree.y as int) {
                            let r0 = tree.y - cy;
                            let c0 = tree.x - cx;
                            lemma_row_major_in_bounds(fw, fh, r0, c0);
                            if !(r == r0 && c == c0) {
                                lemma_row_major_injective(fw, r, c, r0, c0);
                            }
                        }
                    }
                }
            },
            Entity::Goblin(goblin) => goblin.draw(frame),
        }
    }
}

/// The claim that stands after all features have been applied in order: the
/// claim of the latest feature to claim the coordinate.
pub open spec fn claims_after(features: Seq<Entity>, wx: int, wy: int) -> Option<Tile>
    decreases features.len(),
{
    if features.len() == 0 {
        None
    } else {
        match features.last().claim_at(wx, wy) {
            Some(t) => Some(t),
            None => claims_after(features.drop_last(), wx, wy),
        }
    }
}

/// The cell the draw phase leaves at a world coordinate: the glyph of the
/// latest visible feature to paint it, if any.
pub open spec fn phase_cell(features: Seq<Entity>, camera: Camera, wx: int, wy: int) -> Option<
    Cell,
>
    decreases features.len(),
{
    if features.len() == 0 {
        None
    } else {
        let e = features.last();
        if e.visible(camera) && e.glyph_at(wx, wy) is Some {
            e.glyph_at(wx, wy)
        } else {
            phase_cell(features.drop_last(), camera, wx, wy)
        }
    }
}

/// Build the static collision map from the features in declaration order:
/// when two features claim the same coordinate, the later-declared one's tile
/// stands.
pub fn build_collision_map(features: &Vec<Entity>) -> (m: CollisionMap)
    requires
        forall|i: int| 0 <= i < features@.len() ==> (#[trigger] features@[i]).in_range(),
    ensures
        forall|co: (i32, i32)|
            #[trigger] m@.dom().contains(co) == (claims_after(
                features@,
                co.0 as int,
                co.1 as int,
            ) is Some),
        forall|co: (i32, i32)|
            claims_after(features@, co.0 as int, co.1 as int) matches Some(t) ==> #[trigger] m@[co]
                == t,
{
    let mut m = CollisionMap::new();
    let mut i: usize = 0;
    proof {
        assert(features@.take(0) =~= Seq::<Entity>::empty());
    }
    while i < features.len()
        invariant
            i <= features@.len(),
            forall|j: int| 0 <= j < features@.len() ==> (#[trigger] features@[j]).in_range(),
            forall|co: (i32, i32)|
                #[trigger] m@.dom().contains(co) == (claims_after(
                    features@.take(i as int),
                    co.0 as int,
                    co.1 as int,
                ) is Some),
            forall|co: (i32, i32)|
                claims_after(features@.take(i as int), co.0 as int, co.1 as int) matches Some(t)
                    ==> #[trigger] m@[co] == t,
        decreases features@.len() - i,
    {
        proof {
            assert(features@.take(i + 1).drop_last() =~= features@.take(i as int));
            assert(features@.take(i + 1).last() == features@[i as int]);
        }
        features[i].static_map(&mut m);
        i = i + 1;
    }
    proof {
        assert(features@.take(features@.len() as int) =~= features@);
    }
    m
}

/// Draw every feature whose footprint overlaps the camera's, in declaration
/// order, so that the latest visible feature to paint a cell wins.
pub fn draw_phase(features: &Vec<Entity>, camera: &Camera, frame: &mut Frame)
    requires
        old(frame).wf(),
        forall|i: int| 0 <= i < features@.len() ==> (#[trigger] features@[i]).in_range(),
    ensures
        final(frame).wf(),
        final(frame).same_shape(*old(frame)),
        forall|r: int, c: int|
            0 <= r < old(frame).spec_height() && 0 <= c < old(frame).spec_width()
                ==> #[trigger] final(frame).cell_at(r, c) == {
                let wx = old(frame).spec_cam_x() + c;
                let wy = old(frame).spec_cam_y() + r;
                if r < old(frame).game_rows() && phase_cell(features@, *camera, wx, wy) is Some {
                    phase_cell(features@, *camera, wx, wy)->0
                } else {
                    old(frame).cell_at(r, c)
                }
            },
{
    let ghost fw = old(frame).spec_width();
    let ghost fh = old(frame).spec_height();
    let ghost cx = old(frame).spec_cam_x();
    let ghost cy = old(frame).spec_cam_y();
    let mut i: usize = 0;
    proof {
        assert(features@.take(0) =~= Seq::<Entity>::empty());
    }
    while i < features.len()
        invariant
            i <= features@.len(),
            forall|j: int| 0 <= j < features@.len() ==> (#[trigger] features@[j]).in_range(),
            frame.wf(),
            frame.same_shape(*old(frame)),
            fw == old(frame).spec_width(),
            fh == old(frame).spec_height(),
            cx == old(frame).spec_cam_x(),
            cy == old(frame).spec_cam_y(),
            forall|r: int, c: int|
                0 <= r < fh && 0 <= c < fw ==> #[trigger] frame.cell_at(r, c) == {
                    let wx = cx + c;
                    let wy = cy + r;
                    if r < old(frame).game_rows() && phase_cell(
                        features@.take(i as int),
                        *camera,
                        wx,
                        wy,
                    ) is Some {
                        phase_cell(features@.take(i as int), *camera, wx, wy)->0
                    } else {
                        old(frame).cell_at(r, c)
                    }
                },
        decreases features@.len() - i,
    {
        proof {
            assert(features@.take(i + 1).drop_last() =~= features@.take(i as int));
            assert(features@.take(i + 1).last() == features@[i as int]);
        }
        let entity = &features[i];
        let ghost pre = *frame;
        let bbox = entity.bound_box();
        let culled_in = camera.camera_view.intersects(&bbox);
        if culled_in {
            entity.draw(frame);
        }
        proof {
            assert(culled_in == features@[i as int].visible(*camera));
            assert forall|r: int, c: int| 0 <= r < fh && 0 <= c < fw implies #[trigger]
            frame.cell_at(r, c) == {
                let wx = cx + c;
                let wy = cy + r;
                if r < old(frame).game_rows() && phase_cell(
                    features@.take(i + 1),
                    *camera,
                    wx,
                    wy,
                ) is Some {
                    phase_cell(features@.take(i + 1), *camera, wx, wy)->0
                } else {
                    old(frame).cell_at(r, c)
                }
            } by {
                let wx = cx + c;
                let wy = cy + r;
                if culled_in {
                    assert(frame.cell_at(r, c) == (if r < pre.game_rows()
                        && features@[i as int].glyph_at(wx, wy) is Some {
                        features@[i as int].glyph_at(wx, wy)->0
                    } else {
                        pre.cell_at(r, c)
                    }));
                }
            }
        }
        i = i + 1;
    }
    proof {
        assert(features@.take(features@.len() as int) =~= features@);
    }
}

} // verus!
