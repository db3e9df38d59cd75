//! A rectangular room: a static feature whose border is walls, pierced by
//! doors, drawn with `#` and `+` glyphs and claimed in the collision map.

use vstd::prelude::*;

use crate::bounding_box::BoundingBox;
use crate::collision_map::CollisionMap;
use crate::frame::{lemma_row_major_in_bounds, lemma_row_major_injective, Cell, Frame};
use crate::tile::{lemma_tile_walkable, Tile};

verus! {

pub struct Room {
    pub width: u16,
    pub height: u16,
    pub x: i32,
    pub y: i32,
}

impl Room {
    /// The room's extent stays within the coordinate space and is not
    /// degenerate at its very edge.
    pub open spec fn in_range(self) -> bool {
        &&& self.x + self.width <= i32::MAX
        &&& self.y + self.height <= i32::MAX
        &&& i32::MIN < self.x + self.width
        &&& i32::MIN < self.y + self.height
    }

    /// Whether a world coordinate lies within the room's rectangle.
    pub open spec fn contains(self, wx: int, wy: int) -> bool {
        self.x <= wx < self.x + self.width && self.y <= wy < self.y + self.height
    }

    /// Whether a cell lies on the room's border.
    pub open spec fn is_wall_spec(self, row: int, col: int) -> bool {
        row == self.y || row == self.y + self.height - 1 || col == self.x || col == self.x
            + self.width - 1
    }

    /// Whether a cell is one of the four doors. Note the asymmetry of the
    /// comparisons: the first door rule compares the row against the room's
    /// x, not its y.
    pub open spec fn is_door_spec(self, row: int, col: int) -> bool {
        let middle_x = self.x + self.width / 2;
        let middle_y = self.y + self.height / 2;
        ||| (row == self.x && col == middle_x)
        ||| (row == middle_y && col == self.y)
        ||| (row == self.y + self.height - 1 && col == middle_x)
        ||| (row == middle_y && col == self.x + self.width - 1)
    }

    /// What the room puts at a world coordinate: a door glyph, a wall glyph,
    /// or nothing (outside the room, or on its open floor).
    pub open spec fn room_cell(self, wx: int, wy: int) -> Option<char> {
        if self.contains(wx, wy) {
            if self.is_door_spec(wy, wx) {
                Some('+')
            } else if self.is_wall_spec(wy, wx) {
                Some('#')
            } else {
                None
            }
        } else {
            None
        }
    }

    fn is_wall(&self, row: i32, col: i32) -> (r: bool)
        requires
            self.in_range(),
        ensures
            r == self.is_wall_spec(row as int, col as int),
    {
        row == self.y || row == (self.y + self.height as i32 - 1) || col == self.x || col == (
        self.x + self.width as i32 - 1)
    }

    fn is_door(&self, row: i32, col: i32) -> (r: bool)
        requires
            self.in_range(),
        ensures
            r == self.is_door_spec(row as int, col as int),
    {
        let middle_x = self.x + (self.width / 2) as i32;
        let middle_y = self.y + (self.height / 2) as i32;

        if row == self.x && col == middle_x {
            return true;
        } else if row == middle_y && col == self.y {
            return true;
        } else if row == (self.y + self.height as i32 - 1) && col == middle_x {
            return true;
        } else if row == middle_y && col == (self.x + self.width as i32 - 1) {
            return true;
        }

        false
    }

    /// Claim the room's border in the collision map: doors walkable, walls
    /// not; the open floor claims nothing.
    pub fn static_map(&self, collision_map: &mut CollisionMap)
        requires
            self.in_range(),
        ensures
            forall|co: (i32, i32)|
                #[trigger] final(collision_map)@.dom().contains(co) == (old(collision_map)@.dom().contains(co) || self.room_cell(co.0 as int, co.1 as int) is Some),
            forall|co: (i32, i32)|
                self.room_cell(co.0 as int, co.1 as int) matches Some(g) ==> #[trigger] final(collision_map)@[co] == Tile::spec_new(g == '+'),
            forall|co: (i32, i32)|
                self.room_cell(co.0 as int, co.1 as int) is None && old(collision_map)@.dom().contains(co) ==> final(collision_map)@[co] == old(collision_map)@[co],
            forall|co: (i32, i32)|
                self.room_cell(co.0 as int, co.1 as int) matches Some(g) ==> #[trigger] final(collision_map)@[co].spec_walkable() == (g == '+'),
    {
        proof {
            lemma_tile_walkable(true);
            lemma_tile_walkable(false);
        }
        let row_end = self.y + self.height as i32;
        let col_end = self.x + self.width as i32;
        let mut row = self.y;
        while row < row_end
            invariant
                self.in_range(),
                row_end == self.y + self.height,
                col_end == self.x + self.width,
                self.y <= row <= row_end,
                forall|co: (i32, i32)|
                    #[trigger] collision_map@.dom().contains(co) == (old(collision_map)@.dom().contains(co) || (self.room_cell(co.0 as int, co.1 as int) is Some
                        && co.1 < row)),
                forall|co: (i32, i32)|
                    self.room_cell(co.0 as int, co.1 as int) matches Some(g) ==> (co.1 < row
                        ==> #[trigger] collision_map@[co] == Tile::spec_new(g == '+')),
                forall|co: (i32, i32)|
                    (self.room_cell(co.0 as int, co.1 as int) is None || co.1 >= row) && old(collision_map)@.dom().contains(co) ==> collision_map@[co] == old(collision_map)@[co],
            decreases row_end - row,
        {
            let mut col = self.x;
            while col < col_end
                invariant
                    self.in_range(),
                    row_end == self.y + self.height,
                    col_end == self.x + self.width,
                    self.y <= row < row_end,
                    self.x <= col <= col_end,
                    forall|co: (i32, i32)|
                        #[trigger] collision_map@.dom().contains(co) == (old(collision_map)@.dom().contains(co) || (self.room_cell(co.0 as int, co.1 as int) is Some
                            && (co.1 < row || (co.1 == row && co.0 < col)))),
                    forall|co: (i32, i32)|
                        self.room_cell(co.0 as int, co.1 as int) matches Some(g) ==> (co.1 < row
                            || (co.1 == row && co.0 < col) ==> #[trigger] collision_map@[co]
                            == Tile::spec_new(g == '+')),
                    forall|co: (i32, i32)|
                        (self.room_cell(co.0 as int, co.1 as int) is None || co.1 > row || (co.1
                            == row && co.0 >= col)) && old(collision_map)@.dom().contains(co)
                            ==> collision_map@[co] == old(collision_map)@[co],
                decreases col_end - col,
            {
                let is_wall = self.is_wall(row, col);
                let is_door = self.is_door(row, col);

                if is_door {
                    collision_map.insert((col, row), Tile::new(true));
                } else if is_wall {
                    collision_map.insert((col, row), Tile::new(false));
                }
                col = col + 1;
            }
            row = row + 1;
        }
    }

    /// Paint the room's border into the frame: `+` for doors, `#` for walls;
    /// the open floor leaves the frame untouched.
    pub fn draw(&self, frame: &mut Frame)
        requires
            self.in_range(),
            old(frame).wf(),
        ensures
            final(frame).wf(),
            final(frame).same_shape(*old(frame)),
            forall|r: int, c: int|
                0 <= r < old(frame).spec_height() && 0 <= c < old(frame).spec_width()
                    ==> #[trigger] final(frame).cell_at(r, c) == {
                    let wx = old(frame).spec_cam_x() + c;
                    let wy = old(frame).spec_cam_y() + r;
                    if r < old(frame).game_rows() && self.room_cell(wx, wy) is Some {
                        (Cell { ch: self.room_cell(wx, wy)->0, fg: None, bg: None })
                    } else {
                        old(frame).cell_at(r, c)
                    }
                },
    {
        let ghost fw = old(frame).spec_width();
        let ghost fh = old(frame).spec_height();
        let ghost cx = old(frame).spec_cam_x();
        let ghost cy = old(frame).spec_cam_y();

        let row_end = self.y + self.height as i32;
        let col_end = self.x + self.width as i32;
        let mut row = self.y;
        while row < row_end
            invariant
                self.in_range(),
                row_end == self.y + self.height,
                col_end == self.x + self.width,
                self.y <= row <= row_end,
                frame.wf(),
                frame.same_shape(*old(frame)),
                fw == old(frame).spec_width(),
                fh == old(frame).spec_height(),
                cx == old(frame).spec_cam_x(),
                cy == old(frame).spec_cam_y(),
                forall|r: int, c: int|
                    0 <= r < fh && 0 <= c < fw ==> #[trigger] frame.cell_at(r, c) == {
                        let wx = cx + c;
                        let wy = cy + r;
                        if r < old(frame).game_rows() && self.room_cell(wx, wy) is Some && wy
                            < row {
                            (Cell { ch: self.room_cell(wx, wy)->0, fg: None, bg: None })
                        } else {
                            old(frame).cell_at(r, c)
                        }
                    },
            decreases row_end - row,
        {
            let mut col = self.x;
            while col < col_end
                invariant
                    self.in_range(),
                    row_end == self.y + self.height,
                    col_end == self.x + self.width,
                    self.y <= row < row_end,
                    self.x <= col <= col_end,
                    frame.wf(),
                    frame.same_shape(*old(frame)),
                    fw == old(frame).spec_width(),
                    fh == old(frame).spec_height(),
                    cx == old(frame).spec_cam_x(),
                    cy == old(frame).spec_cam_y(),
                    forall|r: int, c: int|
                        0 <= r < fh && 0 <= c < fw ==> #[trigger] frame.cell_at(r, c) == {
                            let wx = cx + c;
                            let wy = cy + r;
                            if r < old(frame).game_rows() && self.room_cell(wx, wy) is Some && (wy
                                < row || (wy == row && wx < col)) {
                                (Cell { ch: self.room_cell(wx, wy)->0, fg: None, bg: None })
                            } else {
                                old(frame).cell_at(r, c)
                            }
                        },
                decreases col_end - col,
            {
                let is_wall = self.is_wall(row, col);
                let is_door = self.is_door(row, col);

                let ghost pre = *frame;
                if is_door {
                    frame.set_world_char(col, row, '+');
                } else if is_wall {
                    frame.set_world_char(col, row, '#');
                }
                proof {
                    assert forall|r: int, c: int| 0 <= r < fh && 0 <= c < fw implies #[trigger]
                    frame.cell_at(r, c) == {
                        let wx = cx + c;
                        let wy = cy + r;
                        if r < old(frame).game_rows() && self.room_cell(wx, wy) is Some && (wy
                            < row || (wy == row && wx < col + 1)) {
                            (Cell { ch: self.room_cell(wx, wy)->0, fg: None, bg: None })
                        } else {
                            old(frame).cell_at(r, c)
                        }
                    } by {
                        lemma_row_major_in_bounds(fw, fh, r, c);
                        let wx = cx + c;
                        let wy = cy + r;
                        if (is_door || is_wall) && pre.world_write_hits(col as int, row as int) {
                            let r0 = row - cy;
                            let c0 = col - cx;
                            lemma_row_major_in_bounds(fw, fh, r0, c0);
                            if r == r0 && c == c0 {
                                assert(frame.cells()[r0 * fw + c0] == (Cell {
                                    ch: self.room_cell(wx, wy)->0,
                                    fg: None,
                                    bg: None,
                                }));
                            } else {
                                lemma_row_major_injective(fw, r, c, r0, c0);
                                assert(frame.cell_at(r, c) == pre.cell_at(r, c));
                            }
                        } else {
                            assert(frame.cell_at(r, c) == pre.cell_at(r, c));
                        }
                    }
                }
                col = col + 1;
            }
            row = row + 1;
        }
    }

    /// The room's world-space footprint.
    pub fn bound_box(&self) -> (r: BoundingBox)
        requires
            self.in_range(),
        ensures
            r.left == self.x && r.right == self.x + self.width && r.top == self.y && r.bottom
                == self.y + self.height,
    {
        BoundingBox {
            left: self.x,
            right: self.x + self.width as i32,
            top: self.y,
            bottom: self.y + self.height as i32,
        }
    }
}

} // verus!
