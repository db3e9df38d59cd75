//! The render buffer: a dense grid of screen cells sized to the terminal
//! viewport. World-space writes are projected through the camera offset and
//! clipped to the game region (the viewport minus a reserved bottom UI strip);
//! screen-space writes are clipped to the whole buffer.

use vstd::prelude::*;

verus! {

use vstd::string::StrSliceExecFns;

/// The full viewport area fits comfortably in the machine's word size.
proof fn lemma_dims_fit(w: int, h: int)
    by (nonlinear_arith)
    requires
        0 <= w <= 0xFFFF,
        0 <= h <= 0xFFFF,
    ensures
        0 <= w * h <= 0xFFFE0001,
{
}

/// A terminal color a cell may carry.
#[derive(Clone, Copy, PartialEq, Eq, Structural, Debug)]
pub enum Color {
    White,
    Green,
    Yellow,
    Blue,
}

/// One screen cell: a glyph and optional foreground/background colors.
#[derive(Clone, Copy, PartialEq, Eq, Structural, Debug)]
pub struct Cell {
    pub ch: char,
    pub fg: Option<Color>,
    pub bg: Option<Color>,
}

/// The cell a cleared buffer holds everywhere.
pub open spec fn blank_cell() -> Cell {
    Cell { ch: ' ', fg: None, bg: None }
}

/// Row-major indices of distinct in-row positions are distinct.
pub proof fn lemma_row_major_injective(w: int, r1: int, c1: int, r2: int, c2: int)
    by (nonlinear_arith)
    requires
        0 <= c1 < w,
        0 <= c2 < w,
        r1 != r2 || c1 != c2,
        0 <= r1,
        0 <= r2,
    ensures
        r1 * w + c1 != r2 * w + c2,
{
}

/// Rows are laid out one after another: a position no further than the end of
/// an earlier row comes no later than any position from a later row on.
pub proof fn lemma_row_major_order(w: int, r1: int, c1: int, r2: int, c2: int)
    by (nonlinear_arith)
    requires
        0 <= c1 <= w,
        r1 < r2,
        0 <= c2,
    ensures
        r1 * w + c1 <= r2 * w + c2,
{
}

/// A row-major index of an in-bounds position is within the buffer, and the
/// buffer of a terminal-sized viewport fits in the machine's word size.
pub proof fn lemma_row_major_in_bounds(w: int, h: int, row: int, col: int)
    by (nonlinear_arith)
    requires
        0 <= row < h,
        0 <= col < w,
        w <= 0xFFFF,
        h <= 0xFFFF,
    ensures
        0 <= row * w + col < h * w,
        h * w <= 0xFFFE0001,
{
}

/// The dense cell buffer for one frame, with the camera offset its world-space
/// writes are projected through.
pub struct Frame {
    width: u16,
    height: u16,
    buffer: Vec<Cell>,
    cam_x: i32,
    cam_y: i32,
}

impl Frame {
    pub closed spec fn spec_width(self) -> int {
        self.width as int
    }

    pub closed spec fn spec_height(self) -> int {
        self.height as int
    }

    pub closed spec fn spec_cam_x(self) -> int {
        self.cam_x as int
    }

    pub closed spec fn spec_cam_y(self) -> int {
        self.cam_y as int
    }

    /// The buffer's cells, row-major.
    pub closed spec fn cells(self) -> Seq<Cell> {
        self.buffer@
    }

    /// The cell at a screen position.
    pub open spec fn cell_at(self, row: int, col: int) -> Cell {
        self.cells()[row * self.spec_width() + col]
    }

    /// The buffer is exactly `width x height` cells, for a terminal-sized
    /// viewport.
    pub open spec fn wf(self) -> bool {
        &&& self.cells().len() == self.spec_height() * self.spec_width()
        &&& 0 <= self.spec_width() <= 0xFFFF
        &&& 0 <= self.spec_height() <= 0xFFFF
    }

    /// The camera offset and dimensions are unchanged.
    pub open spec fn same_shape(self, other: Frame) -> bool {
        self.spec_width() == other.spec_width() && self.spec_height() == other.spec_height()
            && self.spec_cam_x() == other.spec_cam_x() && self.spec_cam_y() == other.spec_cam_y()
    }

    /// How many rows at the top of the viewport belong to the game region; the
    /// remaining bottom strip (a third of the height, rounded up) is reserved
    /// for UI and never receives world-space writes.
    pub open spec fn game_rows(self) -> int {
        self.spec_height() - (self.spec_height() + 2) / 3
    }

    /// Whether a world coordinate projects into the game region of the buffer.
    pub open spec fn world_write_hits(self, world_x: int, world_y: int) -> bool {
        &&& 0 <= world_x - self.spec_cam_x() < self.spec_width()
        &&& 0 <= world_y - self.spec_cam_y() < self.game_rows()
    }

    /// The buffer index a world coordinate projects to.
    pub open spec fn world_index(self, world_x: int, world_y: int) -> int {
        (world_y - self.spec_cam_y()) * self.spec_width() + (world_x - self.spec_cam_x())
    }

    pub fn width(&self) -> (r: u16)
        ensures
            r == self.spec_width(),
    {
        self.width
    }

    pub fn height(&self) -> (r: u16)
        ensures
            r == self.spec_height(),
    {
        self.height
    }

    /// A fresh, blank frame for a viewport of the given size, projecting world
    /// writes through the given camera position.
    pub fn new(cam_x: i32, cam_y: i32, width: u16, height: u16) -> (r: Self)
        ensures
            r.wf(),
            r.spec_width() == width,
            r.spec_height() == height,
            r.spec_cam_x() == cam_x,
            r.spec_cam_y() == cam_y,
            forall|i: int| 0 <= i < r.cells().len() ==> r.cells()[i] == blank_cell(),
    {
        proof {
            lemma_dims_fit(height as int, width as int);
        }
        let n = (height as usize) * (width as usize);
        let mut buffer: Vec<Cell> = Vec::new();
        while buffer.len() < n
            invariant
                buffer@.len() <= n,
                forall|i: int| 0 <= i < buffer@.len() ==> buffer@[i] == blank_cell(),
            decreases n - buffer@.len(),
        {
            buffer.push(Cell { ch: ' ', fg: None, bg: None });
        }
        Frame { width, height, buffer, cam_x, cam_y }
    }

    /// Write a cell at a screen position; writes outside the buffer are
    /// silently dropped.
    pub fn set(&mut self, x: u16, y: u16, ch: char, fg: Option<Color>, bg: Option<Color>)
        requires
            old(self).wf(),
        ensures
            final(self).wf(),
            final(self).same_shape(*old(self)),
            x < old(self).spec_width() && y < old(self).spec_height() ==> final(self).cells()
                == old(self).cells().update(
                y as int * old(self).spec_width() + x as int,
                (Cell { ch, fg, bg }),
            ),
            !(x < old(self).spec_width() && y < old(self).spec_height()) ==> final(self).cells()
                == old(self).cells(),
    {
        if x < self.width && y < self.height {
            proof {
                lemma_row_major_in_bounds(
                    self.spec_width(),
                    self.spec_height(),
                    y as int,
                    x as int,
                );
            }
            let index = (y as usize) * (self.width as usize) + (x as usize);
            self.buffer[index] = Cell { ch, fg, bg };
        }
    }

    /// Write a bare glyph at a screen position.
    pub fn set_char(&mut self, x: u16, y: u16, ch: char)
        requires
            old(self).wf(),
        ensures
            final(self).wf(),
            final(self).same_shape(*old(self)),
            x < old(self).spec_width() && y < old(self).spec_height() ==> final(self).cells()
                == old(self).cells().update(
                y as int * old(self).spec_width() + x as int,
                (Cell { ch, fg: None, bg: None }),
            ),
            !(x < old(self).spec_width() && y < old(self).spec_height()) ==> final(self).cells()
                == old(self).cells(),
    {
        self.set(x, y, ch, None, None);
    }

    /// Read the cell at a screen position, or `None` outside the buffer.
    pub fn get_char(&self, x: u16, y: u16) -> (r: Option<Cell>)
        requires
            self.wf(),
        ensures
            r == if x < self.spec_width() && y < self.spec_height() {
                Some(self.cells()[y as int * self.spec_width() + x as int])
            } else {
                None::<Cell>
            },
    {
        if x < self.width && y < self.height {
            proof {
                lemma_row_major_in_bounds(
                    self.spec_width(),
                    self.spec_height(),
                    y as int,
                    x as int,
                );
            }
            let index = (y as usize) * (self.width as usize) + (x as usize);
            Some(self.buffer[index])
        } else {
            None
        }
    }

    /// Write a cell at a world position, projected through the camera offset.
    /// The write lands only if the projection falls inside the buffer and
    /// inside the game region; otherwise it is silently dropped, so world
    /// content can never overlap the reserved UI strip.
    pub fn set_world_cell(&mut self, world_x: i32, world_y: i32, cell: Cell)
        requires
            old(self).wf(),
        ensures
            final(self).wf(),
            final(self).same_shape(*old(self)),
            old(self).world_write_hits(world_x as int, world_y as int) ==> final(self).cells()
                == old(self).cells().update(
                old(self).world_index(world_x as int, world_y as int),
                cell,
            ),
            !old(self).world_write_hits(world_x as int, world_y as int) ==> final(self).cells()
                == old(self).cells(),
    {
        let screen_x = world_x as i64 - self.cam_x as i64;
        let screen_y = world_y as i64 - self.cam_y as i64;

        let ui_rows = (self.height as usize + 2) / 3;
        let game_height = self.height as usize - ui_rows;

        if screen_x < 0 || screen_x >= self.width as i64 {
            return ;
        }
        if screen_y < 0 || screen_y >= game_height as i64 {
            return ;
        }

        proof {
            lemma_row_major_in_bounds(
                self.spec_width(),
                self.spec_height(),
                screen_y as int,
                screen_x as int,
            );
        }
        let index = (screen_y as usize) * (self.width as usize) + (screen_x as usize);
        self.buffer[index] = cell;
    }

    /// Write a bare glyph at a world position, with the same projection and
    /// clipping as `set_world_cell`.
    pub fn set_world_char(&mut self, world_x: i32, world_y: i32, ch: char)
        requires
            old(self).wf(),
        ensures
            final(self).wf(),
            final(self).same_shape(*old(self)),
            old(self).world_write_hits(world_x as int, world_y as int) ==> final(self).cells()
                == old(self).cells().update(
                old(self).world_index(world_x as int, world_y as int),
                (Cell { ch, fg: None, bg: None }),
            ),
            !old(self).world_write_hits(world_x as int, world_y as int) ==> final(self).cells()
                == old(self).cells(),
    {
        self.set_world_cell(world_x, world_y, Cell { ch, fg: None, bg: None });
    }

    /// Reset every cell in place to a blank glyph with no color, without
    /// reallocating the buffer.
    pub fn clear(&mut self)
        requires
            old(self).wf(),
        ensures
            final(self).wf(),
            final(self).same_shape(*old(self)),
            final(self).cells().len() == old(self).cells().len(),
            forall|i: int| 0 <= i < final(self).cells().len() ==> final(self).cells()[i]
                == blank_cell(),
    {
        let n = self.buffer.len();
        let mut i: usize = 0;
        while i < n
            invariant
                n == self.buffer@.len(),
                i <= n,
                self.width == old(self).width,
                self.height == old(self).height,
                self.cam_x == old(self).cam_x,
                self.cam_y == old(self).cam_y,
                forall|j: int| 0 <= j < i ==> self.buffer@[j] == blank_cell(),
            decreases n - i,
        {
            self.buffer[i] = Cell { ch: ' ', fg: None, bg: None };
            i = i + 1;
        }
    }

    /// Where a text write in a row stops: at the end of the text or at the
    /// right edge of the buffer, whichever comes first.
    pub open spec fn text_end(self, x: int, n: int) -> int {
        if x + n < self.spec_width() {
            x + n
        } else {
            self.spec_width()
        }
    }

    /// Write a text left to right starting at a screen position, clipped to
    /// the right edge of the buffer.
    pub fn draw_text(&mut self, x: u16, y: u16, text: &str, fg: Option<Color>, bg: Option<Color>)
        requires
            old(self).wf(),
        ensures
            final(self).wf(),
            final(self).same_shape(*old(self)),
            final(self).cells().len() == old(self).cells().len(),
            y < old(self).spec_height() ==> forall|j: int|
                0 <= j < text@.len() && x + j < old(self).spec_width() ==> final(self).cells()[y
                    as int * old(self).spec_width() + x as int + j] == (Cell {
                    ch: text@[j],
                    fg,
                    bg,
                }),
            forall|k: int|
                0 <= k < old(self).cells().len() && (y >= old(self).spec_height() || k < y as int
                    * old(self).spec_width() + x as int || k >= y as int * old(self).spec_width()
                    + old(self).text_end(x as int, text@.len() as int)) ==> final(self).cells()[k]
                    == old(self).cells()[k],
    {
        let n = text.unicode_len();
        let rem: u16 = if x < self.width {
            self.width - x
        } else {
            0
        };
        let mut i: usize = 0;
        while i < n && i < rem as usize
            invariant
                self.wf(),
                self.same_shape(*old(self)),
                self.cells().len() == old(self).cells().len(),
                n == text@.len(),
                rem as int == if x < old(self).spec_width() {
                    old(self).spec_width() - x
                } else {
                    0
                },
                i <= n,
                i <= rem,
                y < old(self).spec_height() ==> forall|j: int|
                    0 <= j < i ==> self.cells()[y as int * old(self).spec_width() + x as int + j]
                        == (Cell { ch: text@[j], fg, bg }),
                forall|k: int|
                    0 <= k < old(self).cells().len() && (y >= old(self).spec_height() || k < y
                        as int * old(self).spec_width() + x as int || k >= y as int * old(
                        self,
                    ).spec_width() + x as int + i) ==> self.cells()[k] == old(self).cells()[k],
            decreases n - i,
        {
            let ch = text.get_char(i);
            let col: u16 = x + (i as u16);
            let ghost prev = self.cells();
            proof {
                if y < old(self).spec_height() {
                    lemma_row_major_in_bounds(
                        old(self).spec_width(),
                        old(self).spec_height(),
                        y as int,
                        x as int + i,
                    );
                }
            }
            self.set(col, y, ch, fg, bg);
            proof {
                let w = old(self).spec_width();
                let h = old(self).spec_height();
                if y < h {
                    assert(self.cells() == prev.update(y as int * w + x as int + i, Cell { ch, fg, bg }));
                    assert forall|j: int| 0 <= j <= i implies self.cells()[y as int * w + x as int
                        + j] == (Cell { ch: text@[j], fg, bg }) by {
                        lemma_row_major_in_bounds(w, h, y as int, x as int + j);
                        if j < i {
                            assert(prev[y as int * w + x as int + j] == (Cell {
                                ch: text@[j],
                                fg,
                                bg,
                            }));
                        }
                    }
                }
            }
            i = i + 1;
        }
        proof {
            let w = old(self).spec_width();
            let base = y as int * w + x as int;
            if y < old(self).spec_height() {
                assert forall|j: int|
                    0 <= j < text@.len() && x + j < w implies self.cells()[base + j] == (Cell {
                    ch: text@[j],
                    fg,
                    bg,
                }) by {
                    assert(j < rem as int);
                    assert(j < i);
                }
            }
            let stop = old(self).text_end(x as int, text@.len() as int);
            assert forall|k: int|
                0 <= k < old(self).cells().len() && (y >= old(self).spec_height() || k < base || k
                    >= y as int * w + stop) implies self.cells()[k] == old(self).cells()[k] by {
                if x < w {
                    assert(stop == x + i);
                } else {
                    assert(i == 0);
                }
            }
        }
    }
}

} // verus!
