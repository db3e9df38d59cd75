//! The goblin: an AI agent that paths toward the player over the static
//! collision map, one search per tick once its move cooldown has elapsed.

use vstd::prelude::*;

use crate::bounding_box::BoundingBox;
use crate::collision_map::{walkable_at, CollisionMap};
use crate::frame::{
    lemma_row_major_in_bounds, lemma_row_major_injective, Cell, Color, Frame,
};
use crate::health::Health;
use crate::pathfinding::{
    adjacent, bounding_box_for_path, find_path, manhattan, opt_points, path_bottom, path_left,
    path_right, path_top, Point,
};
use crate::player::Player;

verus! {

pub struct Goblin {
    pub x: i32,
    pub y: i32,
    pub health: Health,
    pub move_cooldown: u32,
    pub current_path: Option<Vec<Point>>,
    pub debug_mode: bool,
}

impl Goblin {
    /// Ticks left before the goblin may move again.
    pub open spec fn spec_cooldown(self) -> int {
        self.move_cooldown as int
    }

    /// The path the goblin is following, if any.
    pub open spec fn spec_path(self) -> Option<Seq<Point>> {
        match self.current_path {
            Some(v) => Some(v@),
            None => None,
        }
    }

    /// The points of the current path, or none.
    pub open spec fn path_points(self) -> Seq<Point> {
        match self.spec_path() {
            Some(p) => p,
            None => Seq::empty(),
        }
    }

    pub fn new(x: i32, y: i32) -> (r: Self)
        ensures
            r.x == x,
            r.y == y,
            r.spec_cooldown() == 0,
            r.spec_path() is None,
            r.debug_mode == true,
            r.health.spec_current() == 10,
            r.health.spec_max() == 10,
    {
        Goblin {
            x,
            y,
            move_cooldown: 0,
            current_path: None,
            debug_mode: true,
            health: Health::new(10),
        }
    }

    /// Claw the player for one point of damage.
    pub fn attack(&self, player: &mut Player)
        requires
            old(player).health.spec_current() > i32::MIN,
        ensures
            final(player).x == old(player).x,
            final(player).y == old(player).y,
            final(player).health.spec_max() == old(player).health.spec_max(),
            final(player).health.spec_current() == if old(player).health.spec_current() - 1 < 0 {
                0
            } else {
                old(player).health.spec_current() - 1
            },
    {
        proof {
            player.health.lemma_bounds();
        }
        player.health.take_damage(1);
    }

    /// One AI tick. While the cooldown runs, it only counts down. Otherwise
    /// the goblin recomputes its path to the player over the static map; a
    /// kept path leads from the goblin's cell to the player's, one step at a
    /// time, over walkable cells, never revisiting a cell, and is dropped as
    /// soon as it is trivial or its next step would be the player's own cell.
    /// An empty result merges two cases the bounded search cannot tell a
    /// caller apart: the player is unreachable, or the search ran out of its
    /// node budget first.
    pub fn update(&mut self, static_map: &CollisionMap, player: &Player)
        ensures
            final(self).x == old(self).x,
            final(self).y == old(self).y,
            final(self).health == old(self).health,
            final(self).debug_mode == old(self).debug_mode,
            old(self).spec_cooldown() > 0 ==> final(self).spec_cooldown() == old(
                self,
            ).spec_cooldown() - 1 && final(self).spec_path() == old(self).spec_path(),
            old(self).spec_cooldown() == 0 ==> final(self).spec_cooldown() == 0,
            old(self).spec_cooldown() == 0 ==> (final(self).spec_path() matches Some(p) ==> {
                &&& p.len() > 1
                &&& p[0] == (Point { x: old(self).x, y: old(self).y })
                &&& p.last() == (Point { x: player.x, y: player.y })
                &&& p[1] != (Point { x: player.x, y: player.y })
                &&& p.len() > manhattan(
                    (Point { x: old(self).x, y: old(self).y }),
                    (Point { x: player.x, y: player.y }),
                )
                &&& forall|i: int| 0 <= i < p.len() - 1 ==> adjacent(#[trigger] p[i], p[i + 1])
                &&& forall|i: int, j: int| 0 <= i < j < p.len() ==> p[i] != p[j]
                &&& forall|i: int|
                    1 <= i < p.len() ==> walkable_at(
                        static_map@,
                        ((#[trigger] p[i]).x, p[i].y),
                    )
            }),
    {
        if self.move_cooldown > 0 {
            self.move_cooldown = self.move_cooldown - 1;
            return ;
        }

        if self.current_path.is_none() || self.move_cooldown == 0 {
            let start = Point { x: self.x, y: self.y };
            let goal = Point { x: player.x, y: player.y };

            let is_walkable = |p: Point| -> (b: bool)
                ensures
                    b == walkable_at(static_map@, (p.x, p.y)),
                { static_map.walkable((p.x, p.y)) };

            self.current_path = find_path(start, goal, is_walkable);

            proof {
                match self.spec_path() {
                    Some(p) => {
                        assert forall|i: int| 1 <= i < p.len() implies walkable_at(
                            static_map@,
                            ((#[trigger] p[i]).x, p[i].y),
                        ) by {
                            assert(call_ensures(is_walkable, (p[i],), true));
                        }
                    },
                    None => {},
                }
            }
        }

        // Follow the path only if it leads anywhere beyond the current cell.
        let mut drop_path = false;
        match &self.current_path {
            Some(path) => {
                if path.len() > 1 {
                    // The player occupies the next step: stop moving.
                    if path[1].x == player.x && path[1].y == player.y {
                        drop_path = true;
                    }
                } else {
                    // The path's end is reached.
                    drop_path = true;
                }
            },
            None => {},
        }
        if drop_path {
            self.current_path = None;
        }
    }

    /// The leftmost cell of the health bar, centered on the goblin.
    pub open spec fn heart_row_x(self) -> int {
        self.x - self.health.spec_max() / 2
    }

    /// The heart glyph of the health bar at a world coordinate, if the bar
    /// covers it: filled hearts for the current hit points, hollow ones up to
    /// the maximum, on the row just above the goblin.
    pub open spec fn heart_at(self, wx: int, wy: int) -> Option<char> {
        if wy == self.y - 1 && self.heart_row_x() <= wx < self.heart_row_x()
            + self.health.spec_max() {
            if wx - self.heart_row_x() < self.health.spec_current() {
                Some('\u{2665}')
            } else {
                Some('\u{2661}')
            }
        } else {
            None
        }
    }

    /// Whether a world coordinate carries a debug dot: an interior point of
    /// the current path (neither its first nor its last element), while debug
    /// drawing is on.
    pub open spec fn is_dot_point(self, wx: int, wy: int) -> bool {
        &&& self.debug_mode
        &&& match self.spec_path() {
            Some(p) => exists|t: int|
                1 <= t < p.len() - 1 && (#[trigger] p[t]).x == wx && p[t].y == wy,
            None => false,
        }
    }

    /// The cell the goblin's draw leaves at a world coordinate, if any: debug
    /// dots paint over the health bar, which paints over the goblin's glyph.
    pub open spec fn goblin_glyph_at(self, wx: int, wy: int) -> Option<Cell> {
        if self.is_dot_point(wx, wy) {
            Some(Cell { ch: '\u{00b7}', fg: Some(Color::Yellow), bg: None })
        } else {
            match self.heart_at(wx, wy) {
                Some(h) => Some(Cell { ch: h, fg: Some(Color::Blue), bg: None }),
                None => if wx == self.x && wy == self.y {
                    Some(Cell { ch: 'G', fg: None, bg: None })
                } else {
                    None
                },
            }
        }
    }

    /// The coordinate bounds the health bar needs.
    pub open spec fn heart_row_in_range(self) -> bool {
        &&& 0 <= self.health.spec_current() <= self.health.spec_max()
        &&& self.heart_row_x() >= i32::MIN
        &&& self.heart_row_x() + self.health.spec_max() <= i32::MAX
        &&& self.y > i32::MIN
    }

    /// Paint the health bar: one heart per possible hit point, centered on
    /// the row above the goblin, filled up to the current hit points.
    pub fn draw_health(&self, frame: &mut Frame)
        requires
            old(frame).wf(),
            self.heart_row_in_range(),
        ensures
            final(frame).wf(),
            final(frame).same_shape(*old(frame)),
            forall|r: int, c: int|
                0 <= r < old(frame).spec_height() && 0 <= c < old(frame).spec_width()
                    ==> #[trigger] final(frame).cell_at(r, c) == {
                    let wx = old(frame).spec_cam_x() + c;
                    let wy = old(frame).spec_cam_y() + r;
                    if r < old(frame).game_rows() && self.heart_at(wx, wy) is Some {
                        (Cell { ch: self.heart_at(wx, wy)->0, fg: Some(Color::Blue), bg: None })
                    } else {
                        old(frame).cell_at(r, c)
                    }
                },
    {
        let ghost fw = old(frame).spec_width();
        let ghost fh = old(frame).spec_height();
        let ghost cx = old(frame).spec_cam_x();
        let ghost cy = old(frame).spec_cam_y();

        let max_hearts = self.health.get_max();
        let filled_hearts = self.health.get_current();

        let health_bar_x = self.x - (max_hearts / 2);
        let health_bar_y = self.y - 1;

        let mut i: i32 = 0;
        while i < max_hearts
            invariant
                0 <= i <= max_hearts,
                max_hearts == self.health.spec_max(),
                filled_hearts == self.health.spec_current(),
                self.heart_row_in_range(),
                health_bar_x == self.heart_row_x(),
                health_bar_y == self.y - 1,
                frame.wf(),
                frame.same_shape(*old(frame)),
                fw == old(frame).spec_width(),
                fh == old(frame).spec_height(),
                cx == old(frame).spec_cam_x(),
                cy == old(frame).spec_cam_y(),
                forall|r: int, c: int|
                    0 <= r < fh && 0 <= c < fw ==> #[trigger] frame.cell_at(r, c) == {
                        let wx = cx + c;
                        let wy = cy + r;
                        if r < old(frame).game_rows() && self.heart_at(wx, wy) is Some && wx
                            < health_bar_x + i {
                            (Cell { ch: self.heart_at(wx, wy)->0, fg: Some(Color::Blue), bg: None })
                        } else {
                            old(frame).cell_at(r, c)
                        }
                    },
            decreases max_hearts - i,
        {
            let ch = if i < filled_hearts {
                '\u{2665}'
            } else {
                '\u{2661}'
            };
            let ghost pre = *frame;
            frame.set_world_cell(
                health_bar_x + i,
                health_bar_y,
                Cell { ch, fg: Some(Color::Blue), bg: None },
            );
            proof {
                assert forall|r: int, c: int| 0 <= r < fh && 0 <= c < fw implies #[trigger]
                frame.cell_at(r, c) == {
                    let wx = cx + c;
                    let wy = cy + r;
                    if r < old(frame).game_rows() && self.heart_at(wx, wy) is Some && wx
                        < health_bar_x + i + 1 {
                        (Cell { ch: self.heart_at(wx, wy)->0, fg: Some(Color::Blue), bg: None })
                    } else {
                        old(frame).cell_at(r, c)
                    }
                } by {
                    lemma_row_major_in_bounds(fw, fh, r, c);
                    if pre.world_write_hits(health_bar_x + i, health_bar_y as int) {
                        let r0 = health_bar_y - cy;
                        let c0 = health_bar_x + i - cx;
                        lemma_row_major_in_bounds(fw, fh, r0, c0);
                        if r == r0 && c == c0 {
                            assert(frame.cells()[r0 * fw + c0] == (Cell {
                                ch,
                                fg: Some(Color::Blue),
                                bg: None,
                            }));
                        } else {
                            lemma_row_major_injective(fw, r, c, r0, c0);
                            assert(frame.cell_at(r, c) == pre.cell_at(r, c));
                        }
                    } else {
                        assert(frame.cell_at(r, c) == pre.cell_at(r, c));
                    }
                }
            }
            i = i + 1;
        }
    }

    /// Draw the goblin: its glyph, its health bar on the row above, and,
    /// while debug drawing is on, a dot on each interior point of its current
    /// path.
    pub fn draw(&self, frame: &mut Frame)
        requires
            old(frame).wf(),
            self.heart_row_in_range(),
        ensures
            final(frame).wf(),
            final(frame).same_shape(*old(frame)),
            forall|r: int, c: int|
                0 <= r < old(frame).spec_height() && 0 <= c < old(frame).spec_width()
                    ==> #[trigger] final(frame).cell_at(r, c) == {
                    let wx = old(frame).spec_cam_x() + c;
                    let wy = old(frame).spec_cam_y() + r;
                    if r < old(frame).game_rows() && self.goblin_glyph_at(wx, wy) is Some {
                        self.goblin_glyph_at(wx, wy)->0
                    } else {
                        old(frame).cell_at(r, c)
                    }
                },
    {
        let ghost fw = old(frame).spec_width();
        let ghost fh = old(frame).spec_height();
        let ghost cx = old(frame).spec_cam_x();
        let ghost cy = old(frame).spec_cam_y();

        let ghost s0 = *frame;
        frame.set_world_char(self.x, self.y, 'G');
        proof {
            assert forall|r: int, c: int| 0 <= r < fh && 0 <= c < fw implies #[trigger]
            frame.cell_at(r, c) == {
                let wx = cx + c;
                let wy = cy + r;
                if r < s0.game_rows() && wx == self.x && wy == self.y {
                    (Cell { ch: 'G', fg: None, bg: None })
                } else {
                    s0.cell_at(r, c)
                }
            } by {
                lemma_row_major_in_bounds(fw, fh, r, c);
                if s0.world_write_hits(self.x as int, self.y as int) {
                    let r0 = self.y - cy;
                    let c0 = self.x - cx;
                    lemma_row_major_in_bounds(fw, fh, r0, c0);
                    if !(r == r0 && c == c0) {
                        lemma_row_major_injective(fw, r, c, r0, c0);
                    }
                }
            }
        }

        let ghost s1 = *frame;
        self.draw_health(frame);
        let ghost s2 = *frame;

        if self.debug_mode {
            match &self.current_path {
                Some(path) => {
                    let n = path.len();
                    if n >= 2 {
                        let mut k: usize = 1;
                        while k < n - 1
                            invariant
                                n == path@.len(),
                                n >= 2,
                                1 <= k <= n - 1,
                                self.debug_mode,
                                self.spec_path() == Some(path@),
                                frame.wf(),
                                frame.same_shape(s2),
                                s2.wf(),
                                fw == s2.spec_width(),
                                fh == s2.spec_height(),
                                cx == s2.spec_cam_x(),
                                cy == s2.spec_cam_y(),
                                forall|r: int, c: int|
                                    0 <= r < fh && 0 <= c < fw ==> #[trigger] frame.cell_at(r, c)
                                        == {
                                        let wx = cx + c;
                                        let wy = cy + r;
                                        if r < s2.game_rows() && (exists|t: int|
                                            1 <= t < k && (#[trigger] path@[t]).x == wx
                                                && path@[t].y == wy) {
                                            (Cell {
                                                ch: '\u{00b7}',
                                                fg: Some(Color::Yellow),
                                                bg: None,
                                            })
                                        } else {
                                            s2.cell_at(r, c)
                                        }
                                    },
                            decreases n - 1 - k,
                        {
                            let point = path[k];
                            let ghost pre = *frame;
                            frame.set_world_cell(
                                point.x,
                                point.y,
                                Cell { ch: '\u{00b7}', fg: Some(Color::Yellow), bg: None },
                            );
                            proof {
                                assert forall|r: int, c: int|
                                    0 <= r < fh && 0 <= c < fw implies #[trigger] frame.cell_at(
                                    r,
                                    c,
                                ) == {
                                    let wx = cx + c;
                                    let wy = cy + r;
                                    if r < s2.game_rows() && (exists|t: int|
                                        1 <= t < k + 1 && (#[trigger] path@[t]).x == wx
                                            && path@[t].y == wy) {
                                        (Cell { ch: '\u{00b7}', fg: Some(Color::Yellow), bg: None })
                                    } else {
                                        s2.cell_at(r, c)
                                    }
                                } by {
                                    lemma_row_major_in_bounds(fw, fh, r, c);
                                    let wx = cx + c;
                                    let wy = cy + r;
                                    if pre.world_write_hits(point.x as int, point.y as int) {
                                        let r0 = point.y - cy;
                                        let c0 = point.x - cx;
                                        lemma_row_major_in_bounds(fw, fh, r0, c0);
                                        if r == r0 && c == c0 {
                                            assert(path@[k as int].x == wx && path@[k as int].y
                                                == wy);
                                        } else {
                                            lemma_row_major_injective(fw, r, c, r0, c0);
                                            assert(frame.cell_at(r, c) == pre.cell_at(r, c));
                                            assert((exists|t: int|
                                                1 <= t < k + 1 && (#[trigger] path@[t]).x == wx
                                                    && path@[t].y == wy) == (exists|t: int|
                                                1 <= t < k && (#[trigger] path@[t]).x == wx
                                                    && path@[t].y == wy));
                                        }
                                    } else {
                                        assert(frame.cell_at(r, c) == pre.cell_at(r, c));
                                        if r < s2.game_rows() && (exists|t: int|
                                            1 <= t < k + 1 && (#[trigger] path@[t]).x == wx
                                                && path@[t].y == wy) {
                                            let t = choose|t: int|
                                                1 <= t < k + 1 && (#[trigger] path@[t]).x == wx
                                                    && path@[t].y == wy;
                                            if t == k {
                                                assert(pre.world_write_hits(wx, wy));
                                                assert(false);
                                            }
                                        }
                                    }
                                }
                            }
                            k = k + 1;
                        }
                    }
                },
                None => {},
            }
        }

        proof {
            let cnt = match self.spec_path() {
                Some(p) => if self.debug_mode && p.len() >= 2 {
                    p.len() - 1
                } else {
                    1
                },
                None => 1,
            };
            assert forall|r: int, c: int|
                0 <= r < fh && 0 <= c < fw implies #[trigger] frame.cell_at(r, c) == {
                let wx = cx + c;
                let wy = cy + r;
                if r < old(frame).game_rows() && self.goblin_glyph_at(wx, wy) is Some {
                    self.goblin_glyph_at(wx, wy)->0
                } else {
                    old(frame).cell_at(r, c)
                }
            } by {
                let wx = cx + c;
                let wy = cy + r;
                if self.is_dot_point(wx, wy) {
                    match self.spec_path() {
                        Some(p) => {
                            assert(self.debug_mode);
                            let t = choose|t: int|
                                1 <= t < p.len() - 1 && (#[trigger] p[t]).x == wx && p[t].y == wy;
                            assert(p.len() >= 2);
                            assert(1 <= t < cnt);
                        },
                        None => {},
                    }
                }
            }
        }
    }

    /// The goblin's world-space footprint: its own cell, widened to cover its
    /// whole current path while debug drawing is on.
    pub fn bound_box(&self) -> (r: BoundingBox)
        requires
            self.x < i32::MAX,
            self.y < i32::MAX,
            forall|i: int|
                0 <= i < self.path_points().len() ==> (#[trigger] self.path_points()[i]).x
                    < i32::MAX && self.path_points()[i].y < i32::MAX,
        ensures
            self.debug_mode ==> {
                &&& r.left == path_left((Point { x: self.x, y: self.y }), self.path_points())
                &&& r.right == path_right((Point { x: self.x, y: self.y }), self.path_points())
                &&& r.top == path_top((Point { x: self.x, y: self.y }), self.path_points())
                &&& r.bottom == path_bottom((Point { x: self.x, y: self.y }), self.path_points())
            },
            !self.debug_mode ==> r.left == self.x && r.right == self.x + 1 && r.top == self.y
                && r.bottom == self.y + 1,
    {
        if self.debug_mode {
            let origin = Point { x: self.x, y: self.y };
            return match &self.current_path {
                Some(v) => {
                    proof {
                        assert(self.path_points() == v@);
                    }
                    bounding_box_for_path(&origin, Some(v.as_slice()))
                },
                None => {
                    proof {
                        assert(opt_points(None::<&[Point]>) =~= self.path_points());
                    }
                    bounding_box_for_path(&origin, None)
                },
            };
        }

        BoundingBox { left: self.x, right: self.x + 1, top: self.y, bottom: self.y + 1 }
    }
}

} // verus!
