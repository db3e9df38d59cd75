//! A positioned, sized viewport into world space: coordinate translation and
//! view-rectangle culling.

use vstd::prelude::*;

use crate::bounding_box::BoundingBox;

verus! {

/// World position, viewport size, and a cached world-space footprint.
///
/// The cached `camera_view` is only meaningful while it reflects the current
/// position and size: every mutation of `x`, `y`, `width` or `height` must be
/// followed by `update_bbox` before the next read of `camera_view`.
pub struct Camera {
    pub x: i32,
    pub y: i32,
    pub width: u16,
    pub height: u16,
    pub camera_view: BoundingBox,
}

impl Camera {
    /// The far edges of the viewport stay within the coordinate space.
    pub open spec fn edges_in_range(self) -> bool {
        self.x + self.width <= i32::MAX && self.y + self.height <= i32::MAX
    }

    /// The cached footprint agrees with the current position and size.
    pub open spec fn bbox_fresh(self) -> bool {
        self.camera_view.left == self.x && self.camera_view.right == self.x + self.width
            && self.camera_view.top == self.y && self.camera_view.bottom == self.y + self.height
    }

    /// Whether a world coordinate falls inside the viewport,
    /// `[x, x + width) x [y, y + height)`.
    pub open spec fn on_screen(self, world_x: int, world_y: int) -> bool {
        self.x <= world_x < self.x + self.width && self.y <= world_y < self.y + self.height
    }

    /// The screen coordinate a world coordinate projects to, or `None` when it
    /// is off-screen.
    pub open spec fn spec_world_to_screen(self, world_x: int, world_y: int) -> Option<(int, int)> {
        if self.on_screen(world_x, world_y) {
            Some((world_x - self.x, world_y - self.y))
        } else {
            None
        }
    }

    /// Whether a world-space rectangle of size `w x h` at `(world_x, world_y)`
    /// overlaps the viewport, with half-open interval semantics: a rectangle
    /// that starts exactly at the camera's far edge is not visible.
    pub open spec fn spec_visible(self, world_x: int, world_y: int, w: int, h: int) -> bool {
        world_x + w > self.x && world_x < self.x + self.width && world_y + h > self.y && world_y
            < self.y + self.height
    }

    pub fn new(x: i32, y: i32, width: u16, height: u16) -> (r: Self)
        requires
            x + width <= i32::MAX,
            y + height <= i32::MAX,
        ensures
            r.x == x && r.y == y && r.width == width && r.height == height,
            r.bbox_fresh(),
    {
        Camera {
            x,
            y,
            width,
            height,
            camera_view: BoundingBox {
                left: x,
                right: x + width as i32,
                top: y,
                bottom: y + height as i32,
            },
        }
    }

    /// Translate a world coordinate to a screen coordinate, present only when
    /// both components fall in `[0, width) x [0, height)`. Never fails: any
    /// out-of-range input is reported as off-screen.
    pub fn world_to_screen(&self, world_x: i32, world_y: i32) -> (r: Option<(u16, u16)>)
        ensures
            r is Some <==> self.on_screen(world_x as int, world_y as int),
            r matches Some(p) ==> p.0 == world_x - self.x && p.1 == world_y - self.y,
    {
        let screen_x = world_x as i64 - self.x as i64;
        let screen_y = world_y as i64 - self.y as i64;

        if screen_x >= 0 && screen_x < self.width as i64 && screen_y >= 0
            && screen_y < self.height as i64 {
            Some((screen_x as u16, screen_y as u16))
        } else {
            None
        }
    }

    /// Whether a world rectangle intersects the camera's screen rectangle.
    /// Never fails: any out-of-range input simply reports invisible.
    pub fn is_visible(&self, world_x: i32, world_y: i32, width: u16, height: u16) -> (r: bool)
        requires
            self.edges_in_range(),
        ensures
            r == self.spec_visible(world_x as int, world_y as int, width as int, height as int),
    {
        let right = self.x + self.width as i32;
        let bottom = self.y + self.height as i32;

        !(world_x as i64 + width as i64 <= self.x as i64 || world_x >= right
            || world_y as i64 + height as i64 <= self.y as i64 || world_y >= bottom)
    }

    /// Recompute the cached footprint from the current position and size.
    pub fn update_bbox(&mut self)
        requires
            old(self).edges_in_range(),
        ensures
            final(self).x == old(self).x && final(self).y == old(self).y,
            final(self).width == old(self).width && final(self).height == old(self).height,
            final(self).bbox_fresh(),
    {
        self.camera_view = BoundingBox {
            left: self.x,
            right: self.x + self.width as i32,
            top: self.y,
            bottom: self.y + self.height as i32,
        };
    }
}

/// A camera freshly placed at world position `(x0, y0)` projects its own
/// position to the screen origin.
pub proof fn lemma_camera_position_projects_to_origin(cam: Camera)
    requires
        cam.width > 0,
        cam.height > 0,
    ensures
        cam.spec_world_to_screen(cam.x as int, cam.y as int) == Some((0int, 0int)),
{
}

} // verus!
