//! Movement across the world, for things that validate their steps against
//! the current frame and camera.

use vstd::prelude::*;

use crate::camera::Camera;
use crate::frame::Frame;

verus! {

pub trait Moveable {
    /// Try to step by `(dx, dy)`; report whether the step was taken.
    fn attempt_move(&mut self, dx: i32, dy: i32, frame: &Frame, camera: &Camera) -> bool;
}

} // verus!
