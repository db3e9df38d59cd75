//! A frames-per-second counter driven by the system clock.

use vstd::prelude::*;

use std::time::Instant;

verus! {

#[verifier::external_type_specification]
#[verifier::external_body]
pub struct ExInstant(Instant);

/// Relies on `std::time::Instant::now`: an opaque reading of a monotonic
/// clock. What it returns depends on the clock, so nothing is promised of it.
#[verifier::external_body]
fn instant_now() -> Instant {
    Instant::now()
}

/// Relies on `std::time::Instant`'s subtraction and `Duration::as_secs`:
/// whole seconds from `earlier` to `later`, saturating to zero when `earlier`
/// is in fact the later reading. The value depends on the clock, so nothing
/// is promised of it.
#[verifier::external_body]
fn seconds_between(earlier: &Instant, later: &Instant) -> u64 {
    (*later - *earlier).as_secs()
}

/// Frames per whole second measured.
pub open spec fn rate(frames: u32, secs: u32) -> int {
    frames as int / secs as int
}

/// Frame counting state: the instant the current measurement window opened,
/// the frames counted in it, and the last published rate.
pub struct Fps {
    pub last_frame: Instant,
    pub frames: u32,
    pub fps: u32,
}

impl Fps {
    /// Count one frame. Once the clock has measured at least one whole second
    /// since `last_frame`, first publish the counted frames per elapsed
    /// second and open a new window. The clock decides which of the two
    /// outcomes happens.
    pub fn update(&mut self)
        ensures
            (final(self).fps == old(self).fps && final(self).last_frame == old(self).last_frame
                && final(self).frames == (if old(self).frames < u32::MAX {
                old(self).frames + 1
            } else {
                old(self).frames as int
            })) || (final(self).frames == 1 && exists|s: u32|
                s > 0 && final(self).fps == #[trigger] rate(old(self).frames, s)),
    {
        let now = instant_now();
        let elapsed_secs = seconds_between(&self.last_frame, &now);
        let published = elapsed_secs > 0;
        if published {
            let s32: u32 = if elapsed_secs > u32::MAX as u64 {
                u32::MAX
            } else {
                elapsed_secs as u32
            };
            self.fps = self.frames / s32;
            proof {
                assert(self.fps == rate(old(self).frames, s32));
            }
            self.last_frame = now;
            self.frames = 0;
        }
        if self.frames < u32::MAX {
            self.frames = self.frames + 1;
        }
    }
}

} // verus!
