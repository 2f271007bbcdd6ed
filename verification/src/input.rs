//! Relative mouse motion, accumulated between frames by the event loop and
//! consumed by the camera system.

use vstd::prelude::*;

verus! {

/// The most recent relative mouse movement, in device units.
#[derive(Clone, Copy, Debug, PartialEq, Eq, Structural)]
pub struct MouseMotion {
    pub x: i32,
    pub y: i32,
}

impl MouseMotion {
    /// The stored horizontal delta.
    pub open spec fn dx(self) -> int {
        self.x as int
    }

    /// The stored vertical delta.
    pub open spec fn dy(self) -> int {
        self.y as int
    }

    /// Starts with no recorded motion.
    pub fn new() -> (r: MouseMotion)
        ensures
            r.dx() == 0,
            r.dy() == 0,
    {
        MouseMotion { x: 0, y: 0 }
    }

    /// Records the latest relative movement.
    pub fn set(&mut self, x: i32, y: i32)
        ensures
            final(self).dx() == x as int,
            final(self).dy() == y as int,
    {
        self.x = x;
        self.y = y;
    }

    /// Forgets the recorded movement once a frame has consumed it.
    pub fn clear(&mut self)
        ensures
            final(self).dx() == 0,
            final(self).dy() == 0,
    {
        self.x = 0;
        self.y = 0;
    }

    /// The recorded horizontal delta.
    pub fn delta_x(&self) -> (r: i32)
        ensures
            r as int == self.dx(),
    {
        self.x
    }

    /// The recorded vertical delta.
    pub fn delta_y(&self) -> (r: i32)
        ensures
            r as int == self.dy(),
    {
        self.y
    }
}

} // verus!
