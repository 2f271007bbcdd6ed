//! Observer pose: a fixed-point world position and a heading angle in
//! degrees, kept normalized to `[0, 360)`.

use vstd::prelude::*;
use crate::fixed::floor_rem;

verus! {

/// A full turn (360 degrees) in fixed-point angle units.
pub const FULL_TURN: i64 = 360 * 65536;

/// Half a turn (180 degrees).
pub const HALF_TURN: i64 = 180 * 65536;

/// A quarter turn (90 degrees).
pub const QUARTER_TURN: i64 = 90 * 65536;

/// Three quarters of a turn (270 degrees).
pub const THREE_QUARTER_TURN: i64 = 270 * 65536;

/// A position in continuous world units, Q16.16 fixed point.
#[derive(Clone, Copy, Debug, PartialEq, Eq, Structural)]
pub struct Position {
    pub x: i64,
    pub y: i64,
}

impl Position {
    pub fn new(x: i64, y: i64) -> (r: Position)
        ensures
            r.x == x,
            r.y == y,
    {
        Position { x, y }
    }
}

/// A heading angle: degrees scaled by `FX_ONE`, normalized to
/// `[0, FULL_TURN)`.
#[derive(Clone, Copy, Debug, PartialEq, Eq, Structural)]
pub struct Rotation {
    pub units: i64,
}

impl Rotation {
    /// The normalization invariant every `Rotation` satisfies.
    pub open spec fn wf(self) -> bool {
        0 <= self.units < FULL_TURN
    }

    /// The stored angle, in fixed-point degree units.
    pub open spec fn angle(self) -> int {
        self.units as int
    }

    /// Builds a heading from any fixed-point degree count, normalizing it
    /// into `[0, 360)` degrees.
    pub fn new(units: i64) -> (r: Rotation)
        ensures
            r.angle() == units as int % (FULL_TURN as int),
            r.wf(),
    {
        Rotation { units: floor_rem(units, FULL_TURN) }
    }

    /// The normalized angle in fixed-point degree units.
    pub fn degrees(&self) -> (r: i64)
        ensures
            r as int == self.angle(),
    {
        self.units
    }

    /// A copy of this heading turned by `delta` fixed-point degree units.
    pub fn rotated(&self, delta: i64) -> (r: Rotation)
        requires
            self.wf(),
            i64::MIN < self.angle() + delta < i64::MAX,
        ensures
            r.angle() == (self.angle() + delta) % (FULL_TURN as int),
            r.wf(),
    {
        Rotation::new(self.units + delta)
    }

    /// Turns this heading by `delta` fixed-point degree units, renormalizing.
    pub fn add(&mut self, delta: i64)
        requires
            old(self).wf(),
            i64::MIN < old(self).angle() + delta < i64::MAX,
        ensures
            final(self).angle() == (old(self).angle() + delta) % (FULL_TURN as int),
            final(self).wf(),
    {
        self.units = floor_rem(self.units + delta, FULL_TURN);
    }

    /// True when the heading points into the upper half of the world
    /// (screen-style axes: `y` grows downward, so "up" is the second half
    /// turn).
    pub fn is_facing_up(&self) -> (r: bool)
        ensures
            r == (HALF_TURN <= self.angle() < FULL_TURN),
    {
        self.units >= HALF_TURN && self.units < FULL_TURN
    }

    /// True when the heading points into the left half of the world.
    pub fn is_facing_left(&self) -> (r: bool)
        ensures
            r == (QUARTER_TURN <= self.angle() < THREE_QUARTER_TURN),
    {
        self.units >= QUARTER_TURN && self.units < THREE_QUARTER_TURN
    }

    /// True when the heading is exactly along the x axis: such a ray never
    /// crosses a horizontal grid line.
    pub fn is_straight_horizontal(&self) -> (r: bool)
        ensures
            r == (self.angle() == 0 || self.angle() == HALF_TURN),
    {
        self.units == 0 || self.units == HALF_TURN
    }

    /// True when the heading is exactly along the y axis: such a ray never
    /// crosses a vertical grid line.
    pub fn is_straight_vertical(&self) -> (r: bool)
        ensures
            r == (self.angle() == QUARTER_TURN || self.angle() == THREE_QUARTER_TURN),
    {
        self.units == QUARTER_TURN || self.units == THREE_QUARTER_TURN
    }
}

} // verus!
