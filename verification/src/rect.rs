//! Axis-aligned rectangles on the ground plane.

use crate::random::random_range;
use crate::world::{Pos, CELL_SIZE_2};
use vstd::prelude::*;

verus! {

/// A rectangle, closed on all four sides. `w` is its extent along z, `h` its
/// extent along x.
#[derive(Debug, Clone, Copy, PartialEq, Eq, Structural)]
pub struct Rect {
    pub z_min: i32,
    pub z_max: i32,
    pub x_min: i32,
    pub x_max: i32,
    pub w: i32,
    pub h: i32,
}

/// The extents of a rectangle that has no place yet.
#[derive(Debug, Clone, Copy, PartialEq, Eq, Structural)]
pub struct RectBuilder {
    pub w: i32,
    pub h: i32,
}

/// Half of a length, rounded towards zero.
pub open spec fn half(v: int) -> int {
    if v >= 0 {
        v / 2
    } else {
        -((-v) / 2)
    }
}

/// Whether `v` can be held in 32 bits.
pub open spec fn fits(v: int) -> bool {
    i32::MIN <= v <= i32::MAX
}

impl Rect {
    /// Whether the point lies in the rectangle or on its border.
    pub open spec fn holds(self, t: Pos) -> bool {
        t.z >= self.z_min && t.z <= self.z_max && t.x >= self.x_min && t.x <= self.x_max
    }

    /// The middle of the rectangle, each coordinate rounded towards zero.
    pub open spec fn middle(self) -> Pos {
        Pos { x: half(self.x_min + self.x_max) as i32, z: half(self.z_min + self.z_max) as i32 }
    }

    /// Whether a point can be drawn that keeps `padding` away from every side.
    pub open spec fn has_room(self, padding: int) -> bool {
        &&& self.z_min + padding < self.z_max - padding
        &&& self.x_min + padding < self.x_max - padding
        &&& fits(self.z_min + padding)
        &&& fits(self.z_max - padding)
        &&& fits(self.x_min + padding)
        &&& fits(self.x_max - padding)
    }

    /// Whether [`Rect::random`] answers with the middle instead of drawing.
    pub open spec fn too_narrow(self, padding: int) -> bool {
        padding * 2 >= self.w && self.w <= self.h
    }

    /// The rectangle between the given bounds.
    pub fn new(z_min: i32, z_max: i32, x_min: i32, x_max: i32) -> (r: Rect)
        requires
            fits(z_max - z_min),
            fits(x_max - x_min),
        ensures
            r == (Rect { z_min, z_max, x_min, x_max, w: (z_max - z_min) as i32, h: (x_max - x_min) as i32 }),
    {
        Rect { z_min, z_max, x_min, x_max, w: z_max - z_min, h: x_max - x_min }
    }

    /// Starts a rectangle of extent `w` along z and `h` along x.
    pub fn build(w: i32, h: i32) -> (b: RectBuilder)
        ensures
            b == (RectBuilder { w, h }),
    {
        RectBuilder { w, h }
    }

    /// Whether the point lies in the rectangle or on its border.
    pub fn contains(&self, t: &Pos) -> (r: bool)
        ensures
            r == self.holds(*t),
    {
        t.z >= self.z_min && t.z <= self.z_max && t.x >= self.x_min && t.x <= self.x_max
    }

    /// The middle of the rectangle.
    pub fn center(&self) -> (p: Pos)
        ensures
            p == self.middle(),
    {
        let x: i64 = (self.x_min as i64 + self.x_max as i64) / 2;
        let z: i64 = (self.z_min as i64 + self.z_max as i64) / 2;
        Pos { x: x as i32, z: z as i32 }
    }

    /// A random point of the rectangle that keeps `padding` away from every
    /// side, or the middle where the rectangle is too narrow for that.
    pub fn random(&self, padding: i32) -> (p: Pos)
        requires
            !self.too_narrow(padding as int) ==> self.has_room(padding as int),
        ensures
            self.too_narrow(padding as int) ==> p == self.middle(),
            !self.too_narrow(padding as int) ==> {
                &&& self.z_min + padding <= p.z < self.z_max - padding
                &&& self.x_min + padding <= p.x < self.x_max - padding
            },
    {
        if padding as i64 * 2 >= self.w as i64 && self.w <= self.h {
            return self.center();
        }
        let z = random_range(self.z_min as i64 + padding as i64, self.z_max as i64 - padding as i64);
        let x = random_range(self.x_min as i64 + padding as i64, self.x_max as i64 - padding as i64);
        Pos { x: x as i32, z: z as i32 }
    }
}

impl RectBuilder {
    /// The rectangle that [`RectBuilder::enter_south_middle_at`] places at `t`.
    pub open spec fn entered_at(self, t: Pos) -> Rect {
        Rect {
            x_min: (t.x - CELL_SIZE_2) as i32,
            x_max: (t.x - CELL_SIZE_2 + self.h) as i32,
            z_min: (t.z - half(self.w as int)) as i32,
            z_max: (t.z - half(self.w as int) + self.w) as i32,
            w: self.w,
            h: self.h,
        }
    }

    /// The rectangle that [`RectBuilder::center_at`] places at `t`.
    pub open spec fn centered_at(self, t: Pos) -> Rect {
        Rect {
            x_min: (t.x - half(self.h as int)) as i32,
            x_max: (t.x - half(self.h as int) + self.h) as i32,
            z_min: (t.z - half(self.w as int)) as i32,
            z_max: (t.z - half(self.w as int) + self.w) as i32,
            w: self.w,
            h: self.h,
        }
    }

    /// Whether the bounds of [`RectBuilder::entered_at`] can be held.
    pub open spec fn can_enter_at(self, t: Pos) -> bool {
        &&& fits(t.x - CELL_SIZE_2)
        &&& fits(t.x - CELL_SIZE_2 + self.h)
        &&& fits(t.z - half(self.w as int))
        &&& fits(t.z - half(self.w as int) + self.w)
    }

    /// Whether the bounds of [`RectBuilder::centered_at`] can be held.
    pub open spec fn can_center_at(self, t: Pos) -> bool {
        &&& fits(t.x - half(self.h as int))
        &&& fits(t.x - half(self.h as int) + self.h)
        &&& fits(t.z - half(self.w as int))
        &&& fits(t.z - half(self.w as int) + self.w)
    }

    /// Places the rectangle so that `t` is the middle of the cell at its
    /// low-x side: it starts half a cell below `t` along x and is centred on
    /// `t` along z.
    pub fn enter_south_middle_at(&self, t: &Pos) -> (r: Rect)
        requires
            self.can_enter_at(*t),
        ensures
            r == self.entered_at(*t),
    {
        let x_min = t.x - CELL_SIZE_2;
        let z_min = t.z - self.w / 2;
        Rect { x_min, x_max: x_min + self.h, z_min, z_max: z_min + self.w, w: self.w, h: self.h }
    }

    /// Places the rectangle with its middle at `t`.
    pub fn center_at(&self, t: &Pos) -> (r: Rect)
        requires
            self.can_center_at(*t),
        ensures
            r == self.centered_at(*t),
    {
        let x_min = t.x - self.h / 2;
        let z_min = t.z - self.w / 2;
        Rect { x_min, x_max: x_min + self.h, z_min, z_max: z_min + self.w, w: self.w, h: self.h }
    }
}

} // verus!
