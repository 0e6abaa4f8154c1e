//! World positions and the length constants of the grid.

use vstd::prelude::*;

verus! {

/// Steps of the fixed-point scale in one world unit.
pub const UNIT: i32 = 1000;

/// Edge length of one cell.
pub const CELL_SIZE: i32 = 30 * UNIT;

/// Half the edge length of one cell.
pub const CELL_SIZE_2: i32 = 15 * UNIT;

/// A point on the ground plane, in fixed-point steps.
#[derive(Debug, Default, Hash, PartialEq, Eq, Structural, Copy, Clone)]
pub struct Pos {
    pub x: i32,
    pub z: i32,
}

impl Pos {
    /// The square of the straight-line distance between two points.
    pub open spec fn dist2(self, other: Pos) -> int {
        (self.x - other.x) * (self.x - other.x) + (self.z - other.z) * (self.z - other.z)
    }

    /// The square of the straight-line distance to `other`.
    ///
    /// Distances are only ever compared, and squaring keeps their order.
    pub fn distance_squared(&self, other: &Pos) -> (d: u128)
        ensures
            d == self.dist2(*other),
    {
        let dx: u64 = abs_diff(self.x, other.x);
        let dz: u64 = abs_diff(self.z, other.z);
        let dx2: u128 = square(dx);
        let dz2: u128 = square(dz);
        assert((self.x - other.x) * (self.x - other.x) == dx * dx) by (nonlinear_arith)
            requires
                dx == self.x - other.x || dx == other.x - self.x,
        ;
        assert((self.z - other.z) * (self.z - other.z) == dz * dz) by (nonlinear_arith)
            requires
                dz == self.z - other.z || dz == other.z - self.z,
        ;
        dx2 + dz2
    }

    /// The point moved by `dx` along x and by `dz` along z.
    pub open spec fn shifted(self, dx: int, dz: int) -> Pos {
        Pos { x: (self.x + dx) as i32, z: (self.z + dz) as i32 }
    }

    /// The point moved by `dx` along x and by `dz` along z.
    pub fn offset(&self, dx: i32, dz: i32) -> (p: Pos)
        requires
            i32::MIN <= self.x + dx <= i32::MAX,
            i32::MIN <= self.z + dz <= i32::MAX,
        ensures
            p == self.shifted(dx as int, dz as int),
            p.x == self.x + dx,
            p.z == self.z + dz,
    {
        Pos { x: self.x + dx, z: self.z + dz }
    }
}

/// The distance between two numbers of the line.
fn abs_diff(a: i32, b: i32) -> (d: u64)
    ensures
        d == (if a >= b { a - b } else { b - a }),
        d < 0x1_0000_0000,
{
    if a >= b {
        (a as i64 - b as i64) as u64
    } else {
        (b as i64 - a as i64) as u64
    }
}

/// The square of a distance along one axis.
fn square(d: u64) -> (s: u128)
    requires
        d < 0x1_0000_0000,
    ensures
        s == d * d,
        s < 0x1_0000_0000_0000_0000,
{
    assert(d * d < 0x1_0000_0000_0000_0000) by (nonlinear_arith)
        requires
            d < 0x1_0000_0000,
    ;
    (d as u128) * (d as u128)
}

} // verus!
