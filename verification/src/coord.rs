//! Grid coordinates and the four cardinal directions.

use crate::random::shuffle_coords;
use vstd::prelude::*;

verus! {

/// A cardinal direction.
#[derive(Debug, Clone, Copy, PartialEq, Eq, Structural)]
pub enum Dir {
    N,
    S,
    E,
    W,
}

/// The step along z that leads to the neighbour in direction `d`.
pub open spec fn step_z(d: int) -> int {
    if d == 1 {
        1
    } else if d == 3 {
        -1
    } else {
        0
    }
}

/// The step along x that leads to the neighbour in direction `d`.
pub open spec fn step_x(d: int) -> int {
    if d == 0 {
        1
    } else if d == 2 {
        -1
    } else {
        0
    }
}

/// The direction that faces direction `d`.
pub open spec fn opposite(d: int) -> int {
    (d + 2) % 4
}

/// The direction that faces direction `d`.
pub fn opposite_of(d: usize) -> (o: usize)
    requires
        d < 4,
    ensures
        o == opposite(d as int),
        o < 4,
{
    (d + 2) % 4
}

/// The step `(z, x)` and the name of direction `d`, in the fixed order
/// north, east, south, west.
pub fn cardinal(d: usize) -> (c: (i16, i16, Dir))
    requires
        d < 4,
    ensures
        c.0 == step_z(d as int),
        c.1 == step_x(d as int),
        c.2 == Dir::of(d as int),
{
    if d == 0 {
        (0, 1, Dir::N)
    } else if d == 1 {
        (1, 0, Dir::E)
    } else if d == 2 {
        (0, -1, Dir::S)
    } else {
        (-1, 0, Dir::W)
    }
}

impl Dir {
    /// The direction with index `d`.
    pub open spec fn of(d: int) -> Dir {
        if d == 0 {
            Dir::N
        } else if d == 1 {
            Dir::E
        } else if d == 2 {
            Dir::S
        } else {
            Dir::W
        }
    }

    /// The place of this direction in the order north, east, south, west.
    pub open spec fn spec_index(self) -> int {
        match self {
            Dir::N => 0,
            Dir::E => 1,
            Dir::S => 2,
            Dir::W => 3,
        }
    }

    /// The place of this direction in the order north, east, south, west.
    pub fn index(&self) -> (d: usize)
        ensures
            d == self.spec_index(),
            d < 4,
            Dir::of(d as int) == *self,
    {
        match self {
            Dir::N => 0,
            Dir::E => 1,
            Dir::S => 2,
            Dir::W => 3,
        }
    }

    /// The direction that faces this one.
    pub fn opposite(&self) -> (o: Dir)
        ensures
            o == Dir::of(opposite(self.spec_index())),
    {
        match self {
            Dir::N => Dir::S,
            Dir::E => Dir::W,
            Dir::S => Dir::N,
            Dir::W => Dir::E,
        }
    }
}

/// The address of one grid unit.
#[derive(Debug, Default, Hash, PartialEq, Eq, Structural, Copy, Clone)]
pub struct Coord {
    pub x: i16,
    pub z: i16,
}

impl Coord {
    /// Whether all four cardinal neighbours of this coordinate can be addressed.
    pub open spec fn inner(self) -> bool {
        i16::MIN < self.x < i16::MAX && i16::MIN < self.z < i16::MAX
    }

    /// The neighbour in direction `d`.
    pub open spec fn neighbor(self, d: int) -> Coord {
        Coord { x: (self.x + step_x(d)) as i16, z: (self.z + step_z(d)) as i16 }
    }

    /// Whether `other` is one of the four neighbours.
    pub open spec fn touches(self, other: Coord) -> bool {
        exists|d: int| 0 <= d < 4 && self.neighbor(d) == other
    }

    /// The four neighbours in the order north, east, south, west.
    pub open spec fn neighbors(self) -> Seq<Coord> {
        seq![self.neighbor(0), self.neighbor(1), self.neighbor(2), self.neighbor(3)]
    }

    /// Executable form of [`Coord::inner`].
    pub fn is_inner(&self) -> (r: bool)
        ensures
            r == self.inner(),
    {
        i16::MIN < self.x && self.x < i16::MAX && i16::MIN < self.z && self.z < i16::MAX
    }

    /// The neighbour in direction `d`.
    pub fn step(&self, d: usize) -> (n: Coord)
        requires
            self.inner(),
            d < 4,
        ensures
            n == self.neighbor(d as int),
            n.x == self.x + step_x(d as int),
            n.z == self.z + step_z(d as int),
    {
        let (dz, dx, _) = cardinal(d);
        Coord { z: self.z + dz, x: self.x + dx }
    }

    /// The four neighbours in the order north, east, south, west.
    pub fn adj(&self) -> (v: Vec<Coord>)
        requires
            self.inner(),
        ensures
            v@ == self.neighbors(),
    {
        let v = vec![self.step(0), self.step(1), self.step(2), self.step(3)];
        v
    }

    /// The four neighbours in a random order.
    pub fn adj_rand(&self) -> (v: Vec<Coord>)
        requires
            self.inner(),
        ensures
            v@.to_multiset() == self.neighbors().to_multiset(),
            v@.len() == 4,
    {
        let mut v = self.adj();
        shuffle_coords(&mut v);
        proof {
            v@.to_multiset_ensures();
            self.neighbors().to_multiset_ensures();
        }
        v
    }
}

impl From<(i16, i16)> for Coord {
    fn from(c: (i16, i16)) -> (r: Coord) {
        Coord { x: c.1, z: c.0 }
    }
}

impl vstd::std_specs::convert::FromSpecImpl<(i16, i16)> for Coord {
    open spec fn obeys_from_spec() -> bool {
        true
    }

    open spec fn from_spec(c: (i16, i16)) -> Coord {
        Coord { x: c.1, z: c.0 }
    }
}

} // verus!
