//! Buildings: the cells and rooms of one layout, and the rules that fill it.

use crate::cell::Cell;
use crate::coord::Coord;
use crate::nav::{NavGraph, NavNodeType};
use crate::rect::Rect;
use crate::random::choose_coord;
use crate::room::{seeded, Room, RoomType, MAX_SIZE, MIN_SIZE};
use crate::wall::State;
use crate::world::{Pos, CELL_SIZE, CELL_SIZE_2};
use vstd::prelude::*;

verus! {

/// The farthest that the origin of a building may lie from the origin of the
/// world along each axis, so that every position of the building can be held.
pub const MAX_ORIGIN: i32 = 1_000_000_000;

/// The layout of one building.
///
/// Cells and rooms live in arenas: a cell is known by its index in `cells`,
/// a room by its index in `rooms`, which is also its id.
#[derive(Debug)]
pub struct Building {
    pub cells: Vec<Cell>,
    pub rooms: Vec<Room>,
    /// The footprint outside of which no room grows, if there is one.
    pub bounds: Option<Rect>,
    /// The world position of the cell at coordinate (0, 0).
    pub origin: Pos,
    /// Whether the navigation graph has been generated.
    pub navigated: bool,
    pub nav: NavGraph,
}

/// The kind of the navigation node that slot `s` of a cell holds: a door node
/// for each of the four sides, then the interior node, then the outside node.
pub open spec fn slot_kind(s: int) -> NavNodeType {
    if s < 4 {
        NavNodeType::Door
    } else if s == 4 {
        NavNodeType::Cell
    } else {
        NavNodeType::Outside
    }
}

/// Whether a building can stand at `origin`.
pub open spec fn origin_ok(origin: Pos) -> bool {
    &&& -MAX_ORIGIN <= origin.x <= MAX_ORIGIN
    &&& -MAX_ORIGIN <= origin.z <= MAX_ORIGIN
}

/// The offset of the middle of the cell at `c` from the origin of its building.
pub open spec fn coord_rel(c: Coord) -> Pos {
    Pos { x: (c.x * CELL_SIZE) as i32, z: (c.z * CELL_SIZE) as i32 }
}

/// The world position of the middle of the cell at `c` in a building at `origin`.
pub open spec fn coord_pos(origin: Pos, c: Coord) -> Pos {
    Pos { x: (origin.x + c.x * CELL_SIZE) as i32, z: (origin.z + c.z * CELL_SIZE) as i32 }
}

/// The number nearest to `v` that a coordinate can hold.
pub open spec fn clamp_coord(v: int) -> i16 {
    if v < i16::MIN {
        i16::MIN
    } else if v > i16::MAX {
        i16::MAX
    } else {
        v as i16
    }
}

/// The coordinate to which a world position belongs in a building at
/// `origin`: that of the cell whose square, half a cell to each side of its
/// middle, holds the position. The quotient is rounded down.
pub open spec fn pos_coord(origin: Pos, pos: Pos) -> Coord {
    Coord {
        z: clamp_coord((pos.z - origin.z + CELL_SIZE_2) / (CELL_SIZE as int)),
        x: clamp_coord((pos.x - origin.x + CELL_SIZE_2) / (CELL_SIZE as int)),
    }
}

/// The coordinate and the room of each cell.
pub open spec fn sites_of(cells: Seq<Cell>) -> Seq<(Coord, usize)> {
    Seq::new(cells.len(), |i: int| (cells[i].coord, cells[i].room))
}

/// Whether no coordinate occurs twice.
pub open spec fn distinct(sites: Seq<(Coord, usize)>) -> bool {
    forall|i: int, j: int|
        0 <= i < j < sites.len() ==> (#[trigger] sites[i]).0 != (#[trigger] sites[j]).0
}

/// Whether a site stands at `c`.
pub open spec fn taken(sites: Seq<(Coord, usize)>, c: Coord) -> bool {
    exists|i: int| 0 <= i < sites.len() && (#[trigger] sites[i]).0 == c
}

/// The index of a site that stands at `c`.
pub open spec fn site_at(sites: Seq<(Coord, usize)>, c: Coord) -> int {
    choose|i: int| 0 <= i < sites.len() && (#[trigger] sites[i]).0 == c
}

/// The floor plan: the room of every occupied coordinate.
pub open spec fn plan_of(sites: Seq<(Coord, usize)>) -> Map<Coord, usize> {
    Map::new(|c: Coord| taken(sites, c), |c: Coord| sites[site_at(sites, c)].1)
}

/// The plan maps the coordinate of every site to the room of that site.
pub proof fn lemma_plan_index(sites: Seq<(Coord, usize)>, i: int)
    requires
        distinct(sites),
        0 <= i < sites.len(),
    ensures
        plan_of(sites).contains_pair(sites[i].0, sites[i].1),
        site_at(sites, sites[i].0) == i,
{
    let c = sites[i].0;
    let j = site_at(sites, c);
}

/// Every coordinate of the plan is the coordinate of a site.
pub proof fn lemma_plan_witness(sites: Seq<(Coord, usize)>, c: Coord) -> (i: int)
    requires
        plan_of(sites).dom().contains(c),
    ensures
        0 <= i < sites.len(),
        sites[i].0 == c,
        sites[i].1 == plan_of(sites)[c],
        i == site_at(sites, c),
{
    site_at(sites, c)
}

/// A site at a free coordinate adds one entry to the plan.
pub proof fn lemma_plan_push(sites: Seq<(Coord, usize)>, c: Coord, r: usize)
    requires
        distinct(sites),
        !taken(sites, c),
    ensures
        distinct(sites.push((c, r))),
        plan_of(sites.push((c, r))) == plan_of(sites).insert(c, r),
{
    let grown = sites.push((c, r));
    assert forall|k: Coord| plan_of(grown).dom().contains(k) <==> plan_of(sites).insert(
        c,
        r,
    ).dom().contains(k) by {
        if taken(sites, k) {
            let i = site_at(sites, k);
            assert(grown[i].0 == k);
        }
        if k == c {
            assert(grown[sites.len() as int].0 == c);
        }
    }
}

impl Building {
    /// The coordinate and the room of each cell.
    pub open spec fn sites(&self) -> Seq<(Coord, usize)> {
        sites_of(self.cells@)
    }

    /// The floor plan: the room of every occupied coordinate.
    pub open spec fn plan(&self) -> Map<Coord, usize> {
        plan_of(self.sites())
    }

    /// Whether a cell stands at `c`.
    pub open spec fn occupied(&self, c: Coord) -> bool {
        self.plan().dom().contains(c)
    }

    /// The world position of the middle of the cell at `c`.
    pub open spec fn pos_of(&self, c: Coord) -> Pos {
        coord_pos(self.origin, c)
    }

    /// Whether `c` lies inside the footprint. A building without a footprint
    /// holds every coordinate.
    pub open spec fn in_bounds(&self, c: Coord) -> bool {
        match self.bounds {
            Some(b) => b.holds(self.pos_of(c)),
            None => true,
        }
    }

    /// Whether a room can grow into `c`: it is unoccupied, inside the
    /// footprint, and its neighbours can be addressed.
    pub open spec fn free(&self, c: Coord) -> bool {
        &&& !self.occupied(c)
        &&& self.in_bounds(c)
        &&& c.inner()
    }

    /// Whether `c` is a neighbour of some cell.
    pub open spec fn touches_cell(&self, c: Coord) -> bool {
        exists|j: int, e: int|
            0 <= j < self.cells.len() && 0 <= e < 4 && (#[trigger] self.cells[j].coord.neighbor(e))
                == c
    }

    /// Whether cell `i` is consistent with the rest of the building.
    pub open spec fn cell_ok(&self, i: int) -> bool {
        let c = self.cells[i];
        &&& c.coord.inner()
        &&& c.room < self.rooms.len()
        &&& c.pos == self.pos_of(c.coord)
        &&& self.rooms[c.room as int].cells@.contains(c.coord)
        &&& forall|s: int|
            0 <= s < 6 ==> ((#[trigger] c.nav_nodes[s]) matches Some(n) ==> n < self.nav.nodes.len()
                && self.nav.nodes[n as int].kind == slot_kind(s))
    }

    /// Whether room `r` is consistent with the rest of the building.
    pub open spec fn room_ok(&self, r: int) -> bool {
        let room = self.rooms[r];
        &&& room.id == r
        &&& room.cells@.no_duplicates()
        &&& room.cells.len() <= room.size
        &&& room.connected_to@.no_duplicates()
        &&& forall|k: int|
            0 <= k < room.connected_to.len() ==> {
                &&& (#[trigger] room.connected_to[k]) < self.rooms.len()
                &&& room.connected_to[k] != r
            }
        &&& forall|k: int|
            0 <= k < room.cells.len() ==> self.plan().contains_pair(
                #[trigger] room.cells[k],
                r as usize,
            )
    }

    /// The invariant of a building: no coordinate holds two cells, every
    /// cell belongs to an existing room that lists it, every room lists only
    /// its own cells and is not above its target size, and the navigation
    /// nodes that the cells name exist.
    pub open spec fn wf(&self) -> bool {
        &&& origin_ok(self.origin)
        &&& distinct(self.sites())
        &&& forall|i: int| 0 <= i < self.cells.len() ==> #[trigger] self.cell_ok(i)
        &&& forall|r: int| 0 <= r < self.rooms.len() ==> #[trigger] self.room_ok(r)
        &&& self.nav.wf()
        &&& !self.navigated ==> self.nav.nodes.len() == 0
    }

    /// Whether `other` has the cells of this building at the same
    /// coordinates, in the same rooms and with the same navigation nodes, the
    /// same rooms and the same graph: only the states of walls may differ.
    pub open spec fn same_but_walls(&self, other: Building) -> bool {
        &&& self.cells.len() == other.cells.len()
        &&& forall|i: int|
            0 <= i < self.cells.len() ==> {
                &&& (#[trigger] self.cells[i]).coord == other.cells[i].coord
                &&& self.cells[i].room == other.cells[i].room
                &&& self.cells[i].pos == other.cells[i].pos
                &&& self.cells[i].nav_nodes == other.cells[i].nav_nodes
            }
        &&& self.rooms == other.rooms
        &&& self.bounds == other.bounds
        &&& self.origin == other.origin
        &&& self.navigated == other.navigated
        &&& self.nav == other.nav
    }

    /// The state to which the rules resolve side `d` of cell `i`: open
    /// towards a cell of the same room, solid towards anything else.
    pub open spec fn wall_for(&self, i: int, d: int) -> State {
        if self.plan().contains_pair(self.cells[i].coord.neighbor(d), self.cells[i].room) {
            State::Open
        } else {
            State::Solid
        }
    }

    /// Whether each side of cell `i` is open exactly where the neighbour
    /// exists and belongs to the same room, and is solid or a door elsewhere.
    pub open spec fn resolved(&self, i: int) -> bool {
        forall|d: int|
            0 <= d < 4 ==> {
                &&& (#[trigger] self.cells[i].wall_state[d]) == State::Open
                    <==> self.plan().contains_pair(
                    self.cells[i].coord.neighbor(d),
                    self.cells[i].room,
                )
                &&& self.cells[i].wall_state[d] != State::Window
            }
    }

    /// Whether the walls of every cell are resolved.
    pub open spec fn walls_resolved(&self) -> bool {
        forall|i: int| 0 <= i < self.cells.len() ==> #[trigger] self.resolved(i)
    }

    /// Whether no side of cell `i` has a door.
    pub open spec fn doorless(&self, i: int) -> bool {
        forall|d: int| 0 <= d < 4 ==> (#[trigger] self.cells[i].wall_state[d]) != State::Door
    }

    /// Whether no wall of the building has a door.
    pub open spec fn no_doors(&self) -> bool {
        forall|i: int| 0 <= i < self.cells.len() ==> #[trigger] self.doorless(i)
    }

    /// Whether room `r` is as growth leaves a room: it has a cell; each cell
    /// but the first touches an earlier cell of the room and lies inside the
    /// footprint; the first cell lies inside the footprint too, but for the
    /// first room, which starts at coordinate (0, 0); its target size is one
    /// that a random room can have; and it has reached that size, or no
    /// coordinate is left into which it could grow.
    pub open spec fn room_grown(&self, r: int) -> bool {
        let cells = self.rooms[r].cells@;
        &&& cells.len() > 0
        &&& MIN_SIZE <= self.rooms[r].size < MIN_SIZE + MAX_SIZE
        &&& forall|k: int|
            1 <= k < cells.len() ==> borders(cells.take(k), #[trigger] cells[k]) && self.in_bounds(
                cells[k],
            )
        &&& r > 0 ==> self.in_bounds(cells[0])
        &&& r == 0 ==> cells[0] == Coord { x: 0, z: 0 }
        &&& cells.len() == self.rooms[r].size || self.hemmed_in(r)
    }

    /// Whether no coordinate into which a room can grow borders on room `r`.
    pub open spec fn hemmed_in(&self, r: int) -> bool {
        forall|c: Coord| !(#[trigger] self.free(c) && borders(self.rooms[r].cells@, c))
    }

    /// Whether every room is as growth leaves a room.
    pub open spec fn rooms_grown(&self) -> bool {
        forall|r: int| 0 <= r < self.rooms.len() ==> #[trigger] self.room_grown(r)
    }

    /// A building without cells and rooms.
    pub fn bare(origin: Pos, bounds: Option<Rect>) -> (b: Building)
        requires
            origin_ok(origin),
        ensures
            b.wf(),
            b.cells@.len() == 0,
            b.rooms@.len() == 0,
            b.origin == origin,
            b.bounds == bounds,
            !b.navigated,
            b.nav.nodes@.len() == 0,
    {
        Building {
            cells: Vec::new(),
            rooms: Vec::new(),
            bounds,
            origin,
            navigated: false,
            nav: NavGraph::new(),
        }
    }

    /// A building with one room, seeded at coordinate (0, 0) and grown to a
    /// random size.
    pub fn new(origin: Pos, bounds: Option<Rect>) -> (b: Building)
        requires
            origin_ok(origin),
        ensures
            b.wf(),
            b.origin == origin,
            b.bounds == bounds,
            !b.navigated,
            b.rooms.len() == 1,
            MIN_SIZE <= b.rooms[0].size < MIN_SIZE + MAX_SIZE,
            b.walls_resolved(),
            b.no_doors(),
            b.no_links(),
            b.rooms_grown(),
            exists|e: Building|
                e.cells.len() == 0 && e.rooms.len() == 0 && #[trigger] seeded(
                    e,
                    b,
                    0,
                    Coord { x: 0, z: 0 },
                ),
    {
        let mut b = Building::bare(origin, bounds);
        let start = Coord { x: 0, z: 0 };
        let _ = b.seed_room(start);
        proof {
            assert(b.room_grown(0)) by {
                let cells = b.rooms[0].cells@;
                assert forall|k: int| 1 <= k < cells.len() implies borders(
                    cells.take(k),
                    #[trigger] cells[k],
                ) && b.in_bounds(cells[k]) by {}
                assert(cells.len() == b.rooms[0].size || b.hemmed_in(0));
            }
        }
        b
    }

    /// Adds a room without cells, with the given target size and type, and
    /// returns its id.
    pub fn open_room(&mut self, size: usize, room_type: RoomType) -> (id: usize)
        requires
            old(self).wf(),
        ensures
            final(self).wf(),
            id == old(self).rooms.len(),
            final(self).rooms.len() == id + 1,
            forall|q: int| 0 <= q < id ==> (#[trigger] final(self).rooms[q]) == old(self).rooms[q],
            final(self).rooms[id as int].id == id,
            final(self).rooms[id as int].size == size,
            final(self).rooms[id as int].room_type == room_type,
            final(self).rooms[id as int].cells@.len() == 0,
            final(self).rooms[id as int].connected_to@.len() == 0,
            final(self).cells == old(self).cells,
            final(self).plan() == old(self).plan(),
            final(self).bounds == old(self).bounds,
            final(self).origin == old(self).origin,
            final(self).navigated == old(self).navigated,
            final(self).nav == old(self).nav,
    {
        let id = self.rooms.len();
        self.rooms.push(Room::new(id, size, room_type));
        proof {
            let o = *old(self);
            let b = *self;
            assert forall|i: int| 0 <= i < b.cells.len() implies #[trigger] b.cell_ok(i) by {
                assert(o.cell_ok(i));
            }
            assert forall|r: int| 0 <= r < b.rooms.len() implies #[trigger] b.room_ok(r) by {
                if r < id {
                    assert(o.room_ok(r));
                }
            }
        }
        id
    }

    /// Seeds a room of random size at the unoccupied `coord` and grows it:
    /// see [`Room::create`]. Returns the id of the room.
    pub fn seed_room(&mut self, coord: Coord) -> (id: usize)
        requires
            old(self).wf(),
            coord.inner(),
            !old(self).occupied(coord),
        ensures
            seeded(*old(self), *final(self), id, coord),
            MIN_SIZE <= final(self).rooms[id as int].size < MIN_SIZE + MAX_SIZE,
    {
        Room::create(self, coord)
    }

    /// Seeds a room at a random coordinate of those around the building into
    /// which a room can be seeded, see [`Building::outer`], and grows it.
    /// Returns the id of the room, or nothing where there is no such
    /// coordinate; the building is then as it was.
    pub fn seed_random_room(&mut self) -> (r: Option<usize>)
        requires
            old(self).wf(),
        ensures
            match r {
                Some(id) => {
                    &&& seeded(
                        *old(self),
                        *final(self),
                        id,
                        final(self).rooms[id as int].cells[0],
                    )
                    &&& old(self).free(final(self).rooms[id as int].cells[0])
                    &&& old(self).touches_cell(final(self).rooms[id as int].cells[0])
                    &&& MIN_SIZE <= final(self).rooms[id as int].size < MIN_SIZE + MAX_SIZE
                },
                None => {
                    &&& *final(self) == *old(self)
                    &&& forall|c: Coord| !(#[trigger] old(self).free(c) && old(self).touches_cell(c))
                },
            },
            old(self).rooms.len() > 0 && old(self).rooms_grown() ==> final(self).rooms_grown(),
    {
        let outer = self.outer();
        match choose_coord(&outer) {
            Some(coord) => {
                let id = self.seed_room(coord);
                proof {
                    if old(self).rooms.len() > 0 && old(self).rooms_grown() {
                        lemma_rooms_grown(*old(self), *self, id, coord);
                    }
                }
                Some(id)
            },
            None => {
                proof {
                    assert forall|c: Coord| !(#[trigger] self.free(c) && self.touches_cell(c)) by {
                        if self.free(c) && self.touches_cell(c) {
                            assert(outer@.contains(c));
                        }
                    }
                }
                None
            },
        }
    }

    /// The offset of the middle of the cell at `coord` from the origin.
    pub fn coord_to_pos_rel(&self, coord: &Coord) -> (p: Pos)
        ensures
            p == coord_rel(*coord),
            p.x == coord.x * CELL_SIZE,
            p.z == coord.z * CELL_SIZE,
    {
        Pos { x: coord.x as i32 * CELL_SIZE, z: coord.z as i32 * CELL_SIZE }
    }

    /// The world position of the middle of the cell at `coord`.
    pub fn coord_to_pos_global(&self, coord: &Coord) -> (p: Pos)
        requires
            origin_ok(self.origin),
        ensures
            p == self.pos_of(*coord),
            p.x == self.origin.x + coord.x * CELL_SIZE,
            p.z == self.origin.z + coord.z * CELL_SIZE,
    {
        let rel = self.coord_to_pos_rel(coord);
        assert(CELL_SIZE == 30000);
        Pos { x: self.origin.x + rel.x, z: self.origin.z + rel.z }
    }

    /// The coordinate to which a world position belongs: that of the cell
    /// whose square holds it. A position beyond the grid belongs to the
    /// coordinate at the rim.
    pub fn pos_global_to_coord(&self, pos: Pos) -> (c: Coord)
        ensures
            c == pos_coord(self.origin, pos),
    {
        let z: i64 = floor_div(pos.z as i64 - self.origin.z as i64 + CELL_SIZE_2 as i64);
        let x: i64 = floor_div(pos.x as i64 - self.origin.x as i64 + CELL_SIZE_2 as i64);
        Coord { z: clamp(z), x: clamp(x) }
    }

    /// Whether a room can grow into `coord`.
    pub fn is_free(&self, coord: &Coord) -> (r: bool)
        requires
            origin_ok(self.origin),
            distinct(self.sites()),
        ensures
            r == self.free(*coord),
    {
        if !coord.is_inner() {
            return false;
        }
        if self.find(coord).is_some() {
            return false;
        }
        match &self.bounds {
            Some(b) => {
                let pos = self.coord_to_pos_global(coord);
                b.contains(&pos)
            },
            None => true,
        }
    }

    /// Keeps of `coords` those into which a room can grow, in their order.
    pub fn retain_empty_and_valid(&self, coords: &mut Vec<Coord>)
        requires
            origin_ok(self.origin),
            distinct(self.sites()),
        ensures
            final(coords)@ == old(coords)@.filter(|c: Coord| self.free(c)),
    {
        let ghost pred = |c: Coord| self.free(c);
        let mut kept: Vec<Coord> = Vec::new();
        let mut i: usize = 0;
        while i < coords.len()
            invariant
                i <= coords.len(),
                origin_ok(self.origin),
                distinct(self.sites()),
                pred == (|c: Coord| self.free(c)),
                kept@ == coords@.take(i as int).filter(pred),
                coords@ == old(coords)@,
            decreases coords.len() - i,
        {
            let c = coords[i];
            let keep = self.is_free(&c);
            proof {
                reveal(Seq::filter);
                let next = coords@.take(i as int + 1);
                assert(next.drop_last() =~= coords@.take(i as int));
            }
            if keep {
                kept.push(c);
            }
            i += 1;
        }
        proof {
            assert(coords@.take(i as int) =~= coords@);
        }
        *coords = kept;
    }

    /// The coordinates into which a room can grow that touch one of
    /// `members`, each once.
    pub fn frontier_of(&self, members: &Vec<Coord>) -> (v: Vec<Coord>)
        requires
            origin_ok(self.origin),
            distinct(self.sites()),
            forall|k: int| 0 <= k < members.len() ==> (#[trigger] members[k]).inner(),
        ensures
            v@.no_duplicates(),
            forall|c: Coord| #![trigger v@.contains(c)] v@.contains(c) <==> self.free(c) && borders(members@, c),
    {
        let mut out: Vec<Coord> = Vec::new();
        let mut k: usize = 0;
        while k < members.len()
            invariant
                k <= members.len(),
                origin_ok(self.origin),
                distinct(self.sites()),
                forall|j: int| 0 <= j < members.len() ==> (#[trigger] members[j]).inner(),
                out@.no_duplicates(),
                forall|c: Coord| #![trigger out@.contains(c)] out@.contains(c) <==> self.free(c) && reached(members@, k as int, 0, c),
            decreases members.len() - k,
        {
            let m = members[k];
            let mut d: usize = 0;
            while d < 4
                invariant
                    d <= 4,
                    k < members.len(),
                    m == members[k as int],
                    m.inner(),
                    origin_ok(self.origin),
                    distinct(self.sites()),
                    out@.no_duplicates(),
                    forall|c: Coord|
                        #![trigger out@.contains(c)]
                        out@.contains(c) <==> self.free(c) && reached(members@, k as int, d as int, c),
                decreases 4 - d,
            {
                let n = m.step(d);
                let ghost before = out@;
                let mut added = false;
                if self.is_free(&n) {
                    if !holds_coord(&out, &n) {
                        out.push(n);
                        added = true;
                    }
                }
                proof {
                    assert forall|c: Coord|
                        #![trigger out@.contains(c)]
                        out@.contains(c) <==> self.free(c) && reached(
                            members@,
                            k as int,
                            d as int + 1,
                            c,
                        ) by {
                        if added {
                            if before.contains(c) {
                                let w = choose|w: int| 0 <= w < before.len() && before[w] == c;
                                assert(out@[w] == c);
                            }
                            if c == n {
                                assert(out@[before.len() as int] == n);
                            }
                        }
                    }
                }
                d += 1;
            }
            k += 1;
        }
        out
    }

    /// The coordinates of all cells, in the order of the cells.
    pub fn coords(&self) -> (v: Vec<Coord>)
        ensures
            v@.len() == self.cells@.len(),
            forall|i: int| 0 <= i < v@.len() ==> (#[trigger] v@[i]) == self.cells[i].coord,
    {
        let mut v: Vec<Coord> = Vec::new();
        let mut i: usize = 0;
        while i < self.cells.len()
            invariant
                i <= self.cells.len(),
                v@.len() == i,
                forall|j: int| 0 <= j < i ==> (#[trigger] v@[j]) == self.cells[j].coord,
            decreases self.cells.len() - i,
        {
            v.push(self.cells[i].coord);
            i += 1;
        }
        v
    }

    /// The coordinates around the building into which a new room can be
    /// seeded: those that touch a cell, are unoccupied and lie inside the
    /// footprint, each once.
    pub fn outer(&self) -> (v: Vec<Coord>)
        requires
            self.wf(),
        ensures
            v@.no_duplicates(),
            forall|c: Coord| #![trigger v@.contains(c)] v@.contains(c) <==> self.free(c) && self.touches_cell(c),
    {
        let coords = self.coords();
        proof {
            assert forall|k: int| 0 <= k < coords.len() implies (#[trigger] coords[k]).inner() by {
                assert(self.cell_ok(k));
            }
        }
        let v = self.frontier_of(&coords);
        proof {
            assert forall|c: Coord| borders(coords@, c) <==> self.touches_cell(c) by {
                if self.touches_cell(c) {
                    let (j, e) = choose|j: int, e: int|
                        0 <= j < self.cells.len() && 0 <= e < 4 && (
                        #[trigger] self.cells[j].coord.neighbor(e)) == c;
                    assert(coords@[j].neighbor(e) == c);
                }
            }
        }
        v
    }

    /// The index of the cell at `coord`, if there is one.
    pub fn find(&self, coord: &Coord) -> (r: Option<usize>)
        requires
            distinct(self.sites()),
        ensures
            match r {
                Some(i) => {
                    &&& i < self.cells.len()
                    &&& self.cells[i as int].coord == *coord
                    &&& self.plan().contains_pair(*coord, self.cells[i as int].room)
                },
                None => !self.occupied(*coord),
            },
    {
        let mut i: usize = 0;
        while i < self.cells.len()
            invariant
                i <= self.cells.len(),
                distinct(self.sites()),
                forall|j: int| 0 <= j < i ==> self.cells[j].coord != *coord,
            decreases self.cells.len() - i,
        {
            if self.cells[i].coord == *coord {
                proof {
                    lemma_plan_index(self.sites(), i as int);
                }
                return Some(i);
            }
            i += 1;
        }
        None
    }

    /// The cell at `coord`, if there is one.
    pub fn cell_at(&self, coord: &Coord) -> (r: Option<&Cell>)
        requires
            distinct(self.sites()),
        ensures
            match r {
                Some(cell) => {
                    &&& self.occupied(*coord)
                    &&& cell.coord == *coord
                    &&& self.cells@.contains(*cell)
                    &&& self.plan()[*coord] == cell.room
                },
                None => !self.occupied(*coord),
            },
    {
        match self.find(coord) {
            Some(i) => {
                Some(&self.cells[i])
            },
            None => None,
        }
    }

    /// The cell to which a world position belongs, if there is one.
    pub fn pos_global_to_cell(&self, pos: Pos) -> (r: Option<&Cell>)
        requires
            distinct(self.sites()),
        ensures
            match r {
                Some(cell) => {
                    &&& self.occupied(pos_coord(self.origin, pos))
                    &&& cell.coord == pos_coord(self.origin, pos)
                    &&& self.cells@.contains(*cell)
                },
                None => !self.occupied(pos_coord(self.origin, pos)),
            },
    {
        let coord = self.pos_global_to_coord(pos);
        self.cell_at(&coord)
    }
}

/// A room that is seeded at a free coordinate of a building whose rooms are
/// as growth leaves them is so too, and leaves the others so.
proof fn lemma_rooms_grown(o: Building, f: Building, id: usize, start: Coord)
    requires
        o.wf(),
        o.rooms.len() > 0,
        o.rooms_grown(),
        o.free(start),
        seeded(o, f, id, start),
        MIN_SIZE <= f.rooms[id as int].size < MIN_SIZE + MAX_SIZE,
    ensures
        f.rooms_grown(),
{
    assert forall|r: int| 0 <= r < f.rooms.len() implies #[trigger] f.room_grown(r) by {
        let cells = f.rooms[r].cells@;
        if r < id {
            assert(o.room_grown(r));
            assert(f.rooms[r] == o.rooms[r]);
            if o.hemmed_in(r) {
                assert forall|c: Coord| !(#[trigger] f.free(c) && borders(cells, c)) by {
                    lemma_stays_occupied(o, f, c);
                    if f.free(c) && borders(cells, c) {
                        assert(o.free(c));
                    }
                }
            }
        } else {
            assert(f.hemmed_in(r) || cells.len() == f.rooms[r].size);
        }
    }
}

/// A coordinate that holds a cell holds it in every building that has the
/// cells of the building and more.
proof fn lemma_stays_occupied(o: Building, f: Building, c: Coord)
    requires
        f.wf(),
        o.cells.len() <= f.cells.len(),
        forall|i: int| 0 <= i < o.cells.len() ==> (#[trigger] f.cells[i]) == o.cells[i],
    ensures
        o.occupied(c) ==> f.occupied(c),
{
    if o.occupied(c) {
        let i = lemma_plan_witness(o.sites(), c);
        assert(f.cells[i] == o.cells[i]);
        lemma_plan_index(f.sites(), i);
    }
}

/// Two buildings that differ in the states of walls only have the same plan,
/// and both keep the invariant or neither does.
pub proof fn lemma_same_but_walls(a: Building, b: Building)
    requires
        a.same_but_walls(b),
    ensures
        a.sites() == b.sites(),
        a.plan() == b.plan(),
        a.wf() ==> b.wf(),
{
    assert(a.sites() =~= b.sites());
    if a.wf() {
        assert forall|i: int| 0 <= i < b.cells.len() implies #[trigger] b.cell_ok(i) by {
            assert(a.cell_ok(i));
        }
        assert forall|r: int| 0 <= r < b.rooms.len() implies #[trigger] b.room_ok(r) by {
            assert(a.room_ok(r));
        }
    }
}

/// Whether `c` is a neighbour of one of `members`.
pub open spec fn borders(members: Seq<Coord>, c: Coord) -> bool {
    exists|j: int, e: int|
        0 <= j < members.len() && 0 <= e < 4 && (#[trigger] members[j].neighbor(e)) == c
}

/// Whether `c` is a neighbour of one of the first `k` members, or the
/// neighbour of member `k` in one of the first `d` directions.
pub open spec fn reached(members: Seq<Coord>, k: int, d: int, c: Coord) -> bool {
    exists|j: int, e: int|
        0 <= j < members.len() && 0 <= e < 4 && (j < k || (j == k && e < d)) && (
        #[trigger] members[j].neighbor(e)) == c
}

/// Whether the list holds the coordinate.
pub fn holds_coord(v: &Vec<Coord>, c: &Coord) -> (r: bool)
    ensures
        r == v@.contains(*c),
{
    let mut i: usize = 0;
    while i < v.len()
        invariant
            i <= v.len(),
            forall|j: int| 0 <= j < i ==> v[j] != *c,
        decreases v.len() - i,
    {
        if v[i] == *c {
            return true;
        }
        i += 1;
    }
    false
}

/// The quotient of `a` by the length of a cell, rounded down.
fn floor_div(a: i64) -> (q: i64)
    requires
        -0x1_0000_0000_0000 <= a <= 0x1_0000_0000_0000,
    ensures
        q == (a as int) / (CELL_SIZE as int),
{
    assert(CELL_SIZE == 30000);
    if a >= 0 {
        a / (CELL_SIZE as i64)
    } else {
        -((-a + (CELL_SIZE as i64 - 1)) / (CELL_SIZE as i64))
    }
}

/// The middle of a cell belongs to the coordinate of the cell: the way from
/// a coordinate to its position and back leads to the coordinate.
pub proof fn lemma_pos_round_trip(origin: Pos, c: Coord)
    requires
        origin_ok(origin),
    ensures
        pos_coord(origin, coord_pos(origin, c)) == c,
{
    assert(CELL_SIZE == 30000);
    assert(CELL_SIZE_2 == 15000);
}

/// Every position in the square of a cell, from half a cell below its middle
/// to just under half a cell above it on each axis, belongs to the coordinate
/// of the cell.
pub proof fn lemma_pos_in_cell(origin: Pos, c: Coord, pos: Pos)
    requires
        origin_ok(origin),
        coord_pos(origin, c).x - CELL_SIZE_2 <= pos.x < coord_pos(origin, c).x + CELL_SIZE_2,
        coord_pos(origin, c).z - CELL_SIZE_2 <= pos.z < coord_pos(origin, c).z + CELL_SIZE_2,
    ensures
        pos_coord(origin, pos) == c,
{
    assert(CELL_SIZE == 30000);
    assert(CELL_SIZE_2 == 15000);
    assert(coord_pos(origin, c).x == origin.x + c.x * 30000);
    assert(coord_pos(origin, c).z == origin.z + c.z * 30000);
    let ax = pos.x - origin.x + 15000;
    let az = pos.z - origin.z + 15000;
    assert(ax / 30000 == c.x) by {
        assert(c.x * 30000 <= ax < c.x * 30000 + 30000);
    }
    assert(az / 30000 == c.z) by {
        assert(c.z * 30000 <= az < c.z * 30000 + 30000);
    }
}

/// The number nearest to `v` that a coordinate can hold.
fn clamp(v: i64) -> (r: i16)
    ensures
        r == clamp_coord(v as int),
{
    if v < i16::MIN as i64 {
        i16::MIN
    } else if v > i16::MAX as i64 {
        i16::MAX
    } else {
        v as i16
    }
}

} // verus!
