//! Rooms: connected sets of cells that grow to a target size.

use crate::building::{borders, Building};
use crate::cell::Cell;
use crate::coord::Coord;
use crate::random::{choose_coord, random_range};
use vstd::prelude::*;

verus! {

/// The number of target sizes that a random room can have.
pub const MAX_SIZE: usize = 8;

/// The smallest target size of a random room.
pub const MIN_SIZE: usize = 2;

/// What a room is used as.
#[derive(Debug, Hash, Clone, Copy, PartialEq, Eq, Structural)]
pub enum RoomType {
    Bedroom,
    Kitchen,
}

/// The number of room types.
pub const ROOM_TYPES: usize = 2;

/// The floor material of one room type: what has to be loaded to show it.
#[derive(Debug, Clone, Copy)]
pub struct FloorMat {
    pub room_type: RoomType,
    /// The path of the texture, below the asset directory.
    pub texture: &'static str,
}

impl RoomType {
    /// The place of the room type in the table of floor materials.
    pub open spec fn slot(self) -> int {
        match self {
            RoomType::Bedroom => 0,
            RoomType::Kitchen => 1,
        }
    }

    /// The room type that stands for the draw `n`: a bedroom for 0, a
    /// kitchen for any other number.
    pub open spec fn of_draw(n: int) -> RoomType {
        if n == 0 {
            RoomType::Bedroom
        } else {
            RoomType::Kitchen
        }
    }

    /// The path of the floor texture of the room type.
    pub open spec fn texture(self) -> Seq<char> {
        match self {
            RoomType::Bedroom => "room/floor/wood_floor_2x.jpg"@,
            RoomType::Kitchen => "room/floor/kitchen.jpg"@,
        }
    }

    /// The place of the room type in the table of floor materials.
    pub fn index(&self) -> (i: usize)
        ensures
            i == self.slot(),
            i < ROOM_TYPES,
    {
        match self {
            RoomType::Bedroom => 0,
            RoomType::Kitchen => 1,
        }
    }

    /// The room type that stands for the draw `n`.
    pub fn from_draw(n: i64) -> (t: RoomType)
        ensures
            t == RoomType::of_draw(n as int),
    {
        if n == 0 {
            RoomType::Bedroom
        } else {
            RoomType::Kitchen
        }
    }

    /// The floor material of the room type.
    pub fn material(&self) -> (m: FloorMat)
        ensures
            m.room_type == *self,
            m.texture@ == self.texture(),
    {
        match self {
            RoomType::Bedroom => FloorMat {
                room_type: RoomType::Bedroom,
                texture: "room/floor/wood_floor_2x.jpg",
            },
            RoomType::Kitchen => FloorMat {
                room_type: RoomType::Kitchen,
                texture: "room/floor/kitchen.jpg",
            },
        }
    }
}

/// A room of a building.
#[derive(Debug)]
pub struct Room {
    /// The index of the room in its building.
    pub id: usize,
    /// The coordinates of the room's cells, each once, in the order in which
    /// the room grew.
    pub cells: Vec<Coord>,
    /// The ids of the rooms to which a door leads, each once.
    pub connected_to: Vec<usize>,
    /// The number of cells at which the room stops growing.
    pub size: usize,
    pub room_type: RoomType,
}

impl Room {
    /// Whether a door is on record between this room and room `other`.
    pub open spec fn linked(&self, other: usize) -> bool {
        self.connected_to@.contains(other)
    }

    /// A room without cells and without doors.
    pub fn new(id: usize, size: usize, room_type: RoomType) -> (r: Room)
        ensures
            r.id == id,
            r.size == size,
            r.room_type == room_type,
            r.cells@.len() == 0,
            r.connected_to@.len() == 0,
    {
        Room { id, cells: Vec::new(), connected_to: Vec::new(), size, room_type }
    }

    /// The floor material of the room: that of its type.
    pub fn floor_mat(&self) -> (m: FloorMat)
        ensures
            m.room_type == self.room_type,
            m.texture@ == self.room_type.texture(),
    {
        self.room_type.material()
    }

    /// The floor materials that have to be loaded before a room is shown:
    /// one for each room type, each at the place of its type.
    pub fn load_materials() -> (table: Vec<FloorMat>)
        ensures
            table@.len() == ROOM_TYPES,
            forall|t: RoomType|
                {
                    &&& (#[trigger] table@[t.slot()]).room_type == t
                    &&& table@[t.slot()].texture@ == t.texture()
                },
    {
        let table = vec![RoomType::Bedroom.material(), RoomType::Kitchen.material()];
        table
    }

    /// The number of cells.
    pub fn len(&self) -> (n: usize)
        ensures
            n == self.cells@.len(),
    {
        self.cells.len()
    }

    /// Whether the room has no cell.
    pub fn is_empty(&self) -> (r: bool)
        ensures
            r == (self.cells@.len() == 0),
    {
        self.cells.len() == 0
    }

    /// Whether a door is on record between this room and room `other`.
    pub fn is_linked(&self, other: usize) -> (r: bool)
        ensures
            r == self.linked(other),
    {
        let mut k: usize = 0;
        while k < self.connected_to.len()
            invariant
                k <= self.connected_to.len(),
                forall|j: int| 0 <= j < k ==> self.connected_to[j] != other,
            decreases self.connected_to.len() - k,
        {
            if self.connected_to[k] == other {
                return true;
            }
            k += 1;
        }
        false
    }
}

/// What seeding a room does to a building: `after` is `before` with one more
/// room, `id`, grown from `start`.
///
/// The cells and rooms of `before` are untouched. The cells of the new room
/// follow those of `before`, in the order in which the room lists them. The
/// room starts at `start`; each further cell was free and touches an earlier
/// cell of the room. The room has reached its target size, or there is no
/// free coordinate left around it. The walls of its cells are resolved.
pub open spec fn seeded(before: Building, after: Building, id: usize, start: Coord) -> bool {
    let room = after.rooms[id as int];
    let n0 = before.cells.len() as int;
    &&& after.wf()
    &&& id == before.rooms.len()
    &&& after.rooms.len() == id + 1
    &&& forall|q: int| 0 <= q < id ==> (#[trigger] after.rooms[q]) == before.rooms[q]
    &&& forall|i: int| 0 <= i < n0 ==> (#[trigger] after.cells[i]) == before.cells[i]
    &&& after.cells.len() == n0 + room.cells.len()
    &&& after.bounds == before.bounds
    &&& after.origin == before.origin
    &&& after.navigated == before.navigated
    &&& after.nav == before.nav
    &&& room.id == id
    &&& room.connected_to@.len() == 0
    &&& room.size > 0 ==> room.cells.len() > 0
    &&& room.cells.len() > 0 ==> room.cells[0] == start
    &&& forall|k: int|
        0 <= k < room.cells.len() ==> {
            &&& (#[trigger] after.cells[n0 + k]).coord == room.cells[k]
            &&& after.cells[n0 + k].room == id
            &&& after.resolved(n0 + k)
            &&& after.doorless(n0 + k)
            &&& after.cells[n0 + k].unlinked()
        }
    &&& forall|k: int|
        1 <= k < room.cells.len() ==> {
            &&& before.free(#[trigger] room.cells[k])
            &&& borders(room.cells@.take(k), room.cells[k])
        }
    &&& room.cells.len() == room.size || forall|c: Coord|
        !(#[trigger] after.free(c) && borders(room.cells@, c))
    &&& before.walls_resolved() ==> after.walls_resolved()
    &&& before.no_doors() ==> after.no_doors()
    &&& before.no_links() ==> after.no_links()
}

impl Room {
    /// Seeds a room of random target size and type at `start_coord` and
    /// grows it: see [`Room::create_sized`].
    pub fn create(building: &mut Building, start_coord: Coord) -> (id: usize)
        requires
            old(building).wf(),
            start_coord.inner(),
            !old(building).occupied(start_coord),
        ensures
            seeded(*old(building), *final(building), id, start_coord),
            MIN_SIZE <= final(building).rooms[id as int].size < MIN_SIZE + MAX_SIZE,
    {
        let draw = random_range(0, MAX_SIZE as i64);
        let size = draw as usize + MIN_SIZE;
        let room_type = RoomType::from_draw(random_range(0, ROOM_TYPES as i64));
        Room::create_sized(building, start_coord, size, room_type)
    }

    /// Seeds a room at the unoccupied `start_coord` and grows it cell by
    /// cell, each time into a random free coordinate that touches the room,
    /// until it has `size` cells or no such coordinate is left. Then resolves
    /// the walls of its cells. Returns the id of the room.
    pub fn create_sized(
        building: &mut Building,
        start_coord: Coord,
        size: usize,
        room_type: RoomType,
    ) -> (id: usize)
        requires
            old(building).wf(),
            start_coord.inner(),
            !old(building).occupied(start_coord),
        ensures
            seeded(*old(building), *final(building), id, start_coord),
            final(building).rooms[id as int].size == size,
            final(building).rooms[id as int].room_type == room_type,
    {
        let n0 = building.cells.len();
        let id = building.open_room(size, room_type);
        let mut stuck = false;
        while !stuck && building.rooms[id].cells.len() < size
            invariant
                building.wf(),
                old(building).wf(),
                start_coord.inner(),
                !old(building).occupied(start_coord),
                id == old(building).rooms.len(),
                n0 == old(building).cells.len(),
                building.rooms.len() == id + 1,
                forall|q: int| 0 <= q < id ==> (#[trigger] building.rooms[q]) == old(building).rooms[q],
                forall|i: int| 0 <= i < n0 ==> (#[trigger] building.cells[i]) == old(building).cells[i],
                building.cells.len() == n0 + building.rooms[id as int].cells.len(),
                building.rooms[id as int].size == size,
                building.rooms[id as int].room_type == room_type,
                building.rooms[id as int].connected_to@.len() == 0,
                building.bounds == old(building).bounds,
                building.origin == old(building).origin,
                building.navigated == old(building).navigated,
                building.nav == old(building).nav,
                forall|k: int|
                    0 <= k < building.rooms[id as int].cells.len() ==> {
                        &&& (#[trigger] building.cells[n0 + k]).coord
                            == building.rooms[id as int].cells[k]
                        &&& building.cells[n0 + k].room == id
                        &&& building.cells[n0 + k].fresh()
                    },
                building.rooms[id as int].cells.len() > 0 ==> building.rooms[id as int].cells[0]
                    == start_coord,
                forall|k: int|
                    1 <= k < building.rooms[id as int].cells.len() ==> {
                        &&& old(building).free(#[trigger] building.rooms[id as int].cells[k])
                        &&& borders(
                            building.rooms[id as int].cells@.take(k),
                            building.rooms[id as int].cells[k],
                        )
                    },
                forall|c: Coord, q: usize|
                    q < id ==> (#[trigger] building.plan().contains_pair(c, q) <==> old(
                        building,
                    ).plan().contains_pair(c, q)),
                forall|c: Coord|
                    #![trigger building.plan().dom().contains(c)]
                    building.plan().dom().contains(c) ==> old(building).plan().dom().contains(c)
                        || building.rooms[id as int].cells@.contains(c),
                forall|c: Coord|
                    #![trigger old(building).plan().dom().contains(c)]
                    old(building).plan().dom().contains(c) ==> building.plan().dom().contains(c),
                stuck ==> building.rooms[id as int].cells.len() > 0,
                stuck ==> forall|c: Coord|
                    !(#[trigger] building.free(c) && borders(building.rooms[id as int].cells@, c)),
            decreases
                    size - building.rooms[id as int].cells.len() + (if stuck {
                        0int
                    } else {
                        1int
                    }),
        {
            let frontier = building.frontier_of(&building.rooms[id].cells);
            let picked = choose_coord(&frontier);
            let ghost mid = *building;
            let ghost members = building.rooms[id as int].cells@;
            if picked.is_some() {
                let coord = picked.unwrap();
                Cell::new(coord, id, building);
                proof {
                    lemma_grown(*old(building), mid, *building, id, coord);
                    assert(building.rooms[id as int].cells@.take(members.len() as int) == members);
                }
            } else if building.rooms[id].is_empty() {
                Cell::new(start_coord, id, building);
                proof {
                    lemma_grown(*old(building), mid, *building, id, start_coord);
                }
            } else {
                stuck = true;
                proof {
                    assert forall|c: Coord|
                        !(#[trigger] building.free(c) && borders(
                            building.rooms[id as int].cells@,
                            c,
                        )) by {
                        if building.free(c) && borders(members, c) {
                            assert(frontier@.contains(c));
                        }
                    }
                }
            }
        }
        let ghost grown = *building;
        proof {
            assert(grown.room_ok(id as int));
        }
        let mut i: usize = n0;
        while i < building.cells.len()
            invariant
                n0 <= i <= building.cells.len(),
                building.wf(),
                grown.wf(),
                grown.same_but_walls(*building),
                building.plan() == grown.plan(),
                forall|j: int|
                    0 <= j < n0 ==> (#[trigger] building.cells[j]).wall_state
                        == grown.cells[j].wall_state,
                forall|j: int| n0 <= j < i ==> #[trigger] building.resolved(j),
                forall|j: int| n0 <= j < i ==> #[trigger] building.doorless(j),
            decreases building.cells.len() - i,
        {
            let ghost before = *building;
            Cell::collapse_walls(building, i);
            proof {
                assert forall|j: int| n0 <= j < i + 1 implies #[trigger] building.resolved(j) by {
                    if j < i {
                        assert(before.resolved(j));
                    }
                }
                assert forall|j: int| n0 <= j < i + 1 implies #[trigger] building.doorless(j) by {
                    if j < i {
                        assert(before.doorless(j));
                    }
                }
            }
            i += 1;
        }
        proof {
            lemma_seeded(*old(building), grown, *building, id, start_coord);
        }
        id
    }
}

/// One step of growth keeps what [`Room::create_sized`] maintains about the
/// plan: the rooms of `o` hold the same coordinates as before, and the
/// coordinates that `o` does not hold belong to the new room.
proof fn lemma_grown(o: Building, mid: Building, b: Building, id: usize, coord: Coord)
    requires
        o.wf(),
        mid.wf(),
        id == o.rooms.len(),
        id < mid.rooms.len(),
        !mid.plan().dom().contains(coord),
        b.plan() == mid.plan().insert(coord, id),
        b.rooms[id as int].cells@ == mid.rooms[id as int].cells@.push(coord),
        forall|c: Coord, q: usize|
            q < id ==> (#[trigger] mid.plan().contains_pair(c, q) <==> o.plan().contains_pair(c, q)),
        forall|c: Coord|
            #![trigger mid.plan().dom().contains(c)]
            mid.plan().dom().contains(c) ==> o.plan().dom().contains(c) || mid.rooms[id as int].cells@.contains(
                c,
            ),
        forall|c: Coord|
            #![trigger o.plan().dom().contains(c)]
            o.plan().dom().contains(c) ==> mid.plan().dom().contains(c),
    ensures
        forall|c: Coord, q: usize|
            q < id ==> (#[trigger] b.plan().contains_pair(c, q) <==> o.plan().contains_pair(c, q)),
        forall|c: Coord|
            #![trigger b.plan().dom().contains(c)]
            b.plan().dom().contains(c) ==> o.plan().dom().contains(c) || b.rooms[id as int].cells@.contains(
                c,
            ),
        forall|c: Coord|
            #![trigger o.plan().dom().contains(c)]
            o.plan().dom().contains(c) ==> b.plan().dom().contains(c),
        !o.plan().dom().contains(coord),
{
    let old_members = mid.rooms[id as int].cells@;
    let members = b.rooms[id as int].cells@;
    assert forall|c: Coord, q: usize| q < id implies (#[trigger] b.plan().contains_pair(c, q)
        <==> o.plan().contains_pair(c, q)) by {
        assert(mid.plan().contains_pair(c, q) <==> o.plan().contains_pair(c, q));
    }
    assert forall|c: Coord|
        #![trigger b.plan().dom().contains(c)]
        b.plan().dom().contains(c) implies o.plan().dom().contains(c) || members.contains(c) by {
        if c == coord {
            assert(members[old_members.len() as int] == coord);
        } else {
            if old_members.contains(c) {
                let w = choose|w: int| 0 <= w < old_members.len() && old_members[w] == c;
                assert(members[w] == c);
            }
        }
    }
}

/// After the walls of the new cells are resolved, the building is seeded.
proof fn lemma_seeded(o: Building, grown: Building, b: Building, id: usize, start: Coord)
    requires
        o.wf(),
        b.wf(),
        grown.wf(),
        grown.same_but_walls(b),
        b.plan() == grown.plan(),
        id == o.rooms.len(),
        grown.rooms.len() == id + 1,
        forall|q: int| 0 <= q < id ==> (#[trigger] grown.rooms[q]) == o.rooms[q],
        forall|i: int| 0 <= i < o.cells.len() ==> (#[trigger] grown.cells[i]) == o.cells[i],
        grown.cells.len() == o.cells.len() + grown.rooms[id as int].cells.len(),
        grown.rooms[id as int].connected_to@.len() == 0,
        grown.bounds == o.bounds,
        grown.origin == o.origin,
        grown.navigated == o.navigated,
        grown.nav == o.nav,
        forall|k: int|
            0 <= k < grown.rooms[id as int].cells.len() ==> {
                &&& (#[trigger] grown.cells[o.cells.len() + k]).coord == grown.rooms[id as int].cells[k]
                &&& grown.cells[o.cells.len() + k].room == id
                &&& grown.cells[o.cells.len() + k].fresh()
            },
        grown.rooms[id as int].cells.len() > 0 ==> grown.rooms[id as int].cells[0] == start,
        grown.rooms[id as int].size > 0 ==> grown.rooms[id as int].cells.len() > 0,
        forall|k: int|
            1 <= k < grown.rooms[id as int].cells.len() ==> {
                &&& o.free(#[trigger] grown.rooms[id as int].cells[k])
                &&& borders(grown.rooms[id as int].cells@.take(k), grown.rooms[id as int].cells[k])
            },
        forall|c: Coord, q: usize|
            q < id ==> (#[trigger] grown.plan().contains_pair(c, q) <==> o.plan().contains_pair(c, q)),
        grown.rooms[id as int].cells.len() == grown.rooms[id as int].size || forall|c: Coord|
            !(#[trigger] grown.free(c) && borders(grown.rooms[id as int].cells@, c)),
        forall|j: int|
            0 <= j < o.cells.len() ==> (#[trigger] b.cells[j]).wall_state == grown.cells[j].wall_state,
        forall|j: int| o.cells.len() <= j < b.cells.len() ==> #[trigger] b.resolved(j),
        forall|j: int| o.cells.len() <= j < b.cells.len() ==> #[trigger] b.doorless(j),
    ensures
        seeded(o, b, id, start),
{
    let n0 = o.cells.len() as int;
    let room = b.rooms[id as int];
    assert(b.room_ok(id as int));
    assert forall|k: int| 0 <= k < room.cells.len() implies {
        &&& (#[trigger] b.cells[n0 + k]).coord == room.cells[k]
        &&& b.cells[n0 + k].room == id
        &&& b.resolved(n0 + k)
        &&& b.doorless(n0 + k)
        &&& b.cells[n0 + k].unlinked()
    } by {
        assert(grown.cells[n0 + k].fresh());
    }
    assert(room.cells.len() == room.size || forall|c: Coord|
        !(#[trigger] b.free(c) && borders(room.cells@, c))) by {
        if room.cells.len() != room.size {
            assert forall|c: Coord| !(#[trigger] b.free(c) && borders(room.cells@, c)) by {
                assert(b.free(c) == grown.free(c));
            }
        }
    }
    if o.walls_resolved() {
        assert forall|i: int| 0 <= i < b.cells.len() implies #[trigger] b.resolved(i) by {
            if i < n0 {
                assert(o.resolved(i));
                assert(o.cell_ok(i));
            }
        }
    }
    if o.no_doors() {
        assert forall|i: int| 0 <= i < b.cells.len() implies #[trigger] b.doorless(i) by {
            if i < n0 {
                assert(o.doorless(i));
            }
        }
    }
}

} // verus!
