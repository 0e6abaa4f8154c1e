//! Doors: the rules that join rooms and open a building to the outside.

use crate::building::{lemma_plan_index, lemma_plan_witness, site_at, Building};
use crate::cell::Cell;
use crate::coord::{opposite, Coord};
use crate::room::Room;
use crate::wall::State;
use vstd::prelude::*;

verus! {

impl Building {
    /// Whether cell `j` is the neighbour of cell `i` in direction `d`.
    pub open spec fn faces(&self, i: int, d: int, j: int) -> bool {
        &&& 0 <= i < self.cells.len()
        &&& 0 <= j < self.cells.len()
        &&& 0 <= d < 4
        &&& self.cells[j].coord == self.cells[i].coord.neighbor(d)
    }

    /// Whether side `d` of cell `i` is a door from room `a` into room `b`.
    pub open spec fn door_between(&self, a: usize, b: usize, i: int, d: int) -> bool {
        &&& 0 <= i < self.cells.len()
        &&& 0 <= d < 4
        &&& self.cells[i].room == a
        &&& self.cells[i].wall_state[d] == State::Door
        &&& self.plan().contains_pair(self.cells[i].coord.neighbor(d), b)
    }

    /// Whether exactly one door leads from room `a` into room `b`.
    pub open spec fn one_door(&self, a: usize, b: usize) -> bool {
        exists|i: int, d: int|
            {
                &&& #[trigger] self.door_between(a, b, i, d)
                &&& forall|j: int, e: int| #[trigger]
                    self.door_between(a, b, j, e) ==> j == i && e == d
            }
    }

    /// Whether no door leads from room `a` into room `b`.
    pub open spec fn no_door(&self, a: usize, b: usize) -> bool {
        forall|i: int, d: int| !#[trigger] self.door_between(a, b, i, d)
    }

    /// Whether room `a` has on record that a door joins it to room `b`.
    pub open spec fn linked(&self, a: usize, b: usize) -> bool {
        self.rooms[a as int].linked(b)
    }

    /// Whether a cell of room `a` has a cell of room `b` as its neighbour.
    pub open spec fn share_wall(&self, a: usize, b: usize) -> bool {
        exists|i: int, d: int| #[trigger] self.boundary(a, b, i, d)
    }

    /// Whether side `d` of cell `i` is a boundary between room `a`, to which
    /// the cell belongs, and room `b`.
    pub open spec fn boundary(&self, a: usize, b: usize, i: int, d: int) -> bool {
        &&& 0 <= i < self.cells.len()
        &&& 0 <= d < 4
        &&& self.cells[i].room == a
        &&& self.plan().contains_pair(self.cells[i].coord.neighbor(d), b)
    }

    /// Whether the doors between the rooms `a` and `b` are as the records of
    /// the two rooms say: one door each way where they are on record as
    /// joined, none where they are not, and both records agree.
    pub open spec fn pair_ok(&self, a: usize, b: usize) -> bool {
        &&& self.linked(a, b) ==> self.one_door(a, b)
        &&& !self.linked(a, b) ==> self.no_door(a, b)
        &&& self.linked(a, b) == self.linked(b, a)
    }

    /// Whether the doors between any two rooms are as their records say.
    pub open spec fn doors_match_links(&self) -> bool {
        forall|a: usize, b: usize|
            a < self.rooms.len() && b < self.rooms.len() && a != b ==> #[trigger] self.pair_ok(a, b)
    }

    /// Whether every door towards an occupied coordinate is a door on the
    /// other side too.
    pub open spec fn doors_reciprocal(&self) -> bool {
        forall|i: int, d: int, j: int|
            #[trigger] self.faces(i, d, j) && self.cells[i].wall_state[d] == State::Door
                ==> self.cells[j].wall_state[opposite(d)] == State::Door
    }

    /// Whether every two rooms that share a wall are on record as joined.
    pub open spec fn all_joined(&self) -> bool {
        forall|a: usize, b: usize|
            a != b && #[trigger] self.share_wall(a, b) ==> self.linked(a, b)
    }

    /// Whether `other` has the cells and rooms of this building, each cell at
    /// its coordinate and in its room and each room with its cells: only the
    /// states of walls and the records of joined rooms may differ.
    pub open spec fn same_layout(&self, other: Building) -> bool {
        &&& self.cells.len() == other.cells.len()
        &&& forall|i: int|
            0 <= i < self.cells.len() ==> {
                &&& (#[trigger] self.cells[i]).coord == other.cells[i].coord
                &&& self.cells[i].room == other.cells[i].room
                &&& self.cells[i].pos == other.cells[i].pos
                &&& self.cells[i].nav_nodes == other.cells[i].nav_nodes
            }
        &&& self.rooms.len() == other.rooms.len()
        &&& forall|r: int|
            0 <= r < self.rooms.len() ==> {
                &&& (#[trigger] self.rooms[r]).id == other.rooms[r].id
                &&& self.rooms[r].cells == other.rooms[r].cells
                &&& self.rooms[r].size == other.rooms[r].size
                &&& self.rooms[r].room_type == other.rooms[r].room_type
            }
        &&& self.bounds == other.bounds
        &&& self.origin == other.origin
        &&& self.navigated == other.navigated
        &&& self.nav == other.nav
    }

    /// Whether the records of joined rooms in `other` hold those of this
    /// building.
    pub open spec fn links_kept(&self, other: Building) -> bool {
        forall|a: usize, b: usize|
            a < self.rooms.len() && #[trigger] self.linked(a, b) ==> other.linked(a, b)
    }

    /// Whether side `d` of cell `i` faces a cell of another room.
    pub open spec fn between_rooms(&self, i: int, d: int) -> bool {
        let n = self.cells[i].coord.neighbor(d);
        self.plan().dom().contains(n) && self.plan()[n] != self.cells[i].room
    }

    /// Whether a wall differs between this building and `other` only where
    /// `other` has a door between two rooms.
    pub open spec fn walls_kept_or_joined(&self, other: Building) -> bool {
        forall|i: int, d: int|
            0 <= i < self.cells.len() && 0 <= d < 4 ==> {
                ||| (#[trigger] other.cells[i].wall_state[d]) == self.cells[i].wall_state[d]
                ||| other.cells[i].wall_state[d] == State::Door && self.between_rooms(i, d)
            }
    }

    /// Whether side `d` of cell `i` is a side of a cell of room `room`, or
    /// faces one.
    pub open spec fn at_room(&self, i: int, d: int, room: usize) -> bool {
        self.cells[i].room == room || self.plan().contains_pair(
            self.cells[i].coord.neighbor(d),
            room,
        )
    }

    /// Whether a wall differs between this building and `other` only where
    /// `other` has a door between room `room` and another room.
    pub open spec fn walls_kept_or_joined_to(&self, other: Building, room: usize) -> bool {
        forall|i: int, d: int|
            0 <= i < self.cells.len() && 0 <= d < 4 ==> {
                ||| (#[trigger] other.cells[i].wall_state[d]) == self.cells[i].wall_state[d]
                ||| other.cells[i].wall_state[d] == State::Door && self.between_rooms(i, d)
                    && self.at_room(i, d, room)
            }
    }

    /// Whether room `room` is on record as joined to every room with which
    /// it shares a wall.
    pub open spec fn neighbours_linked(&self, room: usize) -> bool {
        forall|q: usize| q != room && #[trigger] self.share_wall(room, q) ==> self.linked(room, q)
    }

    /// Whether the doors that lead from room `room` into other rooms are as
    /// its record says: one door into each room on the record, none into any
    /// other.
    pub open spec fn room_in_step(&self, room: usize) -> bool {
        forall|q: usize|
            q < self.rooms.len() && q != room ==> {
                &&& #[trigger] self.linked(room, q) ==> self.one_door(room, q)
                &&& !self.linked(room, q) ==> self.no_door(room, q)
            }
    }

    /// Whether the doors that lead from room `room` into room `q` in `f` are
    /// as joining room `room` leaves them: where the room is newly on record
    /// as joined to `q` and no door led into `q` before, exactly one door;
    /// everywhere else, the doors that led into `q` before.
    pub open spec fn doors_after(&self, f: Building, room: usize, q: usize) -> bool {
        if f.linked(room, q) && !self.linked(room, q) {
            self.no_door(room, q) ==> f.one_door(room, q)
        } else {
            forall|i: int, d: int| #[trigger]
                f.door_between(room, q, i, d) == self.door_between(room, q, i, d)
        }
    }

    /// Whether the doors that lead from room `room` into every other room in
    /// `f` are as joining room `room` leaves them.
    pub open spec fn doors_joined(&self, f: Building, room: usize) -> bool {
        forall|q: usize| q < self.rooms.len() && q != room ==> #[trigger] self.doors_after(f, room, q)
    }

    /// Whether every record of `other` that this building does not have is a
    /// record of room `room` or a record about it.
    pub open spec fn links_only_with(&self, other: Building, room: usize) -> bool {
        forall|a: usize, b: usize|
            a < self.rooms.len() && #[trigger] other.linked(a, b) ==> self.linked(a, b) || a == room
                || b == room
    }

    /// Whether side `d` of the `k`-th cell of room `a` is the first side, in
    /// the order of the cells of the room and of the four directions, that
    /// faces a cell of room `b`.
    pub open spec fn first_boundary(&self, a: usize, b: usize, k: int, d: int) -> bool {
        let members = self.rooms[a as int].cells@;
        &&& 0 <= k < members.len()
        &&& 0 <= d < 4
        &&& self.plan().contains_pair(members[k].neighbor(d), b)
        &&& forall|m: int, e: int|
            0 <= m < members.len() && 0 <= e < 4 && earlier(m, e, k, d)
                ==> !#[trigger] self.plan().contains_pair(members[m].neighbor(e), b)
    }

    /// The state of side `d` of the cell at `c`.
    pub open spec fn wall_at(&self, c: Coord, d: int) -> State {
        self.cells[site_at(self.sites(), c)].wall_state[d]
    }

    /// Whether `f` has a door from room `a` into room `b` on the first side
    /// of room `a` in this building that faces a cell of room `b`.
    pub open spec fn door_at_first(&self, f: Building, a: usize, b: usize) -> bool {
        exists|k: int, d: int|
            #[trigger] self.first_boundary(a, b, k, d) && f.wall_at(
                self.rooms[a as int].cells[k],
                d,
            ) == State::Door
    }
}

/// Whether side `e` of cell `m` comes before side `d` of cell `k` in a walk
/// over the cells of a room and their sides.
pub open spec fn earlier(m: int, e: int, k: int, d: int) -> bool {
    m < k || (m == k && e < d)
}

/// What carving a door between cell `i` and its neighbour `j` in direction
/// `d` does: `f` is `o` with a door on the two facing sides and with each of
/// the two rooms on the record of the other.
pub open spec fn carved(o: Building, f: Building, i: int, d: int, j: int) -> bool {
    let a = o.cells[i].room;
    let b = o.cells[j].room;
    &&& o.faces(i, d, j)
    &&& a != b
    &&& !o.linked(a, b)
    &&& o.same_layout(f)
    &&& f.cells[i].wall_state[d] == State::Door
    &&& f.cells[j].wall_state[opposite(d)] == State::Door
    &&& forall|x: int, e: int|
        0 <= x < o.cells.len() && 0 <= e < 4 && !(x == i && e == d) && !(x == j && e == opposite(d))
            ==> (#[trigger] f.cells[x].wall_state[e]) == o.cells[x].wall_state[e]
    &&& f.rooms[a as int].connected_to@ == o.rooms[a as int].connected_to@.push(b)
    &&& f.rooms[b as int].connected_to@ == (if o.linked(b, a) {
        o.rooms[b as int].connected_to@
    } else {
        o.rooms[b as int].connected_to@.push(a)
    })
    &&& forall|r: int|
        0 <= r < o.rooms.len() && r != a && r != b ==> (#[trigger] f.rooms[r]).connected_to
            == o.rooms[r].connected_to
}

/// A building that differs from a well-formed one in walls and in valid
/// records only is well-formed and has the same plan.
pub proof fn lemma_same_layout(o: Building, f: Building)
    requires
        o.wf(),
        o.same_layout(f),
        forall|r: int|
            0 <= r < f.rooms.len() ==> {
                &&& (#[trigger] f.rooms[r]).connected_to@.no_duplicates()
                &&& forall|k: int|
                    0 <= k < f.rooms[r].connected_to.len() ==> {
                        &&& (#[trigger] f.rooms[r].connected_to[k]) < f.rooms.len()
                        &&& f.rooms[r].connected_to[k] != r
                    }
            },
    ensures
        f.wf(),
        f.sites() == o.sites(),
        f.plan() == o.plan(),
{
    assert(f.sites() =~= o.sites());
    assert forall|i: int| 0 <= i < f.cells.len() implies #[trigger] f.cell_ok(i) by {
        assert(o.cell_ok(i));
    }
    assert forall|r: int| 0 <= r < f.rooms.len() implies #[trigger] f.room_ok(r) by {
        assert(o.room_ok(r));
    }
}

/// Pushing onto a list without duplicates.
proof fn lemma_push_link(list: Seq<usize>, x: usize, bound: int, own: int)
    requires
        list.no_duplicates(),
        !list.contains(x),
        x < bound,
        x != own,
        forall|k: int| 0 <= k < list.len() ==> (#[trigger] list[k]) < bound && list[k] != own,
    ensures
        list.push(x).no_duplicates(),
        forall|k: int|
            0 <= k < list.push(x).len() ==> (#[trigger] list.push(x)[k]) < bound && list.push(x)[k]
                != own,
        forall|y: usize| list.push(x).contains(y) <==> list.contains(y) || y == x,
{
    let grown = list.push(x);
    assert forall|y: usize| grown.contains(y) <==> list.contains(y) || y == x by {
        if list.contains(y) {
            let k = choose|k: int| 0 <= k < list.len() && list[k] == y;
            assert(grown[k] == y);
        }
        if y == x {
            assert(grown[list.len() as int] == x);
        }
    }
}

/// Carving keeps the invariant and the plan.
pub proof fn lemma_carved_wf(o: Building, f: Building, i: int, d: int, j: int)
    requires
        o.wf(),
        carved(o, f, i, d, j),
    ensures
        f.wf(),
        f.plan() == o.plan(),
        f.sites() == o.sites(),
        forall|x: usize, y: usize|
            x < o.rooms.len() ==> (#[trigger] f.linked(x, y) <==> o.linked(x, y) || (x
                == o.cells[i].room && y == o.cells[j].room) || (x == o.cells[j].room && y
                == o.cells[i].room)),
{
    let a = o.cells[i].room;
    let b = o.cells[j].room;
    assert(o.cell_ok(i));
    assert(o.cell_ok(j));
    assert(o.room_ok(a as int));
    assert(o.room_ok(b as int));
    lemma_push_link(o.rooms[a as int].connected_to@, b, o.rooms.len() as int, a as int);
    if !o.linked(b, a) {
        lemma_push_link(o.rooms[b as int].connected_to@, a, o.rooms.len() as int, b as int);
    }
    assert forall|r: int| 0 <= r < f.rooms.len() implies {
        &&& (#[trigger] f.rooms[r]).connected_to@.no_duplicates()
        &&& forall|k: int|
            0 <= k < f.rooms[r].connected_to.len() ==> {
                &&& (#[trigger] f.rooms[r].connected_to[k]) < f.rooms.len()
                &&& f.rooms[r].connected_to[k] != r
            }
    } by {
        assert(o.room_ok(r));
    }
    lemma_same_layout(o, f);
}

/// The doors of a building after carving are those before it and the new
/// door, seen from each of its two sides.
pub proof fn lemma_carved_doors(o: Building, f: Building, i: int, d: int, j: int)
    requires
        o.wf(),
        carved(o, f, i, d, j),
    ensures
        forall|x: usize, y: usize, i2: int, d2: int| #[trigger]
            f.door_between(x, y, i2, d2) <==> {
                ||| o.door_between(x, y, i2, d2)
                ||| (x == o.cells[i].room && y == o.cells[j].room && i2 == i && d2 == d)
                ||| (x == o.cells[j].room && y == o.cells[i].room && i2 == j && d2 == opposite(d))
            },
{
    let a = o.cells[i].room;
    let b = o.cells[j].room;
    lemma_carved_wf(o, f, i, d, j);
    assert(o.cell_ok(i));
    lemma_plan_index(o.sites(), i);
    lemma_plan_index(o.sites(), j);
}

/// Carving keeps the doors and the records in step.
pub proof fn lemma_carved_match(o: Building, f: Building, i: int, d: int, j: int)
    requires
        o.wf(),
        o.doors_match_links(),
        carved(o, f, i, d, j),
    ensures
        f.doors_match_links(),
{
    let a = o.cells[i].room;
    let b = o.cells[j].room;
    lemma_carved_wf(o, f, i, d, j);
    lemma_carved_doors(o, f, i, d, j);
    assert forall|x: usize, y: usize|
        x < f.rooms.len() && y < f.rooms.len() && x != y implies #[trigger] f.pair_ok(x, y) by {
        assert(o.pair_ok(x, y));
        if x == a && y == b {
            assert(f.door_between(a, b, i, d));
        } else if x == b && y == a {
            assert(f.door_between(b, a, j, opposite(d)));
        } else {
            assert forall|i2: int, d2: int|
                f.door_between(x, y, i2, d2) == o.door_between(x, y, i2, d2) by {}
        }
    }
}

/// Carving keeps every door a door on both sides, and every wall resolved.
pub proof fn lemma_carved_walls(o: Building, f: Building, i: int, d: int, j: int)
    requires
        o.wf(),
        carved(o, f, i, d, j),
    ensures
        o.doors_reciprocal() ==> f.doors_reciprocal(),
        o.walls_resolved() ==> f.walls_resolved(),
        o.walls_kept_or_joined(f),
        o.walls_kept_or_joined_to(f, o.cells[i].room),
        o.links_kept(f),
        o.links_only_with(f, o.cells[i].room),
{
    lemma_carved_wf(o, f, i, d, j);
    assert(o.cell_ok(i));
    lemma_plan_index(o.sites(), i);
    lemma_plan_index(o.sites(), j);
    if o.doors_reciprocal() {
        assert forall|i2: int, d2: int, j2: int|
            #[trigger] f.faces(i2, d2, j2) && f.cells[i2].wall_state[d2]
                == State::Door implies f.cells[j2].wall_state[opposite(d2)] == State::Door by {
            assert(o.faces(i2, d2, j2));
            lemma_plan_index(o.sites(), j2);
        }
    }
    if o.walls_resolved() {
        assert forall|x: int| 0 <= x < f.cells.len() implies #[trigger] f.resolved(x) by {
            assert(o.resolved(x));
        }
    }
}

/// Carving a door out of a room keeps the doors of that room and its record
/// in step.
pub proof fn lemma_carved_room(o: Building, f: Building, i: int, d: int, j: int)
    requires
        o.wf(),
        carved(o, f, i, d, j),
        o.room_in_step(o.cells[i].room),
    ensures
        f.room_in_step(o.cells[i].room),
{
    let a = o.cells[i].room;
    let b = o.cells[j].room;
    lemma_carved_wf(o, f, i, d, j);
    lemma_carved_doors(o, f, i, d, j);
    assert(o.cell_ok(i));
    assert(o.cell_ok(j));
    assert forall|q: usize| q < f.rooms.len() && q != a implies {
        &&& #[trigger] f.linked(a, q) ==> f.one_door(a, q)
        &&& !f.linked(a, q) ==> f.no_door(a, q)
    } by {
        assert(f.linked(a, q) <==> o.linked(a, q) || q == b);
        assert(o.linked(a, q) ==> o.one_door(a, q));
        assert(!o.linked(a, q) ==> o.no_door(a, q));
        if q == b {
            assert(f.door_between(a, b, i, d));
            assert forall|i2: int, d2: int| #[trigger] f.door_between(a, b, i2, d2) implies i2 == i
                && d2 == d by {
                assert(!o.door_between(a, b, i2, d2));
            }
        } else {
            assert forall|i2: int, d2: int|
                f.door_between(a, q, i2, d2) == o.door_between(a, q, i2, d2) by {}
            if o.linked(a, q) {
                let (wi, wd) = choose|wi: int, wd: int|
                    {
                        &&& #[trigger] o.door_between(a, q, wi, wd)
                        &&& forall|j2: int, e: int| #[trigger]
                            o.door_between(a, q, j2, e) ==> j2 == wi && e == wd
                    };
                assert(f.door_between(a, q, wi, wd));
                assert forall|j2: int, e: int| #[trigger] f.door_between(a, q, j2, e) implies j2
                    == wi && e == wd by {
                    assert(o.door_between(a, q, j2, e));
                }
            } else {
                assert forall|i2: int, d2: int| !#[trigger] f.door_between(a, q, i2, d2) by {
                    assert(!o.door_between(a, q, i2, d2));
                }
            }
        }
    }
}

/// One more door out of a room leaves the doors of the room as joining it
/// leaves them.
proof fn lemma_doors_joined(o: Building, m: Building, f: Building, i: int, d: int, j: int)
    requires
        o.wf(),
        m.wf(),
        o.same_layout(m),
        o.links_kept(m),
        carved(m, f, i, d, j),
        o.doors_joined(m, m.cells[i].room),
    ensures
        o.doors_joined(f, m.cells[i].room),
{
    let a = m.cells[i].room;
    let b = m.cells[j].room;
    lemma_carved_wf(m, f, i, d, j);
    lemma_carved_doors(m, f, i, d, j);
    assert(m.cell_ok(i));
    assert(m.cell_ok(j));
    assert forall|q: usize| q < o.rooms.len() && q != a implies #[trigger] o.doors_after(f, a, q) by {
        assert(o.doors_after(m, a, q));
        assert(f.linked(a, q) <==> m.linked(a, q) || q == b);
        if q == b {
            assert(!o.linked(a, b));
            if o.no_door(a, b) {
                assert(f.door_between(a, b, i, d));
                assert forall|i2: int, d2: int| #[trigger] f.door_between(a, b, i2, d2) implies i2
                    == i && d2 == d by {
                    assert(m.door_between(a, b, i2, d2) == o.door_between(a, b, i2, d2));
                    assert(!o.door_between(a, b, i2, d2));
                }
            }
        } else {
            assert forall|i2: int, d2: int|
                f.door_between(a, q, i2, d2) == m.door_between(a, q, i2, d2) by {}
            if m.linked(a, q) && !o.linked(a, q) {
                if o.no_door(a, q) {
                    let (wi, wd) = choose|wi: int, wd: int|
                        {
                            &&& #[trigger] m.door_between(a, q, wi, wd)
                            &&& forall|j2: int, e: int| #[trigger]
                                m.door_between(a, q, j2, e) ==> j2 == wi && e == wd
                        };
                    assert(f.door_between(a, q, wi, wd));
                    assert forall|j2: int, e: int| #[trigger] f.door_between(a, q, j2, e) implies j2
                        == wi && e == wd by {
                        assert(m.door_between(a, q, j2, e));
                    }
                }
            } else {
                assert forall|i2: int, d2: int| #[trigger]
                    f.door_between(a, q, i2, d2) == o.door_between(a, q, i2, d2) by {
                    assert(m.door_between(a, q, i2, d2) == o.door_between(a, q, i2, d2));
                }
            }
        }
    }
}

impl Room {
    /// Puts room `other` on the record of the rooms that a door joins to this
    /// one. Recording it a second time changes nothing.
    pub fn connect(&mut self, other: usize)
        ensures
            final(self).id == old(self).id,
            final(self).cells == old(self).cells,
            final(self).size == old(self).size,
            final(self).room_type == old(self).room_type,
            final(self).connected_to@ == (if old(self).linked(other) {
                old(self).connected_to@
            } else {
                old(self).connected_to@.push(other)
            }),
    {
        if !self.is_linked(other) {
            self.connected_to.push(other);
        }
    }

    /// Looks at side `d` of cell `index`: where it faces a cell of another
    /// room that is not on record as joined to the room of the cell, carves a
    /// door there and puts each room on the record of the other. Returns the
    /// index of the cell on the other side of the new door, if it carved one.
    pub fn join_across(building: &mut Building, index: usize, d: usize) -> (r: Option<usize>)
        requires
            old(building).wf(),
            index < old(building).cells.len(),
            d < 4,
        ensures
            final(building).wf(),
            final(building).plan() == old(building).plan(),
            old(building).same_layout(*final(building)),
            match r {
                Some(j) => carved(*old(building), *final(building), index as int, d as int, j as int),
                None => {
                    &&& *final(building) == *old(building)
                    &&& forall|b: usize| #[trigger]
                        old(building).boundary(
                            old(building).cells[index as int].room,
                            b,
                            index as int,
                            d as int,
                        ) ==> b == old(building).cells[index as int].room || old(building).linked(
                            old(building).cells[index as int].room,
                            b,
                        )
                },
            },
            old(building).doors_match_links() ==> final(building).doors_match_links(),
            old(building).doors_reciprocal() ==> final(building).doors_reciprocal(),
            old(building).walls_resolved() ==> final(building).walls_resolved(),
            old(building).walls_kept_or_joined(*final(building)),
            old(building).walls_kept_or_joined_to(
                *final(building),
                old(building).cells[index as int].room,
            ),
            old(building).room_in_step(old(building).cells[index as int].room)
                ==> final(building).room_in_step(old(building).cells[index as int].room),
            old(building).links_kept(*final(building)),
            old(building).links_only_with(
                *final(building),
                old(building).cells[index as int].room,
            ),
            forall|b: usize| #[trigger]
                old(building).boundary(
                    old(building).cells[index as int].room,
                    b,
                    index as int,
                    d as int,
                ) && b != old(building).cells[index as int].room ==> final(building).linked(
                    old(building).cells[index as int].room,
                    b,
                ),
    {
        let coord = building.cells[index].coord;
        let a = building.cells[index].room;
        assert(building.cell_ok(index as int));
        let n = coord.step(d);
        match building.find(&n) {
            Some(j) => {
                let b = building.cells[j].room;
                assert(building.cell_ok(j as int));
                if b != a && !building.rooms[a].is_linked(b) {
                    building.rooms[a].connect(b);
                    building.rooms[b].connect(a);
                    Cell::create_door(building, index, j, d);
                    proof {
                        let o = *old(building);
                        let f = *building;
                        lemma_carved_wf(o, f, index as int, d as int, j as int);
                        lemma_carved_walls(o, f, index as int, d as int, j as int);
                        if o.room_in_step(a) {
                            lemma_carved_room(o, f, index as int, d as int, j as int);
                        }
                        if o.doors_match_links() {
                            lemma_carved_match(o, f, index as int, d as int, j as int);
                        }
                    }
                    Some(j)
                } else {
                    None
                }
            },
            None => None,
        }
    }
}

impl Room {
    /// Joins room `room` to its neighbours: walks the cells of the room in
    /// their order and the four sides of each, and carves a door into the
    /// first side that faces each room not yet on record as joined to it.
    pub fn join_rooms(building: &mut Building, room: usize)
        requires
            old(building).wf(),
            room < old(building).rooms.len(),
        ensures
            final(building).wf(),
            final(building).plan() == old(building).plan(),
            old(building).same_layout(*final(building)),
            old(building).doors_match_links() ==> final(building).doors_match_links(),
            old(building).doors_reciprocal() ==> final(building).doors_reciprocal(),
            old(building).walls_resolved() ==> final(building).walls_resolved(),
            old(building).walls_kept_or_joined(*final(building)),
            old(building).walls_kept_or_joined_to(*final(building), room),
            old(building).neighbours_linked(room) ==> *final(building) == *old(building),
            old(building).doors_joined(*final(building), room),
            old(building).room_in_step(room) ==> final(building).room_in_step(room),
            old(building).room_in_step(room) ==> forall|q: usize|
                q != room && #[trigger] final(building).share_wall(room, q) ==> final(building).one_door(room, q),
            old(building).links_kept(*final(building)),
            old(building).links_only_with(*final(building), room),
            forall|b: usize|
                b != room && #[trigger] final(building).share_wall(room, b) ==> final(building).linked(
                    room,
                    b,
                ),
            forall|b: usize|
                b != room && !old(building).linked(room, b) && #[trigger] final(building).linked(
                    room,
                    b,
                ) ==> old(building).door_at_first(*final(building), room, b),
    {
        let n = building.rooms[room].cells.len();
        let mut k: usize = 0;
        while k < n
            invariant
                k <= n,
                n == old(building).rooms[room as int].cells.len(),
                room < old(building).rooms.len(),
                old(building).wf(),
                building.wf(),
                building.plan() == old(building).plan(),
                old(building).same_layout(*building),
                old(building).doors_match_links() ==> building.doors_match_links(),
                old(building).doors_reciprocal() ==> building.doors_reciprocal(),
                old(building).walls_resolved() ==> building.walls_resolved(),
                old(building).walls_kept_or_joined(*building),
                old(building).walls_kept_or_joined_to(*building, room),
                old(building).neighbours_linked(room) ==> *building == *old(building),
                old(building).doors_joined(*building, room),
                old(building).room_in_step(room) ==> building.room_in_step(room),
                old(building).links_kept(*building),
                old(building).links_only_with(*building, room),
                forall|m: int, e: int, b: usize|
                    0 <= m < n && 0 <= e < 4 && earlier(m, e, k as int, 0) && b != room
                        && #[trigger] building.plan().contains_pair(
                        old(building).rooms[room as int].cells[m].neighbor(e),
                        b,
                    ) ==> building.linked(room, b),
                forall|b: usize|
                    b != room && !old(building).linked(room, b) && #[trigger] building.linked(room, b)
                        ==> old(building).door_at_first(*building, room, b),
            decreases n - k,
        {
            let coord = building.rooms[room].cells[k];
            assert(building.room_ok(room as int));
            let found = building.find(&coord);
            let index = found.unwrap();
            let mut d: usize = 0;
            while d < 4
                invariant
                    d <= 4,
                    k < n,
                    n == old(building).rooms[room as int].cells.len(),
                    room < old(building).rooms.len(),
                    index < building.cells.len(),
                    building.cells[index as int].coord == coord,
                    building.cells[index as int].room == room,
                    coord == old(building).rooms[room as int].cells[k as int],
                    old(building).wf(),
                    building.wf(),
                    building.plan() == old(building).plan(),
                    old(building).same_layout(*building),
                    old(building).doors_match_links() ==> building.doors_match_links(),
                    old(building).doors_reciprocal() ==> building.doors_reciprocal(),
                    old(building).walls_resolved() ==> building.walls_resolved(),
                    old(building).walls_kept_or_joined(*building),
                    old(building).walls_kept_or_joined_to(*building, room),
                    old(building).neighbours_linked(room) ==> *building == *old(building),
                    old(building).doors_joined(*building, room),
                    old(building).room_in_step(room) ==> building.room_in_step(room),
                    old(building).links_kept(*building),
                    old(building).links_only_with(*building, room),
                    forall|m: int, e: int, b: usize|
                        0 <= m < n && 0 <= e < 4 && earlier(m, e, k as int, d as int) && b != room
                            && #[trigger] building.plan().contains_pair(
                            old(building).rooms[room as int].cells[m].neighbor(e),
                            b,
                        ) ==> building.linked(room, b),
                    forall|b: usize|
                        b != room && !old(building).linked(room, b) && #[trigger] building.linked(
                            room,
                            b,
                        ) ==> old(building).door_at_first(*building, room, b),
                decreases 4 - d,
            {
                let ghost before = *building;
                let carved_to = Room::join_across(building, index, d);
                proof {
                    let o = *old(building);
                    let f = *building;
                    let members = o.rooms[room as int].cells@;
                    assert(o.cells[index as int].coord == before.cells[index as int].coord);
                    if carved_to is Some {
                        lemma_doors_joined(o, before, f, index as int, d as int, carved_to->0 as int);
                    }
                    assert forall|i: int, e: int| 0 <= i < o.cells.len() && 0 <= e < 4 implies {
                        ||| (#[trigger] f.cells[i].wall_state[e]) == o.cells[i].wall_state[e]
                        ||| f.cells[i].wall_state[e] == State::Door && o.between_rooms(i, e)
                            && o.at_room(i, e, room)
                    } by {
                        assert(before.cells[i].coord == o.cells[i].coord);
                        assert(before.cells[i].wall_state[e] == o.cells[i].wall_state[e] || (
                        before.cells[i].wall_state[e] == State::Door && o.between_rooms(i, e)
                            && o.at_room(i, e, room)));
                        assert(f.cells[i].wall_state[e] == before.cells[i].wall_state[e] || (
                        f.cells[i].wall_state[e] == State::Door && before.between_rooms(i, e)
                            && before.at_room(i, e, room)));
                    }
                    if o.neighbours_linked(room) {
                        if carved_to is Some {
                            let j = carved_to->0 as int;
                            lemma_plan_index(o.sites(), j);
                            assert(o.boundary(room, o.cells[j].room, index as int, d as int));
                            assert(o.share_wall(room, o.cells[j].room));
                        }
                    }
                    assert forall|m: int, e: int, b: usize|
                        0 <= m < n && 0 <= e < 4 && earlier(m, e, k as int, d as int + 1) && b != room
                            && #[trigger] f.plan().contains_pair(members[m].neighbor(e), b) implies f.linked(
                        room,
                        b,
                    ) by {
                        if !earlier(m, e, k as int, d as int) {
                            assert(before.boundary(room, b, index as int, d as int));
                        }
                    }
                    assert forall|b: usize|
                        b != room && !o.linked(room, b) && #[trigger] f.linked(
                            room,
                            b,
                        ) implies o.door_at_first(f, room, b) by {
                        if before.linked(room, b) {
                            let (k0, d0) = choose|k0: int, d0: int|
                                #[trigger] o.first_boundary(room, b, k0, d0) && before.wall_at(
                                    members[k0],
                                    d0,
                                ) == State::Door;
                            assert(o.room_ok(room as int));
                            let y = lemma_plan_witness(o.sites(), members[k0]);
                            assert(before.sites() == o.sites());
                            assert(f.sites() == o.sites());
                        } else {
                            let j = carved_to->0 as int;
                            lemma_plan_index(before.sites(), j);
                            lemma_plan_index(before.sites(), index as int);
                            assert(f.sites() == o.sites());
                            assert(before.sites() == o.sites());
                            assert(o.first_boundary(room, b, k as int, d as int));
                        }
                    }
                }
                d += 1;
            }
            k += 1;
        }
        proof {
            if old(building).room_in_step(room) {
                assert forall|q: usize|
                    q != room && #[trigger] building.share_wall(room, q) implies building.one_door(
                    room,
                    q,
                ) by {
                    let (i, e) = choose|i: int, e: int| #[trigger] building.boundary(room, q, i, e);
                    let x = lemma_plan_witness(building.sites(), building.cells[i].coord.neighbor(e));
                    assert(building.cell_ok(x));
                    assert(building.cell_ok(i));
                    let c = building.cells[i].coord;
                    let members = building.rooms[room as int].cells@;
                    let m = choose|m: int| 0 <= m < members.len() && members[m] == c;
                    assert(earlier(m, e, n as int, 0));
                    assert(building.plan().contains_pair(
                        old(building).rooms[room as int].cells[m].neighbor(e),
                        q,
                    ));
                    assert(building.linked(room, q));
                }
            }
            assert forall|b: usize| b != room && #[trigger] building.share_wall(room, b) implies building.linked(
                room,
                b,
            ) by {
                let (i, e) = choose|i: int, e: int| #[trigger] building.boundary(room, b, i, e);
                assert(building.cell_ok(i));
                let c = building.cells[i].coord;
                let members = building.rooms[room as int].cells@;
                let m = choose|m: int| 0 <= m < members.len() && members[m] == c;
            }
        }
    }
}

impl Building {
    /// Whether no room has another room on record.
    pub open spec fn no_links(&self) -> bool {
        forall|r: int| 0 <= r < self.rooms.len() ==> (#[trigger] self.rooms[r]).connected_to@.len() == 0
    }

    /// Joins every room to its neighbours, room by room in the order of
    /// their ids: see [`Room::join_rooms`]. Afterwards every two rooms that
    /// share a wall are on record as joined; where the doors matched the
    /// records before, exactly one door joins them; and where no room had a
    /// record before, the door of two rooms lies on the first side of the
    /// room with the lower id that faces the other.
    pub fn join_rooms(&mut self)
        requires
            old(self).wf(),
        ensures
            final(self).wf(),
            final(self).plan() == old(self).plan(),
            old(self).same_layout(*final(self)),
            old(self).doors_match_links() ==> final(self).doors_match_links(),
            old(self).doors_reciprocal() ==> final(self).doors_reciprocal(),
            old(self).walls_resolved() ==> final(self).walls_resolved(),
            old(self).walls_kept_or_joined(*final(self)),
            old(self).all_joined() ==> *final(self) == *old(self),
            old(self).links_kept(*final(self)),
            final(self).all_joined(),
            old(self).doors_match_links() ==> forall|a: usize, b: usize|
                a != b && #[trigger] final(self).share_wall(a, b) ==> final(self).one_door(a, b),
            old(self).no_links() ==> forall|a: usize, b: usize|
                a < b && #[trigger] final(self).share_wall(a, b) ==> old(self).door_at_first(
                    *final(self),
                    a,
                    b,
                ),
    {
        let n = self.rooms.len();
        let mut r: usize = 0;
        while r < n
            invariant
                r <= n,
                n == old(self).rooms.len(),
                old(self).wf(),
                self.wf(),
                self.plan() == old(self).plan(),
                old(self).same_layout(*self),
                old(self).doors_match_links() ==> self.doors_match_links(),
                old(self).doors_reciprocal() ==> self.doors_reciprocal(),
                old(self).walls_resolved() ==> self.walls_resolved(),
                old(self).walls_kept_or_joined(*self),
                old(self).all_joined() ==> *self == *old(self),
                old(self).links_kept(*self),
                forall|a: usize, b: usize|
                    a < r && a != b && #[trigger] self.share_wall(a, b) ==> self.linked(a, b),
                forall|a: usize, b: usize|
                    a < n && #[trigger] self.linked(a, b) ==> old(self).linked(a, b) || a < r || b < r,
                old(self).no_links() ==> forall|a: usize, b: usize|
                    a < r && a < b && #[trigger] self.share_wall(a, b) ==> old(self).door_at_first(
                        *self,
                        a,
                        b,
                    ),
            decreases n - r,
        {
            let ghost before = *self;
            Room::join_rooms(self, r);
            proof {
                let o = *old(self);
                let f = *self;
                assert forall|a: usize, b: usize|
                    a < r + 1 && a != b && #[trigger] f.share_wall(a, b) implies f.linked(a, b) by {
                    if a < r {
                        lemma_share_wall(before, f, a, b);
                    }
                }
                if o.no_links() {
                    assert forall|a: usize, b: usize|
                        a < r + 1 && a < b && #[trigger] f.share_wall(a, b) implies o.door_at_first(
                        f,
                        a,
                        b,
                    ) by {
                        lemma_share_wall(before, f, a, b);
                        if a < r {
                            lemma_door_stays(o, before, f, a, b);
                        } else {
                            lemma_first_same(o, before, f, a, b);
                        }
                    }
                }
            }
            r += 1;
        }
        proof {
            assert forall|a: usize, b: usize| a != b && #[trigger] self.share_wall(a, b) implies self.linked(
                a,
                b,
            ) by {
                let (i, e) = choose|i: int, e: int| #[trigger] self.boundary(a, b, i, e);
                assert(self.cell_ok(i));
            }
            if old(self).doors_match_links() {
                assert forall|a: usize, b: usize|
                    a != b && #[trigger] self.share_wall(a, b) implies self.one_door(a, b) by {
                    lemma_one_door(*self, a, b);
                }
            }
            if old(self).no_links() {
                assert forall|a: usize, b: usize|
                    a < b && #[trigger] self.share_wall(a, b) implies old(self).door_at_first(
                    *self,
                    a,
                    b,
                ) by {
                    let (i, e) = choose|i: int, e: int| #[trigger] self.boundary(a, b, i, e);
                    assert(self.cell_ok(i));
                }
            }
        }
    }
}

/// A door on the first side between two rooms stays there while other doors
/// are carved.
proof fn lemma_door_stays(o: Building, m: Building, f: Building, a: usize, b: usize)
    requires
        o.wf(),
        a < o.rooms.len(),
        o.same_layout(m),
        m.same_layout(f),
        o.plan() == m.plan(),
        m.plan() == f.plan(),
        m.walls_kept_or_joined(f),
        o.door_at_first(m, a, b),
    ensures
        o.door_at_first(f, a, b),
{
    let members = o.rooms[a as int].cells@;
    let (k, d) = choose|k: int, d: int|
        #[trigger] o.first_boundary(a, b, k, d) && m.wall_at(members[k], d) == State::Door;
    assert(o.room_ok(a as int));
    let y = lemma_plan_witness(o.sites(), members[k]);
    assert(m.sites() =~= o.sites());
    assert(f.sites() =~= o.sites());
}

/// The first side between two rooms is the same in two buildings of the
/// same layout.
proof fn lemma_first_same(o: Building, m: Building, f: Building, a: usize, b: usize)
    requires
        a < o.rooms.len(),
        o.same_layout(m),
        o.plan() == m.plan(),
        m.door_at_first(f, a, b),
    ensures
        o.door_at_first(f, a, b),
{
    let (k, d) = choose|k: int, d: int|
        #[trigger] m.first_boundary(a, b, k, d) && f.wall_at(m.rooms[a as int].cells[k], d)
            == State::Door;
    assert(o.first_boundary(a, b, k, d));
}

/// Rooms share a wall in a building exactly where they do in a building of
/// the same layout and plan.
pub proof fn lemma_share_wall(o: Building, f: Building, a: usize, b: usize)
    requires
        o.same_layout(f),
        o.plan() == f.plan(),
    ensures
        o.share_wall(a, b) == f.share_wall(a, b),
{
    if o.share_wall(a, b) {
        let (i, e) = choose|i: int, e: int| #[trigger] o.boundary(a, b, i, e);
        assert(f.boundary(a, b, i, e));
    }
    if f.share_wall(a, b) {
        let (i, e) = choose|i: int, e: int| #[trigger] f.boundary(a, b, i, e);
        assert(o.boundary(a, b, i, e));
    }
}

/// Where the doors match the records and every two rooms that share a wall
/// are on record as joined, exactly one door leads from a room into each
/// room with which it shares a wall, and no door into any other room.
pub proof fn lemma_one_door(building: Building, a: usize, b: usize)
    requires
        building.wf(),
        building.doors_match_links(),
        building.all_joined(),
        a != b,
    ensures
        building.share_wall(a, b) ==> building.one_door(a, b),
        !building.share_wall(a, b) ==> building.no_door(a, b),
{
    if building.share_wall(a, b) {
        let (i, e) = choose|i: int, e: int| #[trigger] building.boundary(a, b, i, e);
        assert(building.cell_ok(i));
        let j = lemma_plan_witness(building.sites(), building.cells[i].coord.neighbor(e));
        assert(building.cell_ok(j));
        assert(building.pair_ok(a, b));
    } else {
        assert forall|i: int, d: int| !#[trigger] building.door_between(a, b, i, d) by {
            if building.door_between(a, b, i, d) {
                assert(building.boundary(a, b, i, d));
            }
        }
    }
}

/// A building without doors and without records has its doors and records
/// in step.
pub proof fn lemma_no_doors(building: Building)
    requires
        building.no_doors(),
        building.no_links(),
    ensures
        building.doors_match_links(),
        building.doors_reciprocal(),
{
    assert forall|a: usize, b: usize|
        a < building.rooms.len() && b < building.rooms.len() && a != b implies #[trigger] building.pair_ok(
        a,
        b,
    ) by {
        assert forall|i: int, d: int| !#[trigger] building.door_between(a, b, i, d) by {
            if building.door_between(a, b, i, d) {
                assert(building.doorless(i));
            }
        }
    }
    assert forall|i: int, d: int, j: int|
        #[trigger] building.faces(i, d, j) && building.cells[i].wall_state[d]
            == State::Door implies building.cells[j].wall_state[opposite(d)] == State::Door by {
        assert(building.doorless(i));
    }
}

/// The counters of a pass after one more door in direction `d`.
pub open spec fn counted(count: Seq<(u8, u8)>, d: int) -> Seq<(u8, u8)> {
    count.update(d, ((count[d].0 + 1) as u8, count[d].1))
}

impl Building {
    /// Whether side `d` of cell `i` faces an unoccupied coordinate.
    pub open spec fn exterior(&self, i: int, d: int) -> bool {
        !self.occupied(self.cells[i].coord.neighbor(d))
    }

    /// The first side of cell `i`, from side `d` on, that faces an unoccupied
    /// coordinate in a direction whose counter is below its cap. Each entry of
    /// `count` is the counter and the cap of one direction.
    pub open spec fn outside_slot(&self, i: int, count: Seq<(u8, u8)>, d: int) -> Option<int>
        decreases 4 - d,
    {
        if d < 0 || d >= 4 {
            None
        } else if self.exterior(i, d) && count[d].0 < count[d].1 {
            Some(d)
        } else {
            self.outside_slot(i, count, d + 1)
        }
    }

    /// The counters of a pass over the cells, started with `count`, when it
    /// reaches cell `k`.
    pub open spec fn outside_counts(&self, count: Seq<(u8, u8)>, k: int) -> Seq<(u8, u8)>
        decreases k,
    {
        if k <= 0 {
            count
        } else {
            let c = self.outside_counts(count, k - 1);
            match self.outside_slot(k - 1, c, 0) {
                Some(d) => counted(c, d),
                None => c,
            }
        }
    }

    /// Whether a pass over the cells, started with `count`, carves a door
    /// into side `d` of cell `k`.
    pub open spec fn outside_door(&self, count: Seq<(u8, u8)>, k: int, d: int) -> bool {
        self.outside_slot(k, self.outside_counts(count, k), 0) == Some(d)
    }

    /// Whether side `d` of cell `i` is a door to the outside.
    pub open spec fn outside_door_at(&self, i: int, d: int) -> bool {
        self.cells[i].wall_state[d] == State::Door && self.exterior(i, d)
    }

    /// Whether the building has no door to the outside.
    pub open spec fn no_outside_doors(&self) -> bool {
        forall|i: int, d: int|
            0 <= i < self.cells.len() && 0 <= d < 4 ==> !#[trigger] self.outside_door_at(i, d)
    }

    /// Whether the doors to the outside are those that a pass over the
    /// cells, started with `count`, carves.
    pub open spec fn opened_by(&self, count: Seq<(u8, u8)>) -> bool {
        forall|k: int, d: int|
            0 <= k < self.cells.len() && 0 <= d < 4 ==> #[trigger] self.outside_door_at(k, d)
                == self.outside_door(count, k, d)
    }

    /// Whether `other` has as many cells, each at the coordinate and in the
    /// room of the cell of this building.
    pub open spec fn same_sites(&self, other: Building) -> bool {
        &&& self.cells.len() == other.cells.len()
        &&& forall|i: int|
            0 <= i < self.cells.len() ==> (#[trigger] self.cells[i]).coord == other.cells[i].coord
                && self.cells[i].room == other.cells[i].room
    }

    /// Whether no cell has more than one door to the outside.
    pub open spec fn one_way_out_each(&self) -> bool {
        forall|i: int, d: int, e: int|
            0 <= i < self.cells.len() && 0 <= d < 4 && 0 <= e < 4 && #[trigger] self.outside_door_at(
                i,
                d,
            ) && #[trigger] self.outside_door_at(i, e) ==> d == e
    }

    /// The number of cells below cell `k` that have a door to the outside on
    /// side `d`.
    pub open spec fn outside_doors(&self, d: int, k: int) -> int
        decreases k,
    {
        if k <= 0 {
            0
        } else {
            self.outside_doors(d, k - 1) + (if self.outside_door_at(k - 1, d) {
                1int
            } else {
                0int
            })
        }
    }

    /// Whether `f` is this building with a door on side `d` of cell `i`.
    pub open spec fn with_door(&self, f: Building, i: int, d: int) -> bool {
        &&& self.same_but_walls(f)
        &&& f.cells[i].wall_state[d] == State::Door
        &&& forall|x: int, e: int|
            0 <= x < self.cells.len() && 0 <= e < 4 && !(x == i && e == d) ==> (
            #[trigger] f.cells[x].wall_state[e]) == self.cells[x].wall_state[e]
    }
}

/// The slot of a cell depends on the plan only.
pub proof fn lemma_slot_same(o: Building, f: Building, i: int, count: Seq<(u8, u8)>, d: int)
    requires
        o.same_but_walls(f),
        0 <= i < o.cells.len(),
    ensures
        o.outside_slot(i, count, d) == f.outside_slot(i, count, d),
    decreases 4 - d,
{
    crate::building::lemma_same_but_walls(o, f);
    if 0 <= d < 4 {
        lemma_slot_same(o, f, i, count, d + 1);
    }
}

/// The slot of a cell is one of its four sides, it faces an unoccupied
/// coordinate, and its counter is below its cap.
pub proof fn lemma_slot(o: Building, i: int, count: Seq<(u8, u8)>, d: int)
    ensures
        o.outside_slot(i, count, d) matches Some(e) ==> d <= e < 4 && 0 <= e && o.exterior(i, e)
            && count[e].0 < count[e].1,
    decreases 4 - d,
{
    if 0 <= d < 4 {
        lemma_slot(o, i, count, d + 1);
    }
}

/// A door towards an unoccupied coordinate keeps the walls resolved, the
/// doors reciprocal and the doors in step with the records.
pub proof fn lemma_outside_door(o: Building, f: Building, i: int, d: int)
    requires
        o.wf(),
        0 <= i < o.cells.len(),
        0 <= d < 4,
        o.exterior(i, d),
        o.with_door(f, i, d),
    ensures
        f.wf(),
        f.plan() == o.plan(),
        o.same_layout(f),
        o.walls_resolved() ==> f.walls_resolved(),
        o.doors_reciprocal() ==> f.doors_reciprocal(),
        o.doors_match_links() ==> f.doors_match_links(),
        forall|a: usize, b: usize| #[trigger] f.share_wall(a, b) == o.share_wall(a, b),
{
    crate::building::lemma_same_but_walls(o, f);
    assert forall|a: usize, b: usize| #[trigger] f.share_wall(a, b) == o.share_wall(a, b) by {
        lemma_share_wall(o, f, a, b);
    }
    if o.walls_resolved() {
        assert forall|x: int| 0 <= x < f.cells.len() implies #[trigger] f.resolved(x) by {
            assert(o.resolved(x));
        }
    }
    if o.doors_reciprocal() {
        assert forall|i2: int, d2: int, j2: int|
            #[trigger] f.faces(i2, d2, j2) && f.cells[i2].wall_state[d2]
                == State::Door implies f.cells[j2].wall_state[opposite(d2)] == State::Door by {
            assert(o.faces(i2, d2, j2));
            lemma_plan_index(o.sites(), j2);
        }
    }
    if o.doors_match_links() {
        assert forall|x: usize, y: usize, i2: int, d2: int|
            f.door_between(x, y, i2, d2) == o.door_between(x, y, i2, d2) by {
        }
        assert forall|x: usize, y: usize|
            x < f.rooms.len() && y < f.rooms.len() && x != y implies #[trigger] f.pair_ok(x, y) by {
            assert(o.pair_ok(x, y));
        }
    }
}

impl Cell {
    /// Carves one door to the outside into cell `index`, if a counter allows
    /// it: into the first side, in the order north, east, south, west, that
    /// faces an unoccupied coordinate and whose direction has its counter
    /// below its cap. That counter goes up by one.
    pub fn create_outside_door(building: &mut Building, index: usize, count: &mut [(u8, u8); 4])
        requires
            old(building).wf(),
            index < old(building).cells.len(),
        ensures
            match old(building).outside_slot(index as int, old(count)@, 0) {
                Some(d) => {
                    &&& 0 <= d < 4
                    &&& old(building).exterior(index as int, d)
                    &&& final(count)@ == counted(old(count)@, d)
                    &&& old(building).with_door(*final(building), index as int, d)
                },
                None => {
                    &&& final(count)@ == old(count)@
                    &&& *final(building) == *old(building)
                },
            },
            final(building).wf(),
            final(building).plan() == old(building).plan(),
            old(building).same_but_walls(*final(building)),
            old(building).walls_resolved() ==> final(building).walls_resolved(),
            old(building).doors_reciprocal() ==> final(building).doors_reciprocal(),
            old(building).doors_match_links() ==> final(building).doors_match_links(),
    {
        let coord = building.cells[index].coord;
        assert(building.cell_ok(index as int));
        let mut d: usize = 0;
        while d < 4
            invariant
                d <= 4,
                index < building.cells.len(),
                building.wf(),
                *building == *old(building),
                count@ == old(count)@,
                coord == building.cells[index as int].coord,
                coord.inner(),
                building.outside_slot(index as int, count@, 0) == building.outside_slot(
                    index as int,
                    count@,
                    d as int,
                ),
            decreases 4 - d,
        {
            let n = coord.step(d);
            if building.find(&n).is_none() {
                let c = count[d];
                if c.0 < c.1 {
                    let ghost before = *building;
                    Cell::set_wall(building, index, d, State::Door);
                    count[d] = (c.0 + 1, c.1);
                    proof {
                        lemma_outside_door(before, *building, index as int, d as int);
                    }
                    return ;
                }
            }
            d += 1;
        }
    }
}

impl Building {
    /// Carves doors to the outside: walks the cells in their order and lets
    /// each carve at most one door, see [`Cell::create_outside_door`]. Each
    /// entry of `count` is the counter and the cap of one direction. Returns
    /// the counters after the pass.
    pub fn carve_outside_doors(&mut self, count: [(u8, u8); 4]) -> (after: [(u8, u8); 4])
        requires
            old(self).wf(),
        ensures
            final(self).wf(),
            final(self).plan() == old(self).plan(),
            old(self).same_but_walls(*final(self)),
            forall|k: int, d: int|
                0 <= k < old(self).cells.len() && 0 <= d < 4 ==> (
                #[trigger] final(self).cells[k].wall_state[d]) == (if old(self).outside_door(
                    count@,
                    k,
                    d,
                ) {
                    State::Door
                } else {
                    old(self).cells[k].wall_state[d]
                }),
            after@ == old(self).outside_counts(count@, old(self).cells.len() as int),
            old(self).no_outside_doors() ==> final(self).opened_by(count@),
            old(self).no_outside_doors() ==> final(self).one_way_out_each(),
            old(self).no_outside_doors() ==> forall|d: int|
                0 <= d < 4 && count[d].0 <= count[d].1 ==> {
                    &&& (#[trigger] after[d]).1 == count[d].1
                    &&& after[d].0 <= count[d].1
                    &&& final(self).outside_doors(d, old(self).cells.len() as int) == after[d].0
                        - count[d].0
                },
            old(self).walls_resolved() ==> final(self).walls_resolved(),
            old(self).doors_reciprocal() ==> final(self).doors_reciprocal(),
            old(self).doors_match_links() ==> final(self).doors_match_links(),
    {
        let mut count = count;
        let ghost start = count@;
        let n = self.cells.len();
        let mut k: usize = 0;
        while k < n
            invariant
                k <= n,
                n == old(self).cells.len(),
                old(self).wf(),
                self.wf(),
                self.plan() == old(self).plan(),
                old(self).same_but_walls(*self),
                count@ == old(self).outside_counts(start, k as int),
                forall|x: int, d: int|
                    0 <= x < k && 0 <= d < 4 ==> (#[trigger] self.cells[x].wall_state[d]) == (
                    if old(self).outside_door(start, x, d) {
                        State::Door
                    } else {
                        old(self).cells[x].wall_state[d]
                    }),
                forall|x: int, d: int|
                    k <= x < n && 0 <= d < 4 ==> (#[trigger] self.cells[x].wall_state[d]) == old(
                        self,
                    ).cells[x].wall_state[d],
                old(self).walls_resolved() ==> self.walls_resolved(),
                old(self).doors_reciprocal() ==> self.doors_reciprocal(),
                old(self).doors_match_links() ==> self.doors_match_links(),
            decreases n - k,
        {
            let ghost before = *self;
            let ghost counts = count@;
            Cell::create_outside_door(self, k, &mut count);
            proof {
                lemma_slot_same(*old(self), before, k as int, counts, 0);
            }
            k += 1;
        }
        proof {
            if old(self).no_outside_doors() {
                lemma_outside_once(*old(self), *self, start);
                lemma_opened(*old(self), *self, start);
                assert forall|d: int| 0 <= d < 4 && start[d].0 <= start[d].1 implies {
                    &&& (#[trigger] count[d]).1 == start[d].1
                    &&& count[d].0 <= start[d].1
                    &&& self.outside_doors(d, n as int) == count[d].0 - start[d].0
                } by {
                    lemma_outside_count(*old(self), *self, start, n as int, d);
                }
            }
        }
        count
    }

    /// Carves doors to the outside with a random cap of 2, 3 or 4 doors for
    /// each direction, the same for all four: see
    /// [`Building::carve_outside_doors`]. Returns the counters after the pass.
    pub fn create_outside_doors(&mut self) -> (after: [(u8, u8); 4])
        requires
            old(self).wf(),
        ensures
            final(self).wf(),
            final(self).plan() == old(self).plan(),
            old(self).same_but_walls(*final(self)),
            exists|cap: u8|
                {
                    &&& 2 <= cap < 5
                    &&& after@ == old(self).outside_counts(
                        #[trigger] caps(cap),
                        old(self).cells.len() as int,
                    )
                    &&& forall|k: int, d: int|
                        0 <= k < old(self).cells.len() && 0 <= d < 4 ==> (
                        #[trigger] final(self).cells[k].wall_state[d]) == (if old(
                            self,
                        ).outside_door(caps(cap), k, d) {
                            State::Door
                        } else {
                            old(self).cells[k].wall_state[d]
                        })
                },
            old(self).no_outside_doors() ==> exists|cap: u8|
                2 <= cap < 5 && final(self).opened_by(#[trigger] caps(cap)),
            old(self).no_outside_doors() ==> final(self).one_way_out_each(),
            old(self).no_outside_doors() ==> forall|d: int|
                0 <= d < 4 ==> #[trigger] final(self).outside_doors(d, old(self).cells.len() as int)
                    <= 4,
            old(self).walls_resolved() ==> final(self).walls_resolved(),
            old(self).doors_reciprocal() ==> final(self).doors_reciprocal(),
            old(self).doors_match_links() ==> final(self).doors_match_links(),
    {
        let cap = crate::random::random_range(2, 5) as u8;
        let count = [(0u8, cap), (0u8, cap), (0u8, cap), (0u8, cap)];
        assert(count@ =~= caps(cap));
        let after = self.carve_outside_doors(count);
        proof {
            if old(self).no_outside_doors() {
                assert(2 <= cap < 5 && self.opened_by(caps(cap)));
                assert forall|d: int| 0 <= d < 4 implies #[trigger] self.outside_doors(
                    d,
                    old(self).cells.len() as int,
                ) <= 4 by {
                    assert(after[d].0 <= count[d].1);
                }
            }
        }
        after
    }
}

/// What a pass carves depends on where the cells stand only.
pub proof fn lemma_pass_same(o: Building, f: Building, count: Seq<(u8, u8)>, k: int)
    requires
        o.same_sites(f),
        0 <= k <= o.cells.len(),
    ensures
        o.sites() == f.sites(),
        o.outside_counts(count, k) == f.outside_counts(count, k),
        k < o.cells.len() ==> forall|d: int| #[trigger]
            o.outside_door(count, k, d) == f.outside_door(count, k, d),
    decreases k,
{
    assert(o.sites() =~= f.sites());
    if k > 0 {
        lemma_pass_same(o, f, count, k - 1);
        lemma_cell_slot_same(o, f, k - 1, o.outside_counts(count, k - 1), 0);
    }
    if k < o.cells.len() {
        lemma_cell_slot_same(o, f, k, o.outside_counts(count, k), 0);
    }
}

/// The slot of a cell depends on where the cells stand only.
proof fn lemma_cell_slot_same(o: Building, f: Building, i: int, count: Seq<(u8, u8)>, d: int)
    requires
        o.same_sites(f),
        0 <= i < o.cells.len(),
    ensures
        o.outside_slot(i, count, d) == f.outside_slot(i, count, d),
    decreases 4 - d,
{
    assert(o.sites() =~= f.sites());
    assert(o.cells[i].coord == f.cells[i].coord);
    if 0 <= d < 4 {
        lemma_cell_slot_same(o, f, i, count, d + 1);
    }
}

/// After a pass over a building without doors to the outside, the doors to
/// the outside are those that the pass carved.
proof fn lemma_opened(o: Building, f: Building, count: Seq<(u8, u8)>)
    requires
        o.no_outside_doors(),
        o.same_but_walls(f),
        forall|x: int, e: int|
            0 <= x < o.cells.len() && 0 <= e < 4 ==> (#[trigger] f.cells[x].wall_state[e]) == (
            if o.outside_door(count, x, e) {
                State::Door
            } else {
                o.cells[x].wall_state[e]
            }),
    ensures
        f.opened_by(count),
{
    crate::building::lemma_same_but_walls(o, f);
    assert forall|k: int, d: int| 0 <= k < f.cells.len() && 0 <= d < 4 implies #[trigger] f.outside_door_at(
        k,
        d,
    ) == f.outside_door(count, k, d) by {
        assert(o.cells[k].coord == f.cells[k].coord);
        lemma_pass_same(o, f, count, k);
        assert(o.outside_door(count, k, d) == f.outside_door(count, k, d));
        assert(!o.outside_door_at(k, d));
        assert(f.cells[k].wall_state[d] == (if o.outside_door(count, k, d) {
            State::Door
        } else {
            o.cells[k].wall_state[d]
        }));
        lemma_slot(o, k, o.outside_counts(count, k), 0);
    }
}

/// The doors to the outside are those of a pass in every building with the
/// same cells and walls.
pub proof fn lemma_opened_same(o: Building, f: Building, count: Seq<(u8, u8)>)
    requires
        o.same_sites(f),
        forall|i: int| 0 <= i < o.cells.len() ==> (#[trigger] o.cells[i]).wall_state == f.cells[i].wall_state,
        o.opened_by(count),
    ensures
        f.opened_by(count),
{
    assert(o.sites() =~= f.sites());
    assert forall|k: int, d: int| 0 <= k < f.cells.len() && 0 <= d < 4 implies #[trigger] f.outside_door_at(
        k,
        d,
    ) == f.outside_door(count, k, d) by {
        assert(o.cells[k].coord == f.cells[k].coord);
        assert(o.cells[k].wall_state == f.cells[k].wall_state);
        lemma_pass_same(o, f, count, k);
        assert(o.outside_door(count, k, d) == f.outside_door(count, k, d));
        assert(o.outside_door_at(k, d) == o.outside_door(count, k, d));
    }
}

/// The counters of a pass keep their caps, and a counter that starts at or
/// below its cap stays there and counts the doors that the pass carves.
proof fn lemma_outside_count(o: Building, f: Building, count: Seq<(u8, u8)>, k: int, d: int)
    requires
        o.no_outside_doors(),
        o.same_but_walls(f),
        count.len() == 4,
        0 <= k <= o.cells.len(),
        0 <= d < 4,
        count[d].0 <= count[d].1,
        forall|x: int, e: int|
            0 <= x < o.cells.len() && 0 <= e < 4 ==> (#[trigger] f.cells[x].wall_state[e]) == (
            if o.outside_door(count, x, e) {
                State::Door
            } else {
                o.cells[x].wall_state[e]
            }),
    ensures
        o.outside_counts(count, k).len() == 4,
        o.outside_counts(count, k)[d].1 == count[d].1,
        o.outside_counts(count, k)[d].0 <= count[d].1,
        f.outside_doors(d, k) == o.outside_counts(count, k)[d].0 - count[d].0,
    decreases k,
{
    if k > 0 {
        lemma_outside_count(o, f, count, k - 1, d);
        let c = o.outside_counts(count, k - 1);
        lemma_slot(o, k - 1, c, 0);
        crate::building::lemma_same_but_walls(o, f);
        assert(!o.outside_door_at(k - 1, d));
    }
}

/// The counters of a pass are four.
proof fn lemma_counts_len(o: Building, count: Seq<(u8, u8)>, k: int)
    requires
        count.len() == 4,
    ensures
        o.outside_counts(count, k).len() == 4,
    decreases k,
{
    if k > 0 {
        lemma_counts_len(o, count, k - 1);
        lemma_slot(o, k - 1, o.outside_counts(count, k - 1), 0);
    }
}

/// A pass over a building without doors to the outside gives no cell more
/// than one.
proof fn lemma_outside_once(o: Building, f: Building, count: Seq<(u8, u8)>)
    requires
        o.no_outside_doors(),
        o.same_but_walls(f),
        forall|x: int, e: int|
            0 <= x < o.cells.len() && 0 <= e < 4 ==> (#[trigger] f.cells[x].wall_state[e]) == (
            if o.outside_door(count, x, e) {
                State::Door
            } else {
                o.cells[x].wall_state[e]
            }),
    ensures
        f.one_way_out_each(),
{
    crate::building::lemma_same_but_walls(o, f);
    assert forall|i: int, d: int, e: int|
        0 <= i < f.cells.len() && 0 <= d < 4 && 0 <= e < 4 && #[trigger] f.outside_door_at(i, d)
            && #[trigger] f.outside_door_at(i, e) implies d == e by {
        assert(!o.outside_door_at(i, d));
        assert(!o.outside_door_at(i, e));
    }
}

/// Joining rooms opens no door to the outside.
pub proof fn lemma_joined_inside(o: Building, f: Building)
    requires
        o.no_doors(),
        o.same_layout(f),
        o.plan() == f.plan(),
        o.walls_kept_or_joined(f),
    ensures
        f.no_outside_doors(),
{
    assert forall|i: int, d: int| 0 <= i < f.cells.len() && 0 <= d < 4 implies !#[trigger] f.outside_door_at(
        i,
        d,
    ) by {
        assert(o.doorless(i));
    }
}

/// The counters at the start of a pass that allows `cap` doors in each
/// direction.
pub open spec fn caps(cap: u8) -> Seq<(u8, u8)> {
    seq![(0u8, cap), (0u8, cap), (0u8, cap), (0u8, cap)]
}

} // verus!
