//! Cells: the grid units of a building.

use crate::building::{lemma_same_but_walls, Building};
use crate::coord::{opposite, opposite_of, Coord};
use crate::wall::State;
use crate::world::Pos;
use vstd::prelude::*;

verus! {

/// The slot of a cell's navigation nodes that holds its interior node.
pub const NAV_SELF: usize = 4;

/// The slot of a cell's navigation nodes that holds its outside node.
pub const NAV_OUTSIDE: usize = 5;

/// One grid unit of a building.
#[derive(Debug)]
pub struct Cell {
    /// The id of the room that owns the cell.
    pub room: usize,
    pub coord: Coord,
    /// The state of the four sides, in the order north, east, south, west.
    pub wall_state: [State; 4],
    /// The ids of the cell's navigation nodes. Slots 0 to 3 hold the door
    /// node of each side, slot 4 the interior node, slot 5 the outside node.
    pub nav_nodes: [Option<usize>; 6],
    /// The middle of the cell.
    pub pos: Pos,
}

impl Cell {
    /// Whether the cell is as [`Cell::new`] makes it: all sides open, no
    /// navigation node.
    pub open spec fn fresh(&self) -> bool {
        &&& forall|d: int| 0 <= d < 4 ==> #[trigger] self.wall_state[d] == State::Open
        &&& self.unlinked()
    }

    /// Whether the cell has no navigation node.
    pub open spec fn unlinked(&self) -> bool {
        forall|s: int| 0 <= s < 6 ==> (#[trigger] self.nav_nodes[s]) is None
    }

    /// Adds a cell at `coord` to room `room` of the building and returns its
    /// index. The coordinate has to be unoccupied and the room below its
    /// target size.
    pub fn new(coord: Coord, room: usize, building: &mut Building) -> (index: usize)
        requires
            old(building).wf(),
            coord.inner(),
            !old(building).occupied(coord),
            room < old(building).rooms.len(),
            old(building).rooms[room as int].cells.len() < old(building).rooms[room as int].size,
        ensures
            final(building).wf(),
            index == old(building).cells.len(),
            final(building).cells.len() == old(building).cells.len() + 1,
            forall|i: int| 0 <= i < index ==> final(building).cells[i] == old(building).cells[i],
            final(building).cells[index as int].coord == coord,
            final(building).cells[index as int].room == room,
            final(building).cells[index as int].pos == final(building).pos_of(coord),
            final(building).cells[index as int].fresh(),
            final(building).rooms.len() == old(building).rooms.len(),
            forall|r: int|
                0 <= r < old(building).rooms.len() && r != room ==> final(building).rooms[r] == old(building).rooms[r],
            final(building).rooms[room as int].cells@ == old(building).rooms[room as int].cells@.push(
                coord,
            ),
            final(building).rooms[room as int].connected_to == old(building).rooms[room as int].connected_to,
            final(building).rooms[room as int].size == old(building).rooms[room as int].size,
            final(building).rooms[room as int].room_type == old(building).rooms[room as int].room_type,
            final(building).plan() == old(building).plan().insert(coord, room),
            final(building).bounds == old(building).bounds,
            final(building).origin == old(building).origin,
            final(building).navigated == old(building).navigated,
            final(building).nav == old(building).nav,
    {
        let pos = building.coord_to_pos_global(&coord);
        let index = building.cells.len();
        let cell = Cell {
            room,
            coord,
            wall_state: [State::Open, State::Open, State::Open, State::Open],
            nav_nodes: [None, None, None, None, None, None],
            pos,
        };
        building.cells.push(cell);
        building.rooms[room].cells.push(coord);
        proof {
            let old_b = *old(building);
            let new_b = *building;
            crate::building::lemma_plan_push(old_b.sites(), coord, room);
            assert(new_b.sites() =~= old_b.sites().push((coord, room)));
            assert forall|i: int| 0 <= i < new_b.cells.len() implies #[trigger] new_b.cell_ok(i) by {
                if i < index {
                    assert(old_b.cell_ok(i));
                    let r = old_b.cells[i].room as int;
                    if r == room {
                        let k = choose|k: int|
                            0 <= k < old_b.rooms[r].cells@.len() && old_b.rooms[r].cells@[k]
                                == old_b.cells[i].coord;
                        assert(new_b.rooms[r].cells@[k] == old_b.cells[i].coord);
                    }
                } else {
                    assert(new_b.rooms[room as int].cells@[old_b.rooms[room as int].cells@.len() as int]
                        == coord);
                }
            }
            assert forall|r: int| 0 <= r < new_b.rooms.len() implies #[trigger] new_b.room_ok(r) by {
                assert(old_b.room_ok(r));
            }
        }
        index
    }

    /// The four neighbouring coordinates in the order north, east, south, west.
    pub fn adj(&self) -> (a: [Coord; 4])
        requires
            self.coord.inner(),
        ensures
            a@ == self.coord.neighbors(),
    {
        let a = [self.coord.step(0), self.coord.step(1), self.coord.step(2), self.coord.step(3)];
        a
    }

    /// The neighbouring coordinates that hold no cell, in the order north,
    /// east, south, west.
    pub fn adj_empty(&self, building: &Building) -> (v: Vec<Coord>)
        requires
            self.coord.inner(),
            crate::building::distinct(building.sites()),
        ensures
            v@ == self.coord.neighbors().filter(|c: Coord| !building.occupied(c)),
    {
        let ghost pred = |c: Coord| !building.occupied(c);
        let adj = self.adj();
        let mut v: Vec<Coord> = Vec::new();
        let mut d: usize = 0;
        while d < 4
            invariant
                d <= 4,
                adj@.len() == 4,
                crate::building::distinct(building.sites()),
                pred == (|c: Coord| !building.occupied(c)),
                v@ == adj@.take(d as int).filter(pred),
            decreases 4 - d,
        {
            let c = adj[d];
            let found = building.find(&c);
            proof {
                reveal(Seq::filter);
                let next = adj@.take(d as int + 1);
                assert(next.drop_last() =~= adj@.take(d as int));
            }
            if found.is_none() {
                v.push(c);
            }
            d += 1;
        }
        proof {
            assert(adj@.take(4) =~= adj@);
        }
        v
    }

    /// Sets the state of side `d` of cell `index`.
    pub fn set_wall(building: &mut Building, index: usize, d: usize, state: State)
        requires
            index < old(building).cells.len(),
            d < 4,
        ensures
            old(building).same_but_walls(*final(building)),
            final(building).plan() == old(building).plan(),
            old(building).wf() ==> final(building).wf(),
            final(building).cells[index as int].wall_state[d as int] == state,
            forall|i: int, e: int|
                0 <= i < old(building).cells.len() && 0 <= e < 4 && !(i == index && e == d) ==> (
                #[trigger] final(building).cells[i].wall_state[e]) == old(building).cells[i].wall_state[e],
    {
        building.cells[index].wall_state[d] = state;
        proof {
            lemma_same_but_walls(*old(building), *building);
        }
    }

    /// Resolves the four sides of cell `index`: open towards a cell of the
    /// same room, solid towards a cell of another room and towards an
    /// unoccupied coordinate.
    pub fn collapse_walls(building: &mut Building, index: usize)
        requires
            old(building).wf(),
            index < old(building).cells.len(),
        ensures
            final(building).wf(),
            old(building).same_but_walls(*final(building)),
            final(building).plan() == old(building).plan(),
            forall|d: int|
                0 <= d < 4 ==> (#[trigger] final(building).cells[index as int].wall_state[d]) == old(building).wall_for(index as int, d),
            final(building).resolved(index as int),
            forall|i: int|
                0 <= i < old(building).cells.len() && i != index ==> (#[trigger] final(building).cells[i]).wall_state == old(building).cells[i].wall_state,
    {
        let coord = building.cells[index].coord;
        let room = building.cells[index].room;
        assert(building.cell_ok(index as int));
        let mut d: usize = 0;
        while d < 4
            invariant
                d <= 4,
                index < building.cells.len(),
                building.wf(),
                old(building).same_but_walls(*building),
                building.plan() == old(building).plan(),
                coord == old(building).cells[index as int].coord,
                room == old(building).cells[index as int].room,
                coord.inner(),
                forall|e: int|
                    0 <= e < d ==> (#[trigger] building.cells[index as int].wall_state[e]) == old(building).wall_for(index as int, e),
                forall|i: int|
                    0 <= i < old(building).cells.len() && i != index ==> (
                    #[trigger] building.cells[i]).wall_state == old(building).cells[i].wall_state,
            decreases 4 - d,
        {
            let n = coord.step(d);
            let state = match building.find(&n) {
                Some(j) => {
                    if building.cells[j].room == room {
                        State::Open
                    } else {
                        State::Solid
                    }
                },
                None => State::Solid,
            };
            Cell::set_wall(building, index, d, state);
            d += 1;
        }
    }

    /// Carves a door between cell `index` and its neighbour `other` in
    /// direction `d`: side `d` of the one and the facing side of the other
    /// become doors.
    pub fn create_door(building: &mut Building, index: usize, other: usize, d: usize)
        requires
            index < old(building).cells.len(),
            other < old(building).cells.len(),
            d < 4,
            old(building).cells[other as int].coord == old(building).cells[index as int].coord.neighbor(
                d as int,
            ),
        ensures
            old(building).same_but_walls(*final(building)),
            final(building).plan() == old(building).plan(),
            old(building).wf() ==> final(building).wf(),
            final(building).cells[index as int].wall_state[d as int] == State::Door,
            final(building).cells[other as int].wall_state[opposite(d as int)] == State::Door,
            forall|i: int, e: int|
                0 <= i < old(building).cells.len() && 0 <= e < 4 && !(i == index && e == d) && !(i
                    == other && e == opposite(d as int)) ==> (
                #[trigger] final(building).cells[i].wall_state[e]) == old(building).cells[i].wall_state[e],
    {
        Cell::set_wall(building, index, d, State::Door);
        Cell::set_wall(building, other, opposite_of(d), State::Door);
    }
}

} // verus!
