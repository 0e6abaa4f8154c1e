//! What holds of every building that the rules of this library have made.

use crate::building::{lemma_plan_index, lemma_plan_witness, Building};
use crate::coord::opposite;
use crate::nav::NavGraph;
use crate::wall::State;
use vstd::prelude::*;

verus! {

/// Every cell belongs to a room of the building: the room that its id names
/// exists, carries that id and lists the coordinate of the cell, and the
/// plan maps the coordinate to it.
pub proof fn lemma_room_exists(building: Building, i: int)
    requires
        building.wf(),
        0 <= i < building.cells.len(),
    ensures
        building.cells[i].room < building.rooms.len(),
        building.rooms[building.cells[i].room as int].id == building.cells[i].room,
        building.rooms[building.cells[i].room as int].cells@.contains(building.cells[i].coord),
        building.plan().contains_pair(building.cells[i].coord, building.cells[i].room),
{
    assert(building.cell_ok(i));
    assert(building.room_ok(building.cells[i].room as int));
}

/// Every coordinate that a room lists holds a cell of that room.
pub proof fn lemma_member_is_cell(building: Building, r: int, k: int) -> (i: int)
    requires
        building.wf(),
        0 <= r < building.rooms.len(),
        0 <= k < building.rooms[r].cells.len(),
    ensures
        0 <= i < building.cells.len(),
        building.cells[i].coord == building.rooms[r].cells[k],
        building.cells[i].room == r,
{
    assert(building.room_ok(r));
    lemma_plan_witness(building.sites(), building.rooms[r].cells[k])
}

/// Where the walls are resolved, a side of a cell is open exactly where the
/// neighbouring coordinate holds a cell of the same room, and is solid or a
/// door everywhere else.
pub proof fn lemma_open_iff_same_room(building: Building, i: int, d: int)
    requires
        building.wf(),
        building.walls_resolved(),
        0 <= i < building.cells.len(),
        0 <= d < 4,
    ensures
        building.cells[i].wall_state[d] == State::Open <==> exists|j: int|
            #[trigger] building.faces(i, d, j) && building.cells[j].room == building.cells[i].room,
        building.cells[i].wall_state[d] != State::Open ==> building.cells[i].wall_state[d]
            == State::Solid || building.cells[i].wall_state[d] == State::Door,
{
    assert(building.resolved(i));
    let n = building.cells[i].coord.neighbor(d);
    let room = building.cells[i].room;
    if building.plan().contains_pair(n, room) {
        let j = lemma_plan_witness(building.sites(), n);
        assert(building.faces(i, d, j) && building.cells[j].room == room);
    }
    if exists|j: int| #[trigger] building.faces(i, d, j) && building.cells[j].room == room {
        let j = choose|j: int| #[trigger] building.faces(i, d, j) && building.cells[j].room == room;
        lemma_plan_index(building.sites(), j);
    }
}

/// Where the doors are reciprocal, a door towards a neighbouring cell is a
/// door on the facing side of that cell, and the door there leads back.
pub proof fn lemma_door_has_twin(building: Building, i: int, d: int, j: int)
    requires
        building.wf(),
        building.doors_reciprocal(),
        building.faces(i, d, j),
        building.cells[i].wall_state[d] == State::Door,
    ensures
        building.cells[j].wall_state[opposite(d)] == State::Door,
        building.faces(j, opposite(d), i),
{
    assert(building.cell_ok(i));
}

/// In a symmetric graph every edge has its reverse.
pub proof fn lemma_edge_has_reverse(graph: NavGraph, a: int, b: int)
    requires
        graph.symmetric(),
        graph.edge(a, b),
    ensures
        graph.edge(b, a),
{
}

/// The graph of a finished building is symmetric, joins no two interior
/// nodes, and gives every cell an interior node at its middle.
pub proof fn lemma_finished_graph(building: Building, i: int)
    requires
        building.finished(),
        0 <= i < building.cells.len(),
    ensures
        building.nav.symmetric(),
        building.nav.no_cell_links(),
        building.cells[i].nav_nodes[4] matches Some(n) && n < building.nav.nodes.len()
            && building.nav.nodes[n as int].kind == crate::nav::NavNodeType::Cell
            && building.nav.nodes[n as int].pos == building.cells[i].pos,
{
    let o = choose|o: Building| o.nav.nodes.len() == 0 && #[trigger] o.charted(building);
    assert(o.cell_ok(i));
    assert(o.unlaid(i));
    assert(o.placed(building, i));
    assert(building.cells[i].nav_nodes[4] == o.slot_at(i, 4, o.cells.len() as int));
    assert(o.cells[i].pos == building.cells[i].pos);
}

} // verus!
