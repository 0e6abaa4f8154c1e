//! Laying the navigation graph over the cells of a building.
//!
//! Every cell gets an interior node. Every side with a door gets a door node
//! at the middle of the wall, linked with the interior node, and where the
//! door leads outside also an outside node beyond it, linked with the door
//! node. Nodes of solid walls do not exist, so no walk leads through one.

use crate::building::{lemma_plan_index, site_at, slot_kind, Building};
use crate::cell::{Cell, NAV_OUTSIDE, NAV_SELF};
use crate::coord::{cardinal, opposite, opposite_of, step_x, step_z};
use crate::nav::{
    chained, lemma_route_found, reachable, search, NavGraph, NavNodeType, Navigator,
};
use crate::rect::{Rect, RectBuilder};
use crate::wall::State;
use crate::world::{Pos, CELL_SIZE, CELL_SIZE_2, UNIT};
use vstd::prelude::*;

verus! {

/// The middle of side `d` of the cell whose middle is `pos`.
pub open spec fn door_pos(pos: Pos, d: int) -> Pos {
    Pos {
        x: (pos.x + step_x(d) * CELL_SIZE_2) as i32,
        z: (pos.z + step_z(d) * CELL_SIZE_2) as i32,
    }
}

/// The point a cell's length beyond the middle of side `d` of the cell whose
/// middle is `pos`.
pub open spec fn outside_pos(pos: Pos, d: int) -> Pos {
    Pos {
        x: (pos.x + 3 * step_x(d) * CELL_SIZE_2) as i32,
        z: (pos.z + 3 * step_z(d) * CELL_SIZE_2) as i32,
    }
}

/// The area of an interior node at `pos`: the whole cell.
pub open spec fn cell_area(pos: Pos) -> Rect {
    (RectBuilder { w: CELL_SIZE, h: CELL_SIZE }).centered_at(pos)
}

/// The area of a door or outside node at `pos`: one world unit on each side.
pub open spec fn point_area(pos: Pos) -> Rect {
    (RectBuilder { w: UNIT, h: UNIT }).centered_at(pos)
}

/// Whether `x` and `y` are `p` and `q`, in this order or the other.
pub open spec fn pair(x: int, y: int, p: int, q: int) -> bool {
    (x == p && y == q) || (x == q && y == p)
}

impl NavGraph {
    /// Whether node `n` exists and is of the given kind, position and area.
    pub open spec fn node_is(&self, n: int, kind: NavNodeType, pos: Pos, area: Rect) -> bool {
        &&& 0 <= n < self.nodes.len()
        &&& self.nodes[n].kind == kind
        &&& self.nodes[n].pos == pos
        &&& self.nodes[n].area == area
    }

    /// Whether `other` has the nodes of this graph, each of the same kind,
    /// position and area; it may have more nodes and more edges.
    pub open spec fn kept_in(&self, other: NavGraph) -> bool {
        &&& self.nodes.len() <= other.nodes.len()
        &&& forall|n: int|
            0 <= n < self.nodes.len() ==> {
                &&& (#[trigger] other.nodes[n]).kind == self.nodes[n].kind
                &&& other.nodes[n].pos == self.nodes[n].pos
                &&& other.nodes[n].area == self.nodes[n].area
            }
    }

    /// Whether no edge joins two interior nodes.
    pub open spec fn no_cell_links(&self) -> bool {
        forall|a: int, b: int| #[trigger]
            self.edge(a, b) ==> !(self.nodes[a].kind == NavNodeType::Cell && self.nodes[b].kind
                == NavNodeType::Cell)
    }
}

impl Building {
    /// Whether `other` is this building but for the navigation graph and the
    /// navigation nodes of cell `index`.
    pub open spec fn same_but_nav(&self, other: Building, index: int) -> bool {
        &&& self.cells.len() == other.cells.len()
        &&& forall|i: int|
            0 <= i < self.cells.len() ==> {
                &&& (#[trigger] self.cells[i]).coord == other.cells[i].coord
                &&& self.cells[i].room == other.cells[i].room
                &&& self.cells[i].pos == other.cells[i].pos
                &&& self.cells[i].wall_state == other.cells[i].wall_state
                &&& i != index ==> self.cells[i].nav_nodes == other.cells[i].nav_nodes
            }
        &&& self.rooms == other.rooms
        &&& self.bounds == other.bounds
        &&& self.origin == other.origin
    }

    /// Whether side `d` of cell `i` is a door.
    pub open spec fn is_door(&self, i: int, d: int) -> bool {
        self.cells[i].wall_state[d] == State::Door
    }

    /// The number of nodes that the sides of cell `i` below side `d` get: one
    /// for each door, and one more for each door that leads outside.
    pub open spec fn side_nodes(&self, i: int, d: int) -> int
        decreases d,
    {
        if d <= 0 {
            0
        } else {
            self.side_nodes(i, d - 1) + (if self.is_door(i, d - 1) {
                if self.exterior(i, d - 1) {
                    2int
                } else {
                    1int
                }
            } else {
                0int
            })
        }
    }

    /// The door node that the neighbour of cell `i` in direction `d` has on
    /// the side that faces the cell, if there is such a neighbour and it has
    /// such a node.
    pub open spec fn facing_door(&self, i: int, d: int) -> Option<usize> {
        let n = self.cells[i].coord.neighbor(d);
        if self.occupied(n) {
            self.cells[site_at(self.sites(), n)].nav_nodes[opposite(d)]
        } else {
            None
        }
    }

    /// Whether laying out cell `i` joins the nodes `x` and `y` for side `d`.
    /// A door joins the interior node and the door node, and a door that
    /// leads outside also the door node and the outside node. An open side
    /// joins the interior node and the door node that the neighbour has on
    /// the facing side. The interior node of the cell is the first node that
    /// the graph does not have yet; the nodes of its sides follow it.
    pub open spec fn side_edge(&self, i: int, d: int, x: int, y: int) -> bool {
        let base = self.nav.nodes.len() as int;
        let k = base + 1 + self.side_nodes(i, d);
        if self.is_door(i, d) {
            pair(x, y, base, k) || (self.exterior(i, d) && pair(x, y, k, k + 1))
        } else if self.cells[i].wall_state[d] == State::Open {
            self.facing_door(i, d) matches Some(n) && pair(x, y, n as int, base)
        } else {
            false
        }
    }

    /// Whether laying out cell `i` joins the nodes `x` and `y` for a side
    /// below side `d`.
    pub open spec fn laid(&self, i: int, d: int, x: int, y: int) -> bool {
        exists|e: int| 0 <= e < d && #[trigger] self.side_edge(i, e, x, y)
    }

    /// The outside node that cell `i` names after its sides below side `d`
    /// are laid out: that of the last door that leads outside, or the one it
    /// named before.
    pub open spec fn last_outside(&self, i: int, d: int) -> Option<usize>
        decreases d,
    {
        if d <= 0 {
            self.cells[i].nav_nodes[5]
        } else if self.is_door(i, d - 1) && self.exterior(i, d - 1) {
            Some((self.nav.nodes.len() + 2 + self.side_nodes(i, d - 1)) as usize)
        } else {
            self.last_outside(i, d - 1)
        }
    }
}

/// What laying out cell `i` does: `f` is `o` with the nodes and edges of the
/// cell added to the graph, and with the nodes on record in the cell.
pub open spec fn cell_laid(o: Building, f: Building, i: int) -> bool {
    let base = o.nav.nodes.len() as int;
    let pos = o.cells[i].pos;
    &&& o.same_but_nav(f, i)
    &&& f.navigated
    &&& o.nav.kept_in(f.nav)
    &&& f.nav.nodes.len() == base + 1 + o.side_nodes(i, 4)
    &&& f.nav.node_is(base, NavNodeType::Cell, pos, cell_area(pos))
    &&& forall|d: int|
        0 <= d < 4 && #[trigger] o.is_door(i, d) ==> {
            let k = base + 1 + o.side_nodes(i, d);
            &&& f.nav.node_is(k, NavNodeType::Door, door_pos(pos, d), point_area(door_pos(pos, d)))
            &&& o.exterior(i, d) ==> f.nav.node_is(
                k + 1,
                NavNodeType::Outside,
                outside_pos(pos, d),
                point_area(outside_pos(pos, d)),
            )
        }
    &&& forall|x: int, y: int| #[trigger] f.nav.edge(x, y) <==> o.nav.edge(x, y) || o.laid(i, 4, x, y)
    &&& forall|d: int|
        0 <= d < 4 ==> (#[trigger] f.cells[i].nav_nodes[d]) == (if o.is_door(i, d) {
            Some((base + 1 + o.side_nodes(i, d)) as usize)
        } else {
            o.cells[i].nav_nodes[d]
        })
    &&& f.cells[i].nav_nodes[4] == Some(base as usize)
    &&& f.cells[i].nav_nodes[5] == o.last_outside(i, 4)
}

/// A building whose graph has grown, and of which one cell names other nodes
/// of the right kinds, keeps the invariant and the plan.
pub proof fn lemma_nav_grown(o: Building, f: Building, index: int)
    requires
        o.wf(),
        f.navigated,
        0 <= index < o.cells.len(),
        o.same_but_nav(f, index),
        f.nav.wf(),
        o.nav.kept_in(f.nav),
        forall|s: int|
            0 <= s < 6 ==> ((#[trigger] f.cells[index].nav_nodes[s]) matches Some(n) ==> n
                < f.nav.nodes.len() && f.nav.nodes[n as int].kind == slot_kind(s)),
    ensures
        f.wf(),
        f.sites() == o.sites(),
        f.plan() == o.plan(),
{
    assert(f.sites() =~= o.sites());
    assert forall|i: int| 0 <= i < f.cells.len() implies #[trigger] f.cell_ok(i) by {
        assert(o.cell_ok(i));
    }
    assert forall|r: int| 0 <= r < f.rooms.len() implies #[trigger] f.room_ok(r) by {
        assert(o.room_ok(r));
    }
}

/// Puts node `node` on record in slot `slot` of cell `index`.
fn set_nav(building: &mut Building, index: usize, slot: usize, node: usize)
    requires
        index < old(building).cells.len(),
        slot < 6,
    ensures
        old(building).same_but_nav(*final(building), index as int),
        final(building).nav == old(building).nav,
        final(building).navigated == old(building).navigated,
        final(building).cells[index as int].nav_nodes@ == old(
            building,
        ).cells[index as int].nav_nodes@.update(slot as int, Some(node)),
{
    building.cells[index].nav_nodes[slot] = Some(node);
}

/// Lays out side `d` of cell `index`, which is a door: adds the door node
/// and links it with the interior node `cell_nav`; where the door leads
/// outside, adds the outside node and links it with the door node.
fn lay_door(building: &mut Building, index: usize, d: usize, cell_nav: usize)
    requires
        old(building).wf(),
        old(building).navigated,
        index < old(building).cells.len(),
        d < 4,
        cell_nav < old(building).nav.nodes.len(),
        old(building).nav.nodes[cell_nav as int].kind == NavNodeType::Cell,
    ensures
        final(building).wf(),
        final(building).navigated,
        final(building).plan() == old(building).plan(),
        old(building).same_but_nav(*final(building), index as int),
        old(building).nav.kept_in(final(building).nav),
        final(building).nav.nodes.len() == old(building).nav.nodes.len() + (if old(
            building,
        ).exterior(index as int, d as int) {
            2int
        } else {
            1int
        }),
        final(building).nav.node_is(
            old(building).nav.nodes.len() as int,
            NavNodeType::Door,
            door_pos(old(building).cells[index as int].pos, d as int),
            point_area(door_pos(old(building).cells[index as int].pos, d as int)),
        ),
        old(building).exterior(index as int, d as int) ==> final(building).nav.node_is(
            old(building).nav.nodes.len() + 1,
            NavNodeType::Outside,
            outside_pos(old(building).cells[index as int].pos, d as int),
            point_area(outside_pos(old(building).cells[index as int].pos, d as int)),
        ),
        forall|x: int, y: int| #[trigger]
            final(building).nav.edge(x, y) <==> {
                ||| old(building).nav.edge(x, y)
                ||| pair(x, y, cell_nav as int, old(building).nav.nodes.len() as int)
                ||| (old(building).exterior(index as int, d as int) && pair(
                    x,
                    y,
                    old(building).nav.nodes.len() as int,
                    old(building).nav.nodes.len() + 1,
                ))
            },
        final(building).cells[index as int].nav_nodes@ == (if old(building).exterior(
            index as int,
            d as int,
        ) {
            old(building).cells[index as int].nav_nodes@.update(
                5,
                Some((old(building).nav.nodes.len() + 1) as usize),
            ).update(d as int, Some(old(building).nav.nodes.len() as usize))
        } else {
            old(building).cells[index as int].nav_nodes@.update(
                d as int,
                Some(old(building).nav.nodes.len() as usize),
            )
        }),
        old(building).nav.symmetric() ==> final(building).nav.symmetric(),
        old(building).nav.no_cell_links() ==> final(building).nav.no_cell_links(),
{
    let pos = building.cells[index].pos;
    let coord = building.cells[index].coord;
    proof {
        assert(building.cell_ok(index as int));
    }
    let (dz, dx, _) = cardinal(d);
    let door_at = pos.offset(dx as i32 * CELL_SIZE_2, dz as i32 * CELL_SIZE_2);
    let area = Rect::build(UNIT, UNIT).center_at(&door_at);
    let door_nav = building.nav.add(door_at, NavNodeType::Door, area);
    building.nav.link(cell_nav, door_nav);
    let n = coord.step(d);
    let outside = building.find(&n).is_none();
    if outside {
        let outside_at = door_at.offset(dx as i32 * 2 * CELL_SIZE_2, dz as i32 * 2 * CELL_SIZE_2);
        let area = Rect::build(UNIT, UNIT).center_at(&outside_at);
        let outside_nav = building.nav.add(outside_at, NavNodeType::Outside, area);
        building.nav.link(outside_nav, door_nav);
        set_nav(building, index, NAV_OUTSIDE, outside_nav);
    }
    set_nav(building, index, d, door_nav);
    proof {
        let o = *old(building);
        let f = *building;
        lemma_nav_grown(o, f, index as int);
    }
}

/// Lays out side `d` of cell `index`, which is open: where the neighbour has
/// a door node on the facing side, links that node with the interior node
/// `cell_nav`.
fn lay_open(building: &mut Building, index: usize, d: usize, cell_nav: usize)
    requires
        old(building).wf(),
        old(building).navigated,
        index < old(building).cells.len(),
        d < 4,
        cell_nav < old(building).nav.nodes.len(),
        old(building).nav.nodes[cell_nav as int].kind == NavNodeType::Cell,
    ensures
        final(building).wf(),
        final(building).navigated,
        final(building).plan() == old(building).plan(),
        old(building).same_but_nav(*final(building), index as int),
        final(building).cells[index as int].nav_nodes == old(building).cells[index as int].nav_nodes,
        old(building).nav.kept_in(final(building).nav),
        final(building).nav.nodes.len() == old(building).nav.nodes.len(),
        forall|x: int, y: int| #[trigger]
            final(building).nav.edge(x, y) <==> {
                ||| old(building).nav.edge(x, y)
                ||| (old(building).facing_door(index as int, d as int) matches Some(n) && pair(
                    x,
                    y,
                    n as int,
                    cell_nav as int,
                ))
            },
        old(building).nav.symmetric() ==> final(building).nav.symmetric(),
        old(building).nav.no_cell_links() ==> final(building).nav.no_cell_links(),
{
    let coord = building.cells[index].coord;
    assert(building.cell_ok(index as int));
    let n = coord.step(d);
    match building.find(&n) {
        Some(j) => {
            proof {
                lemma_plan_index(building.sites(), j as int);
                assert(building.cell_ok(j as int));
            }
            let across = opposite_of(d);
            match building.cells[j].nav_nodes[across] {
                Some(door_nav) => {
                    building.nav.link(door_nav, cell_nav);
                    proof {
                        let o = *old(building);
                        let f = *building;
                        lemma_nav_grown(o, f, index as int);
                    }
                },
                None => {},
            }
        },
        None => {},
    }
}

/// The sides of a cell are seen alike from two buildings that differ in the
/// graph and in the nodes of that cell only.
proof fn lemma_sides_same(o: Building, m: Building, index: int, d: int)
    requires
        o.wf(),
        0 <= index < o.cells.len(),
        0 <= d <= 4,
        o.same_but_nav(m, index),
        m.sites() == o.sites(),
    ensures
        m.side_nodes(index, d) == o.side_nodes(index, d),
        d < 4 ==> m.is_door(index, d) == o.is_door(index, d),
        d < 4 ==> m.exterior(index, d) == o.exterior(index, d),
        d < 4 ==> m.facing_door(index, d) == o.facing_door(index, d),
    decreases d,
{
    if d > 0 {
        lemma_sides_same(o, m, index, d - 1);
    }
    if d < 4 {
        let n = o.cells[index].coord.neighbor(d);
        if o.occupied(n) {
            assert(o.cell_ok(index));
        }
    }
}

/// The edges of the sides below `d + 1` are those of the sides below `d` and
/// those of side `d`.
proof fn lemma_laid_step(o: Building, i: int, d: int, x: int, y: int)
    requires
        0 <= d,
    ensures
        o.laid(i, d + 1, x, y) <==> o.laid(i, d, x, y) || o.side_edge(i, d, x, y),
{
}

impl Cell {
    /// Lays out the navigation nodes of cell `index`: adds the interior node
    /// at the middle of the cell, with the cell as its area, and then, side by
    /// side in the order north, east, south, west,
    /// - for a door, the door node at the middle of the wall, linked both
    ///   ways with the interior node, and where the door leads outside the
    ///   outside node beyond it, linked both ways with the door node;
    /// - for an open side, a link both ways between the interior node and
    ///   the door node that the neighbour has on the facing side, if any;
    /// - for a solid wall, nothing.
    /// The cell puts its nodes on record, and the building counts as one
    /// whose graph has been generated.
    pub fn gen_navigation(building: &mut Building, index: usize)
        requires
            old(building).wf(),
            index < old(building).cells.len(),
        ensures
            final(building).wf(),
            final(building).plan() == old(building).plan(),
            cell_laid(*old(building), *final(building), index as int),
            old(building).nav.symmetric() ==> final(building).nav.symmetric(),
            old(building).nav.no_cell_links() ==> final(building).nav.no_cell_links(),
    {
        let pos = building.cells[index].pos;
        let coord = building.cells[index].coord;
        let ghost base = building.nav.nodes.len() as int;
        proof {
            assert(building.cell_ok(index as int));
        }
        let area = Rect::build(CELL_SIZE, CELL_SIZE).center_at(&pos);
        building.navigated = true;
        let cell_nav = building.nav.add(pos, NavNodeType::Cell, area);
        proof {
            let o = *old(building);
            let f = *building;
            lemma_nav_grown(o, f, index as int);
        }
        let mut d: usize = 0;
        while d < 4
            invariant
                d <= 4,
                index < building.cells.len(),
                old(building).wf(),
                building.wf(),
                building.navigated,
                building.plan() == old(building).plan(),
                building.sites() == old(building).sites(),
                cell_nav == base,
                base == old(building).nav.nodes.len(),
                pos == old(building).cells[index as int].pos,
                old(building).same_but_nav(*building, index as int),
                old(building).nav.kept_in(building.nav),
                building.nav.nodes.len() == base + 1 + old(building).side_nodes(index as int, d as int),
                building.nav.node_is(base, NavNodeType::Cell, pos, cell_area(pos)),
                forall|e: int|
                    0 <= e < d && #[trigger] old(building).is_door(index as int, e) ==> {
                        let k = base + 1 + old(building).side_nodes(index as int, e);
                        &&& building.nav.node_is(
                            k,
                            NavNodeType::Door,
                            door_pos(pos, e),
                            point_area(door_pos(pos, e)),
                        )
                        &&& old(building).exterior(index as int, e) ==> building.nav.node_is(
                            k + 1,
                            NavNodeType::Outside,
                            outside_pos(pos, e),
                            point_area(outside_pos(pos, e)),
                        )
                    },
                forall|x: int, y: int| #[trigger]
                    building.nav.edge(x, y) <==> old(building).nav.edge(x, y) || old(building).laid(
                        index as int,
                        d as int,
                        x,
                        y,
                    ),
                forall|e: int|
                    0 <= e < d ==> (#[trigger] building.cells[index as int].nav_nodes[e]) == (if old(
                        building,
                    ).is_door(index as int, e) {
                        Some((base + 1 + old(building).side_nodes(index as int, e)) as usize)
                    } else {
                        old(building).cells[index as int].nav_nodes[e]
                    }),
                forall|e: int|
                    d <= e < 5 ==> (#[trigger] building.cells[index as int].nav_nodes[e]) == old(
                        building,
                    ).cells[index as int].nav_nodes[e],
                building.cells[index as int].nav_nodes[5] == old(building).last_outside(
                    index as int,
                    d as int,
                ),
                old(building).nav.symmetric() ==> building.nav.symmetric(),
                old(building).nav.no_cell_links() ==> building.nav.no_cell_links(),
            decreases 4 - d,
        {
            let state = building.cells[index].wall_state[d];
            let ghost m = *building;
            proof {
                lemma_sides_same(*old(building), m, index as int, d as int);
            }
            match state {
                State::Door => {
                    lay_door(building, index, d, cell_nav);
                },
                State::Open => {
                    lay_open(building, index, d, cell_nav);
                },
                _ => {},
            }
            proof {
                let o = *old(building);
                let f = *building;
                let i = index as int;
                assert forall|x: int, y: int| #[trigger]
                    f.nav.edge(x, y) <==> o.nav.edge(x, y) || o.laid(i, d as int + 1, x, y) by {
                    lemma_laid_step(o, i, d as int, x, y);
                }
            }
            d += 1;
        }
        let ghost m = *building;
        set_nav(building, index, NAV_SELF, cell_nav);
        proof {
            let o = *old(building);
            let f = *building;
            let i = index as int;
            assert forall|s: int| 0 <= s < 6 implies ((#[trigger] f.cells[i].nav_nodes[s]) matches Some(
                n,
            ) ==> n < f.nav.nodes.len() && f.nav.nodes[n as int].kind == slot_kind(s)) by {
                assert(m.cell_ok(i));
            }
            lemma_nav_grown(o, f, i);
        }
    }
}

impl Building {
    /// Whether `other` has the cells of this building, each at its
    /// coordinate, in its room and with its walls, and the same rooms: only
    /// the navigation graph and the nodes on record may differ.
    pub open spec fn same_cells(&self, other: Building) -> bool {
        &&& self.cells.len() == other.cells.len()
        &&& forall|i: int|
            0 <= i < self.cells.len() ==> {
                &&& (#[trigger] self.cells[i]).coord == other.cells[i].coord
                &&& self.cells[i].room == other.cells[i].room
                &&& self.cells[i].pos == other.cells[i].pos
                &&& self.cells[i].wall_state == other.cells[i].wall_state
            }
        &&& self.rooms == other.rooms
        &&& self.bounds == other.bounds
        &&& self.origin == other.origin
    }

    /// Whether cell `i` has no interior node on record.
    pub open spec fn unlaid(&self, i: int) -> bool {
        self.cells[i].nav_nodes[4] is None
    }

    /// The number of nodes that the graph holds when a pass over the cells
    /// reaches cell `k`: those it held before, and those of the cells below
    /// cell `k` that had no interior node.
    pub open spec fn nodes_before(&self, k: int) -> int
        decreases k,
    {
        if k <= 0 {
            self.nav.nodes.len() as int
        } else {
            self.nodes_before(k - 1) + (if self.unlaid(k - 1) {
                1 + self.side_nodes(k - 1, 4)
            } else {
                0
            })
        }
    }

    /// The id that a pass over the cells gives to the door node of side `d`
    /// of cell `i`.
    pub open spec fn door_node(&self, i: int, d: int) -> int {
        self.nodes_before(i) + 1 + self.side_nodes(i, d)
    }

    /// The outside node that cell `i` has on record after a pass has laid it
    /// out, going by its sides below side `d`: that of the last door that
    /// leads outside, or the one it had on record before.
    pub open spec fn outside_node(&self, i: int, d: int) -> Option<usize>
        decreases d,
    {
        if d <= 0 {
            self.cells[i].nav_nodes[5]
        } else if self.is_door(i, d - 1) && self.exterior(i, d - 1) {
            Some((self.door_node(i, d - 1) + 1) as usize)
        } else {
            self.outside_node(i, d - 1)
        }
    }

    /// What cell `j` has on record in slot `e` after a pass has laid it out:
    /// the door node of a side with a door, its interior node, its outside
    /// node; in the slot of a side without a door, what it had before.
    pub open spec fn slot_after(&self, j: int, e: int) -> Option<usize> {
        if e == 4 {
            Some(self.nodes_before(j) as usize)
        } else if e == 5 {
            self.outside_node(j, 4)
        } else if self.is_door(j, e) {
            Some(self.door_node(j, e) as usize)
        } else {
            self.cells[j].nav_nodes[e]
        }
    }

    /// What cell `j` has on record in slot `e` when a pass over the cells
    /// reaches cell `k`. The pass lays out the cells that have no interior
    /// node and leaves the others as they are.
    pub open spec fn slot_at(&self, j: int, e: int, k: int) -> Option<usize> {
        if j < k && self.unlaid(j) {
            self.slot_after(j, e)
        } else {
            self.cells[j].nav_nodes[e]
        }
    }

    /// Whether a pass over the cells joins the nodes `x` and `y` for side `d`
    /// of cell `i`, which it lays out. A door joins the interior node and the
    /// door node, and a door that leads outside also the door node and the
    /// outside node. An open side joins the interior node and the door node
    /// that the neighbour has on record for the facing side at that time.
    pub open spec fn joined_for(&self, i: int, d: int, x: int, y: int) -> bool {
        let base = self.nodes_before(i);
        let k = self.door_node(i, d);
        if self.is_door(i, d) {
            pair(x, y, base, k) || (self.exterior(i, d) && pair(x, y, k, k + 1))
        } else if self.cells[i].wall_state[d] == State::Open {
            let n = self.cells[i].coord.neighbor(d);
            let j = site_at(self.sites(), n);
            &&& self.occupied(n)
            &&& self.slot_at(j, opposite(d), i) matches Some(m)
            &&& pair(x, y, m as int, base)
        } else {
            false
        }
    }

    /// Whether a pass over the cells joins the nodes `x` and `y` for a side
    /// of a cell below cell `k` that it lays out.
    pub open spec fn joined_below(&self, k: int, x: int, y: int) -> bool {
        exists|i: int, d: int|
            0 <= i < k && 0 <= d < 4 && self.unlaid(i) && #[trigger] self.joined_for(i, d, x, y)
    }

    /// Whether `f` holds the nodes that a pass over the cells adds for cell
    /// `i`: the interior node at the middle of the cell, with the cell as its
    /// area, and for each door the door node and, where the door leads
    /// outside, the outside node.
    pub open spec fn placed(&self, f: Building, i: int) -> bool {
        let pos = self.cells[i].pos;
        &&& f.nav.node_is(self.nodes_before(i), NavNodeType::Cell, pos, cell_area(pos))
        &&& forall|d: int|
            0 <= d < 4 && #[trigger] self.is_door(i, d) ==> {
                &&& f.nav.node_is(
                    self.door_node(i, d),
                    NavNodeType::Door,
                    door_pos(pos, d),
                    point_area(door_pos(pos, d)),
                )
                &&& self.exterior(i, d) ==> f.nav.node_is(
                    self.door_node(i, d) + 1,
                    NavNodeType::Outside,
                    outside_pos(pos, d),
                    point_area(outside_pos(pos, d)),
                )
            }
    }

    /// Whether the cells of `f` have on record what a pass over the cells of
    /// this building leaves when it reaches cell `k`.
    pub open spec fn recorded(&self, f: Building, k: int) -> bool {
        forall|j: int, e: int|
            0 <= j < self.cells.len() && 0 <= e < 6 ==> (#[trigger] f.cells[j].nav_nodes[e])
                == self.slot_at(j, e, k)
    }

    /// What generating the navigation graph does: `f` is this building after
    /// a pass that lays out, in the order of the cells, every cell that has
    /// no interior node. The nodes that the graph held are kept. The nodes of
    /// each cell that is laid out follow those before it: first the interior
    /// node, then side by side the door node and, where the door leads
    /// outside, the outside node. The edges are those that the graph held and
    /// those of [`Building::joined_for`], each with its reverse. A cell that
    /// had an interior node is as it was.
    pub open spec fn charted(&self, f: Building) -> bool {
        let n = self.cells.len() as int;
        &&& self.wf()
        &&& f.wf()
        &&& f.navigated
        &&& self.same_cells(f)
        &&& f.plan() == self.plan()
        &&& self.nav.kept_in(f.nav)
        &&& f.nav.nodes.len() == self.nodes_before(n)
        &&& self.recorded(f, n)
        &&& forall|i: int| 0 <= i < n && self.unlaid(i) ==> #[trigger] self.placed(f, i)
        &&& forall|x: int, y: int| #[trigger]
            f.nav.edge(x, y) <==> self.nav.edge(x, y) || self.joined_below(n, x, y)
        &&& self.nav.symmetric() ==> f.nav.symmetric()
        &&& self.nav.no_cell_links() ==> f.nav.no_cell_links()
    }
}

/// The walls of a cell are seen alike from two buildings with the same cells.
proof fn lemma_same_cells(o: Building, m: Building, i: int, d: int)
    requires
        0 <= i < o.cells.len(),
        0 <= d <= 4,
        o.same_cells(m),
    ensures
        m.sites() == o.sites(),
        m.plan() == o.plan(),
        m.side_nodes(i, d) == o.side_nodes(i, d),
        d < 4 ==> m.is_door(i, d) == o.is_door(i, d),
        d < 4 ==> m.exterior(i, d) == o.exterior(i, d),
    decreases d,
{
    assert(m.sites() =~= o.sites());
    assert(o.cells[i].coord == m.cells[i].coord);
    if d > 0 {
        lemma_same_cells(o, m, i, d - 1);
    }
}

/// The outside node that a cell puts on record, seen from the building
/// before the cell is laid out and from the building before the pass.
proof fn lemma_outside_node(o: Building, m: Building, k: int, d: int)
    requires
        0 <= k < o.cells.len(),
        0 <= d <= 4,
        o.same_cells(m),
        m.nav.nodes.len() == o.nodes_before(k),
        m.cells[k].nav_nodes[5] == o.cells[k].nav_nodes[5],
    ensures
        m.last_outside(k, d) == o.outside_node(k, d),
    decreases d,
{
    if d > 0 {
        lemma_outside_node(o, m, k, d - 1);
        lemma_same_cells(o, m, k, d - 1);
    }
}

/// Laying out cell `k` joins the nodes that the pass joins for it.
proof fn lemma_cell_edges(o: Building, m: Building, k: int, x: int, y: int)
    requires
        o.wf(),
        0 <= k < o.cells.len(),
        o.same_cells(m),
        m.nav.nodes.len() == o.nodes_before(k),
        o.recorded(m, k),
    ensures
        m.laid(k, 4, x, y) <==> exists|d: int| 0 <= d < 4 && #[trigger] o.joined_for(k, d, x, y),
{
    assert forall|d: int| 0 <= d < 4 implies m.side_edge(k, d, x, y) == o.joined_for(k, d, x, y) by {
        lemma_same_cells(o, m, k, d);
        assert(m.cells[k].wall_state == o.cells[k].wall_state);
        let n = o.cells[k].coord.neighbor(d);
        if o.occupied(n) {
            let j = site_at(o.sites(), n);
            assert(0 <= j < o.cells.len());
            assert(m.cells[j].nav_nodes[opposite(d)] == o.slot_at(j, opposite(d), k));
        }
    }
    if m.laid(k, 4, x, y) {
        let e = choose|e: int| 0 <= e < 4 && #[trigger] m.side_edge(k, e, x, y);
        assert(o.joined_for(k, e, x, y));
    }
    if exists|d: int| 0 <= d < 4 && #[trigger] o.joined_for(k, d, x, y) {
        let d = choose|d: int| 0 <= d < 4 && #[trigger] o.joined_for(k, d, x, y);
        assert(m.side_edge(k, d, x, y));
    }
}

/// The edges of the cells below cell `k + 1` are those of the cells below
/// cell `k` and, where the pass lays out cell `k`, those of cell `k`.
proof fn lemma_joined_step(o: Building, k: int, x: int, y: int)
    requires
        0 <= k,
    ensures
        o.joined_below(k + 1, x, y) <==> o.joined_below(k, x, y) || (o.unlaid(k) && exists|d: int|
            0 <= d < 4 && #[trigger] o.joined_for(k, d, x, y)),
{
    if o.joined_below(k + 1, x, y) {
        let (i, d) = choose|i: int, d: int|
            0 <= i < k + 1 && 0 <= d < 4 && o.unlaid(i) && #[trigger] o.joined_for(i, d, x, y);
        if i < k {
            assert(o.joined_below(k, x, y));
        } else {
            assert(o.joined_for(k, d, x, y));
        }
    }
    if o.joined_below(k, x, y) {
        let (i, d) = choose|i: int, d: int|
            0 <= i < k && 0 <= d < 4 && o.unlaid(i) && #[trigger] o.joined_for(i, d, x, y);
        assert(o.joined_for(i, d, x, y));
    }
    if o.unlaid(k) && exists|d: int| 0 <= d < 4 && #[trigger] o.joined_for(k, d, x, y) {
        let d = choose|d: int| 0 <= d < 4 && #[trigger] o.joined_for(k, d, x, y);
        assert(o.joined_for(k, d, x, y));
    }
}

/// The nodes of an earlier cell stay while a later cell is laid out.
proof fn lemma_placed_kept(o: Building, m: Building, f: Building, j: int)
    requires
        0 <= j < o.cells.len(),
        o.placed(m, j),
        m.nav.kept_in(f.nav),
    ensures
        o.placed(f, j),
{
    let pos = o.cells[j].pos;
    assert(f.nav.nodes[o.nodes_before(j)].kind == m.nav.nodes[o.nodes_before(j)].kind);
    assert forall|d: int| 0 <= d < 4 && #[trigger] o.is_door(j, d) implies {
        &&& f.nav.node_is(
            o.door_node(j, d),
            NavNodeType::Door,
            door_pos(pos, d),
            point_area(door_pos(pos, d)),
        )
        &&& o.exterior(j, d) ==> f.nav.node_is(
            o.door_node(j, d) + 1,
            NavNodeType::Outside,
            outside_pos(pos, d),
            point_area(outside_pos(pos, d)),
        )
    } by {
        assert(f.nav.nodes[o.door_node(j, d)].kind == m.nav.nodes[o.door_node(j, d)].kind);
        if o.exterior(j, d) {
            assert(f.nav.nodes[o.door_node(j, d) + 1].kind == m.nav.nodes[o.door_node(j, d) + 1].kind);
        }
    }
}

/// What is kept from `o` to `m` and from `m` to `f` is kept from `o` to `f`.
proof fn lemma_kept_in(o: NavGraph, m: NavGraph, f: NavGraph)
    requires
        o.kept_in(m),
        m.kept_in(f),
    ensures
        o.kept_in(f),
{
    assert forall|n: int| 0 <= n < o.nodes.len() implies {
        &&& (#[trigger] f.nodes[n]).kind == o.nodes[n].kind
        &&& f.nodes[n].pos == o.nodes[n].pos
        &&& f.nodes[n].area == o.nodes[n].area
    } by {
        assert(m.nodes[n].kind == o.nodes[n].kind);
    }
}

/// The number of nodes that the sides of a cell get is not negative and does
/// not shrink from side to side.
proof fn lemma_side_nodes(o: Building, i: int, d: int, e: int)
    requires
        0 <= d <= e,
    ensures
        0 <= o.side_nodes(i, d) <= o.side_nodes(i, e),
    decreases e,
{
    if d < e {
        lemma_side_nodes(o, i, d, e - 1);
    } else if e > 0 {
        lemma_side_nodes(o, i, 0, e - 1);
    }
}

/// The number of nodes that the graph holds does not shrink during a pass,
/// and each cell that the pass lays out adds at least its interior node.
proof fn lemma_nodes_before(o: Building, j: int, i: int)
    requires
        0 <= j <= i,
    ensures
        o.nav.nodes.len() <= o.nodes_before(j) <= o.nodes_before(i),
        j < i && o.unlaid(j) ==> o.nodes_before(j) < o.nodes_before(i),
    decreases i,
{
    if j < i {
        lemma_nodes_before(o, j, i - 1);
        lemma_side_nodes(o, i - 1, 0, 4);
    } else if i > 0 {
        lemma_nodes_before(o, 0, i - 1);
        lemma_side_nodes(o, i - 1, 0, 4);
    }
}

/// After a pass, every cell that the pass laid out has an interior node of
/// its own on record: a node that the graph did not hold before, at the
/// middle of the cell, and not the interior node of any other cell that the
/// pass laid out.
pub proof fn lemma_interior_nodes(o: Building, f: Building, i: int, j: int)
    requires
        o.charted(f),
        0 <= i < o.cells.len(),
        0 <= j < o.cells.len(),
        o.unlaid(i),
    ensures
        f.cells[i].nav_nodes[4] matches Some(n) && o.nav.nodes.len() <= n < f.nav.nodes.len()
            && f.nav.nodes[n as int].kind == NavNodeType::Cell && f.nav.nodes[n as int].pos
            == f.cells[i].pos,
        i != j && o.unlaid(j) ==> f.cells[i].nav_nodes[4] != f.cells[j].nav_nodes[4],
        !o.unlaid(j) ==> f.cells[j].nav_nodes == o.cells[j].nav_nodes,
{
    let n = o.cells.len() as int;
    assert(o.placed(f, i));
    assert(f.cells[i].nav_nodes[4] == o.slot_at(i, 4, n));
    assert(f.cells[j].nav_nodes[4] == o.slot_at(j, 4, n));
    assert(o.cells[i].pos == f.cells[i].pos);
    lemma_nodes_before(o, 0, i);
    if i != j && o.unlaid(j) {
        assert(o.placed(f, j));
        if i < j {
            lemma_nodes_before(o, i, j);
        } else {
            lemma_nodes_before(o, j, i);
        }
    }
    if !o.unlaid(j) {
        assert forall|e: int| 0 <= e < 6 implies f.cells[j].nav_nodes@[e] == o.cells[j].nav_nodes@[e] by {
            assert(f.cells[j].nav_nodes[e] == o.slot_at(j, e, n));
        }
        assert(f.cells[j].nav_nodes@ =~= o.cells[j].nav_nodes@);
    }
}

impl Building {
    /// Generates the navigation graph: lays out, in the order of the cells,
    /// every cell that has no interior node, see [`Cell::gen_navigation`].
    /// A cell that has one stays as it is, so a second call changes nothing.
    pub fn gen_navigation(&mut self)
        requires
            old(self).wf(),
        ensures
            old(self).charted(*final(self)),
    {
        self.navigated = true;
        let n = self.cells.len();
        proof {
            let o = *old(self);
            let f = *self;
            assert(f.sites() =~= o.sites());
            assert forall|i: int| 0 <= i < f.cells.len() implies #[trigger] f.cell_ok(i) by {
                assert(o.cell_ok(i));
            }
            assert forall|r: int| 0 <= r < f.rooms.len() implies #[trigger] f.room_ok(r) by {
                assert(o.room_ok(r));
            }
            assert forall|x: int, y: int| !o.joined_below(0, x, y) by {}
        }
        let mut k: usize = 0;
        while k < n
            invariant
                k <= n,
                n == old(self).cells.len(),
                old(self).wf(),
                self.wf(),
                self.navigated,
                old(self).same_cells(*self),
                self.plan() == old(self).plan(),
                old(self).nav.kept_in(self.nav),
                self.nav.nodes.len() == old(self).nodes_before(k as int),
                old(self).recorded(*self, k as int),
                forall|i: int| 0 <= i < k && old(self).unlaid(i) ==> #[trigger] old(self).placed(*self, i),
                forall|x: int, y: int| #[trigger]
                    self.nav.edge(x, y) <==> old(self).nav.edge(x, y) || old(self).joined_below(
                        k as int,
                        x,
                        y,
                    ),
                old(self).nav.symmetric() ==> self.nav.symmetric(),
                old(self).nav.no_cell_links() ==> self.nav.no_cell_links(),
            decreases n - k,
        {
            let ghost m = *self;
            proof {
                assert(self.cells[k as int].nav_nodes[4] == old(self).slot_at(k as int, 4, k as int));
            }
            if self.cells[k].nav_node().is_none() {
                Cell::gen_navigation(self, k);
                proof {
                    let o = *old(self);
                    let f = *self;
                    let i = k as int;
                    lemma_same_cells(o, m, i, 4);
                    assert(m.cells[i].nav_nodes[5] == o.slot_at(i, 5, i));
                    lemma_outside_node(o, m, i, 4);
                    lemma_kept_in(o.nav, m.nav, f.nav);
                    assert forall|j: int| 0 <= j < o.cells.len() implies {
                        &&& (#[trigger] o.cells[j]).coord == f.cells[j].coord
                        &&& o.cells[j].room == f.cells[j].room
                        &&& o.cells[j].pos == f.cells[j].pos
                        &&& o.cells[j].wall_state == f.cells[j].wall_state
                    } by {
                        assert(m.cells[j].coord == f.cells[j].coord);
                    }
                    assert forall|x: int, y: int| #[trigger]
                        f.nav.edge(x, y) <==> o.nav.edge(x, y) || o.joined_below(i + 1, x, y) by {
                        lemma_cell_edges(o, m, i, x, y);
                        lemma_joined_step(o, i, x, y);
                        assert(m.nav.edge(x, y) <==> o.nav.edge(x, y) || o.joined_below(i, x, y));
                    }
                    assert forall|j: int, e: int| 0 <= j < o.cells.len() && 0 <= e < 6 implies (
                    #[trigger] f.cells[j].nav_nodes[e]) == o.slot_at(j, e, i + 1) by {
                        assert(m.cells[j].nav_nodes[e] == o.slot_at(j, e, i));
                        if j == i {
                            if e < 4 {
                                lemma_same_cells(o, m, i, e);
                            }
                        } else {
                            assert(m.cells[j].nav_nodes == f.cells[j].nav_nodes);
                        }
                    }
                    assert forall|j: int| 0 <= j < i + 1 && o.unlaid(j) implies #[trigger] o.placed(
                        f,
                        j,
                    ) by {
                        if j < i {
                            assert(o.placed(m, j));
                            lemma_placed_kept(o, m, f, j);
                        } else {
                            assert(o.cells[i].pos == m.cells[i].pos);
                            assert forall|d: int| 0 <= d < 4 && #[trigger] o.is_door(i, d) implies {
                                &&& f.nav.node_is(
                                    o.door_node(i, d),
                                    NavNodeType::Door,
                                    door_pos(o.cells[i].pos, d),
                                    point_area(door_pos(o.cells[i].pos, d)),
                                )
                                &&& o.exterior(i, d) ==> f.nav.node_is(
                                    o.door_node(i, d) + 1,
                                    NavNodeType::Outside,
                                    outside_pos(o.cells[i].pos, d),
                                    point_area(outside_pos(o.cells[i].pos, d)),
                                )
                            } by {
                                lemma_same_cells(o, m, i, d);
                                assert(m.is_door(i, d));
                            }
                        }
                    }
                }
            } else {
                proof {
                    let o = *old(self);
                    let i = k as int;
                    assert forall|x: int, y: int| #[trigger]
                        self.nav.edge(x, y) <==> o.nav.edge(x, y) || o.joined_below(i + 1, x, y) by {
                        lemma_joined_step(o, i, x, y);
                    }
                    assert forall|j: int, e: int| 0 <= j < o.cells.len() && 0 <= e < 6 implies (
                    #[trigger] self.cells[j].nav_nodes[e]) == o.slot_at(j, e, i + 1) by {
                        assert(m.cells[j].nav_nodes[e] == o.slot_at(j, e, i));
                    }
                }
            }
            k += 1;
        }
    }
}

impl Cell {
    /// The interior node of the cell, once the cell is laid out.
    pub fn nav_node(&self) -> (n: Option<usize>)
        ensures
            n == self.nav_nodes[4],
    {
        self.nav_nodes[NAV_SELF]
    }
}

impl Building {
    /// The route of an agent from cell `from` to cell `to`: the walk of a
    /// search from the interior node of the one to that of the other, in
    /// reverse, so that the agent finds its next node at the end. The route
    /// is empty where there is none, and where one of the cells is not laid
    /// out.
    pub fn path_between(&self, from: usize, to: usize) -> (route: Vec<usize>)
        requires
            self.wf(),
            from < self.cells.len(),
            to < self.cells.len(),
        ensures
            route@ == (match (self.cells[from as int].nav_nodes[4], self.cells[to as int].nav_nodes[4]) {
                (Some(a), Some(b)) => search(self.nav, b, seq![a], Set::empty()).0.reverse(),
                _ => Seq::empty(),
            }),
            route@.len() > 0 <==> (self.cells[from as int].nav_nodes[4] matches Some(a)
                && self.cells[to as int].nav_nodes[4] matches Some(b) && reachable(self.nav, a, b)),
            route@.len() > 0 ==> self.cells[from as int].nav_nodes[4] == Some(route@.last())
                && self.cells[to as int].nav_nodes[4] == Some(route@[0]) && chained(
                self.nav,
                route@.reverse(),
            ),
    {
        let start = self.cells[from].nav_node();
        let goal = self.cells[to].nav_node();
        if start.is_none() || goal.is_none() {
            return Vec::new();
        }
        proof {
            assert(self.cell_ok(from as int));
            assert(self.cell_ok(to as int));
            lemma_route_found(self.nav, start.unwrap(), goal.unwrap());
        }
        let mut navigator = Navigator::new(start.unwrap(), goal.unwrap());
        navigator.nav(&self.nav);
        let walk = navigator.path;
        let mut route: Vec<usize> = Vec::new();
        let mut k: usize = walk.len();
        while k > 0
            invariant
                k <= walk.len(),
                route@.len() == walk.len() - k,
                forall|j: int| 0 <= j < route@.len() ==> route@[j] == walk@[walk.len() - 1 - j],
            decreases k,
        {
            k -= 1;
            route.push(walk[k]);
        }
        route
    }
}

} // verus!
