//! The whole generation of a building, and what holds of its result.

use crate::building::{borders, origin_ok, Building};
use crate::coord::{opposite, Coord};
use crate::doors::{caps, lemma_joined_inside, lemma_no_doors, lemma_opened_same};
use crate::rect::Rect;
use crate::wall::State;
use crate::world::Pos;
use vstd::prelude::*;

verus! {

impl Building {
    /// Whether the navigation graph is the one that is generated over the
    /// walls of the building from nothing: see [`Building::charted`].
    pub open spec fn mapped(&self) -> bool {
        exists|o: Building| o.nav.nodes.len() == 0 && #[trigger] o.charted(*self)
    }

    /// Whether the doors to the outside are those that one pass over the
    /// cells carves with a cap of 2, 3 or 4 doors for each direction: see
    /// [`Building::outside_door`].
    pub open spec fn opened(&self) -> bool {
        exists|cap: u8| 2 <= cap < 5 && self.opened_by(#[trigger] caps(cap))
    }

    /// Whether no coordinate into which a room can grow touches a cell.
    pub open spec fn walled_in(&self) -> bool {
        forall|c: Coord| !(#[trigger] self.free(c) && self.touches_cell(c))
    }

    /// Whether the building is as generation leaves it: the walls are
    /// resolved, every door is a door on both sides, exactly one door joins
    /// every two rooms that share a wall and none joins other rooms, every
    /// room is connected, inside the footprint and grown as far as it could,
    /// the doors to the outside are those of one pass, and the navigation
    /// graph is that of the walls.
    pub open spec fn finished(&self) -> bool {
        &&& self.wf()
        &&& self.walls_resolved()
        &&& self.doors_reciprocal()
        &&& self.doors_match_links()
        &&& self.all_joined()
        &&& self.rooms_grown()
        &&& self.opened()
        &&& self.one_way_out_each()
        &&& self.mapped()
    }

    /// Generates a building: seeds a room at coordinate (0, 0), then `rooms`
    /// more rooms, each at a random free coordinate around the cells that
    /// exist, as long as there is such a coordinate; joins the rooms, opens
    /// the building to the outside and generates the navigation graph.
    pub fn generate(origin: Pos, bounds: Option<Rect>, rooms: usize) -> (b: Building)
        requires
            origin_ok(origin),
        ensures
            b.finished(),
            b.origin == origin,
            b.bounds == bounds,
            1 <= b.rooms.len() <= rooms + 1,
            b.rooms.len() == rooms + 1 || b.walled_in(),
            forall|d: int| 0 <= d < 4 ==> #[trigger] b.outside_doors(d, b.cells.len() as int) <= 4,
    {
        let mut b = Building::new(origin, bounds);
        let mut k: usize = 0;
        while k < rooms
            invariant
                k <= rooms,
                b.wf(),
                b.origin == origin,
                b.bounds == bounds,
                !b.navigated,
                b.nav.nodes.len() == 0,
                1 <= b.rooms.len() <= k + 1,
                b.rooms.len() == k + 1 || b.walled_in(),
                b.walls_resolved(),
                b.no_doors(),
                b.no_links(),
                b.rooms_grown(),
            decreases rooms - k,
        {
            let _ = b.seed_random_room();
            k += 1;
        }
        proof {
            lemma_no_doors(b);
        }
        let ghost seeded = b;
        b.join_rooms();
        let ghost joined = b;
        proof {
            lemma_joined_inside(seeded, joined);
            lemma_rooms_kept(seeded, joined);
        }
        let _ = b.create_outside_doors();
        proof {
            lemma_walls_only(joined, b);
            crate::building::lemma_same_but_walls(joined, b);
            lemma_rooms_kept(joined, b);
        }
        let ghost opened = b;
        b.gen_navigation();
        proof {
            lemma_same_doors(opened, b);
            lemma_rooms_kept(opened, b);
            lemma_same_outside(opened, b);
            let cap = choose|cap: u8| 2 <= cap < 5 && opened.opened_by(#[trigger] caps(cap));
            lemma_opened_same(opened, b, caps(cap));
            assert(opened.charted(b));
            assert forall|d: int| 0 <= d < 4 implies #[trigger] b.outside_doors(
                d,
                b.cells.len() as int,
            ) <= 4 by {
                lemma_same_outside_count(opened, b, d, b.cells.len() as int);
            }
        }
        b
    }
}

/// What holds of the rooms and their doors in a building holds in a building
/// with the same cells, walls, rooms and records.
pub proof fn lemma_same_doors(o: Building, f: Building)
    requires
        o.same_cells(f),
    ensures
        f.plan() == o.plan(),
        o.walls_resolved() ==> f.walls_resolved(),
        o.doors_reciprocal() ==> f.doors_reciprocal(),
        o.doors_match_links() ==> f.doors_match_links(),
        o.all_joined() ==> f.all_joined(),
{
    assert(f.sites() =~= o.sites());
    if o.walls_resolved() {
        assert forall|i: int| 0 <= i < f.cells.len() implies #[trigger] f.resolved(i) by {
            assert(o.resolved(i));
        }
    }
    if o.doors_reciprocal() {
        assert forall|i: int, d: int, j: int|
            #[trigger] f.faces(i, d, j) && f.cells[i].wall_state[d]
                == State::Door implies f.cells[j].wall_state[opposite(d)] == State::Door by {
            assert(o.faces(i, d, j));
        }
    }
    assert forall|x: usize, y: usize, i: int, d: int|
        f.door_between(x, y, i, d) == o.door_between(x, y, i, d) by {
    }
    assert forall|x: usize, y: usize, i: int, d: int| f.boundary(x, y, i, d) == o.boundary(x, y, i, d) by {
    }
    if o.doors_match_links() {
        assert forall|x: usize, y: usize|
            x < f.rooms.len() && y < f.rooms.len() && x != y implies #[trigger] f.pair_ok(x, y) by {
            assert(o.pair_ok(x, y));
        }
    }
    if o.all_joined() {
        assert forall|a: usize, b: usize| a != b && #[trigger] f.share_wall(a, b) implies f.linked(
            a,
            b,
        ) by {
            assert(o.share_wall(a, b));
        }
    }
}

/// Rooms that share a wall stay on record as joined where only walls change.
proof fn lemma_walls_only(o: Building, f: Building)
    requires
        o.same_but_walls(f),
        o.all_joined(),
    ensures
        f.all_joined(),
{
    crate::building::lemma_same_but_walls(o, f);
    assert forall|a: usize, b: usize| a != b && #[trigger] f.share_wall(a, b) implies f.linked(
        a,
        b,
    ) by {
        let (i, d) = choose|i: int, d: int| #[trigger] f.boundary(a, b, i, d);
        assert(o.boundary(a, b, i, d));
        assert(o.share_wall(a, b));
    }
}

/// Doors to the outside are the same in two buildings with the same cells.
proof fn lemma_same_outside(o: Building, f: Building)
    requires
        o.same_cells(f),
    ensures
        forall|i: int, d: int|
            0 <= i < o.cells.len() && 0 <= d < 4 ==> #[trigger] f.outside_door_at(i, d)
                == o.outside_door_at(i, d),
        o.one_way_out_each() ==> f.one_way_out_each(),
{
    assert(f.sites() =~= o.sites());
    assert forall|i: int, d: int| 0 <= i < o.cells.len() && 0 <= d < 4 implies #[trigger] f.outside_door_at(
        i,
        d,
    ) == o.outside_door_at(i, d) by {
    }
}

/// The doors to the outside are as many in two buildings with the same cells.
proof fn lemma_same_outside_count(o: Building, f: Building, d: int, k: int)
    requires
        o.same_cells(f),
        0 <= d < 4,
        0 <= k <= o.cells.len(),
    ensures
        f.outside_doors(d, k) == o.outside_doors(d, k),
    decreases k,
{
    lemma_same_outside(o, f);
    if k > 0 {
        lemma_same_outside_count(o, f, d, k - 1);
    }
}

/// Rooms stay as growth left them, and free coordinates stay free, while
/// the cells stay where they are and the footprint and the origin stay.
proof fn lemma_rooms_kept(o: Building, f: Building)
    requires
        o.rooms_grown(),
        o.same_sites(f),
        o.rooms.len() == f.rooms.len(),
        forall|r: int|
            0 <= r < o.rooms.len() ==> (#[trigger] o.rooms[r]).cells == f.rooms[r].cells
                && o.rooms[r].size == f.rooms[r].size,
        o.bounds == f.bounds,
        o.origin == f.origin,
    ensures
        f.rooms_grown(),
        o.walled_in() ==> f.walled_in(),
{
    assert(o.sites() =~= f.sites());
    assert forall|c: Coord| f.free(c) == o.free(c) by {}
    assert forall|r: int| 0 <= r < f.rooms.len() implies #[trigger] f.room_grown(r) by {
        assert(o.room_grown(r));
        assert(o.rooms[r].cells == f.rooms[r].cells);
        let cells = f.rooms[r].cells@;
        assert forall|k: int| 1 <= k < cells.len() implies borders(cells.take(k), #[trigger] cells[k])
            && f.in_bounds(cells[k]) by {
            assert(o.in_bounds(cells[k]));
        }
        if o.hemmed_in(r) {
            assert forall|c: Coord| !(#[trigger] f.free(c) && borders(cells, c)) by {
                assert(f.free(c) == o.free(c));
            }
        }
    }
    if o.walled_in() {
        assert forall|c: Coord| !(#[trigger] f.free(c) && f.touches_cell(c)) by {
            assert(f.free(c) == o.free(c));
            if f.touches_cell(c) {
                let (j, e) = choose|j: int, e: int|
                    0 <= j < f.cells.len() && 0 <= e < 4 && (#[trigger] f.cells[j].coord.neighbor(e))
                        == c;
                assert(o.cells[j].coord == f.cells[j].coord);
                assert(o.cells[j].coord.neighbor(e) == c);
                assert(o.touches_cell(c));
            }
        }
    }
}

} // verus!
