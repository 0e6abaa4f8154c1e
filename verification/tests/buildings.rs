use building_nav::building::{holds_coord, Building};
use building_nav::cell::{Cell, NAV_OUTSIDE, NAV_SELF};
use building_nav::coord::Coord;
use building_nav::rect::Rect;
use building_nav::room::{Room, RoomType, MAX_SIZE, MIN_SIZE, ROOM_TYPES};
use building_nav::wall::State;
use building_nav::world::{Pos, CELL_SIZE, UNIT};

fn at(x: i16, z: i16) -> Coord {
    Coord { x, z }
}

fn origin() -> Pos {
    Pos { x: 0, z: 0 }
}

/// A building with the given rooms, each a list of coordinates, walls resolved.
fn layout(rooms: &[&[(i16, i16)]]) -> Building {
    let mut b = Building::bare(origin(), None);
    for cells in rooms.iter() {
        let id = b.open_room(cells.len(), RoomType::Bedroom);
        for (x, z) in cells.iter() {
            Cell::new(at(*x, *z), id, &mut b);
        }
    }
    for i in 0..b.cells.len() {
        Cell::collapse_walls(&mut b, i);
    }
    b
}

fn sorted(mut v: Vec<Coord>) -> Vec<Coord> {
    v.sort_by_key(|c| (c.x, c.z));
    v
}

#[test]
fn bare_building_is_empty() {
    let b = Building::bare(Pos { x: 5, z: 6 }, None);
    assert!(b.cells.is_empty());
    assert!(b.rooms.is_empty());
    assert_eq!(b.origin, Pos { x: 5, z: 6 });
    assert!(b.bounds.is_none());
    assert!(!b.navigated);
    assert_eq!(b.nav.len(), 0);
}

#[test]
fn coordinates_map_to_positions() {
    let b = Building::bare(Pos { x: 1000, z: -2000 }, None);
    assert_eq!(b.coord_to_pos_rel(&at(1, 2)), Pos { x: 30_000, z: 60_000 });
    assert_eq!(b.coord_to_pos_rel(&at(-3, 0)), Pos { x: -90_000, z: 0 });
    assert_eq!(b.coord_to_pos_global(&at(1, 2)), Pos { x: 31_000, z: 58_000 });
    assert_eq!(
        b.coord_to_pos_global(&at(i16::MAX, i16::MIN)),
        Pos { x: 1000 + 32767 * 30_000, z: -2000 - 32768 * 30_000 }
    );
}

#[test]
fn positions_map_to_coordinates() {
    let b = Building::bare(Pos { x: 1000, z: -2000 }, None);
    assert_eq!(b.pos_global_to_coord(Pos { x: 1000, z: -2000 }), at(0, 0));
    assert_eq!(b.pos_global_to_coord(Pos { x: 1000 + 14_999, z: -2000 }), at(0, 0));
    assert_eq!(b.pos_global_to_coord(Pos { x: 1000 + 15_000, z: -2000 }), at(1, 0));
    assert_eq!(b.pos_global_to_coord(Pos { x: 31_000, z: 58_000 }), at(1, 2));
    assert_eq!(b.pos_global_to_coord(Pos { x: 1000, z: -2000 + 44_999 }), at(0, 1));
    assert_eq!(b.pos_global_to_coord(Pos { x: 1000, z: -2000 + 45_000 }), at(0, 2));
}

#[test]
fn positions_below_the_origin_belong_to_their_cells() {
    let b = Building::bare(origin(), None);
    assert_eq!(b.pos_global_to_coord(Pos { x: -15_000, z: 0 }), at(0, 0));
    assert_eq!(b.pos_global_to_coord(Pos { x: -15_001, z: 0 }), at(-1, 0));
    assert_eq!(b.pos_global_to_coord(Pos { x: -30_000, z: 0 }), at(-1, 0));
    assert_eq!(b.pos_global_to_coord(Pos { x: -45_000, z: 0 }), at(-1, 0));
    assert_eq!(b.pos_global_to_coord(Pos { x: -45_001, z: 0 }), at(-2, 0));
    assert_eq!(b.pos_global_to_coord(Pos { x: 0, z: -30_000 }), at(0, -1));
    assert_eq!(b.pos_global_to_coord(Pos { x: 0, z: -75_000 }), at(0, -2));
}

#[test]
fn the_middle_of_a_cell_belongs_to_the_cell() {
    let b = Building::bare(Pos { x: 1234, z: -987 }, None);
    for x in -40..40 {
        for z in -40..40 {
            let c = at(x * 25, z * 25);
            assert_eq!(b.pos_global_to_coord(b.coord_to_pos_global(&c)), c);
        }
    }
    let rim = at(i16::MIN, i16::MAX);
    assert_eq!(b.pos_global_to_coord(b.coord_to_pos_global(&rim)), rim);
}

#[test]
fn a_cell_below_the_origin_is_found_at_its_middle() {
    let mut b = Building::bare(origin(), None);
    let room = b.open_room(1, RoomType::Bedroom);
    Cell::new(at(0, -1), room, &mut b);
    let middle = b.cells[0].pos;
    assert_eq!(middle, Pos { x: 0, z: -30_000 });
    assert_eq!(b.pos_global_to_cell(middle).map(|c| c.coord), Some(at(0, -1)));
    assert_eq!(b.pos_global_to_cell(Pos { x: 14_999, z: -44_999 }).map(|c| c.coord), Some(at(0, -1)));
    assert!(b.pos_global_to_cell(Pos { x: 0, z: -15_000 }).is_none());
    assert!(b.pos_global_to_cell(Pos { x: 0, z: 0 }).is_none());
}

#[test]
fn positions_beyond_the_grid_belong_to_its_rim() {
    let b = Building::bare(origin(), None);
    assert_eq!(b.pos_global_to_coord(Pos { x: i32::MAX, z: i32::MIN }), at(i16::MAX, i16::MIN));
}

#[test]
fn new_cell_joins_building_and_room() {
    let mut b = Building::bare(Pos { x: 100, z: 200 }, None);
    let room = b.open_room(3, RoomType::Kitchen);
    assert_eq!(room, 0);
    let index = Cell::new(at(2, -1), room, &mut b);
    assert_eq!(index, 0);
    assert_eq!(b.cells.len(), 1);
    let cell = &b.cells[0];
    assert_eq!(cell.coord, at(2, -1));
    assert_eq!(cell.room, 0);
    assert_eq!(cell.pos, Pos { x: 60_100, z: -29_800 });
    assert_eq!(cell.wall_state, [State::Open; 4]);
    assert_eq!(cell.nav_nodes, [None; 6]);
    assert_eq!(cell.nav_node(), None);
    assert_eq!(b.rooms[0].cells, vec![at(2, -1)]);
    assert_eq!(b.rooms[0].len(), 1);
    assert!(!b.rooms[0].is_empty());
    let second = Cell::new(at(2, 0), room, &mut b);
    assert_eq!(second, 1);
    assert_eq!(b.rooms[0].cells, vec![at(2, -1), at(2, 0)]);
}

#[test]
fn cell_lists_its_neighbours() {
    let b = layout(&[&[(0, 0), (1, 0)]]);
    assert_eq!(b.cells[0].adj(), [at(1, 0), at(0, 1), at(-1, 0), at(0, -1)]);
    assert_eq!(b.cells[0].adj_empty(&b), vec![at(0, 1), at(-1, 0), at(0, -1)]);
    assert_eq!(b.cells[1].adj_empty(&b), vec![at(2, 0), at(1, 1), at(1, -1)]);
}

#[test]
fn cells_are_found_by_coordinate_and_position() {
    let b = layout(&[&[(0, 0), (1, 0)], &[(0, 1)]]);
    assert_eq!(b.find(&at(1, 0)), Some(1));
    assert_eq!(b.find(&at(0, 1)), Some(2));
    assert_eq!(b.find(&at(5, 5)), None);
    assert_eq!(b.cell_at(&at(0, 1)).map(|c| c.room), Some(1));
    assert!(b.cell_at(&at(1, 1)).is_none());
    let inside = b.pos_global_to_cell(Pos { x: 29_000, z: 3_000 });
    assert_eq!(inside.map(|c| c.coord), Some(at(1, 0)));
    assert!(b.pos_global_to_cell(Pos { x: 70_000, z: 0 }).is_none());
    assert_eq!(b.coords(), vec![at(0, 0), at(1, 0), at(0, 1)]);
}

#[test]
fn free_coordinates_are_unoccupied_and_inside_the_footprint() {
    let footprint = Rect::new(0, 2 * CELL_SIZE, 0, CELL_SIZE);
    let mut b = Building::bare(origin(), Some(footprint));
    let room = b.open_room(4, RoomType::Bedroom);
    Cell::new(at(0, 0), room, &mut b);
    assert!(!b.is_free(&at(0, 0)));
    assert!(b.is_free(&at(1, 0)));
    assert!(b.is_free(&at(1, 2)));
    assert!(!b.is_free(&at(2, 0)));
    assert!(!b.is_free(&at(0, 3)));
    assert!(!b.is_free(&at(-1, 0)));
    assert!(!b.is_free(&at(0, -1)));
}

#[test]
fn the_rim_of_the_grid_is_never_free() {
    let b = Building::bare(origin(), None);
    assert!(b.is_free(&at(i16::MAX - 1, 0)));
    assert!(!b.is_free(&at(i16::MAX, 0)));
    assert!(!b.is_free(&at(0, i16::MIN)));
}

#[test]
fn retain_keeps_free_coordinates_in_order() {
    let footprint = Rect::new(-CELL_SIZE, CELL_SIZE, -CELL_SIZE, CELL_SIZE);
    let mut b = Building::bare(origin(), Some(footprint));
    let room = b.open_room(4, RoomType::Bedroom);
    Cell::new(at(0, 0), room, &mut b);
    let mut coords = vec![at(1, 0), at(0, 0), at(2, 0), at(0, -1), at(1, 0), at(-2, -2)];
    b.retain_empty_and_valid(&mut coords);
    assert_eq!(coords, vec![at(1, 0), at(0, -1), at(1, 0)]);
}

#[test]
fn frontier_holds_each_free_neighbour_once() {
    let b = layout(&[&[(0, 0), (1, 0)], &[(0, 1)]]);
    let frontier = b.frontier_of(&b.rooms[0].cells);
    assert_eq!(frontier, vec![at(-1, 0), at(0, -1), at(2, 0), at(1, 1), at(1, -1)]);
    let outer = b.outer();
    assert_eq!(
        sorted(outer.clone()),
        sorted(vec![at(-1, 0), at(0, -1), at(2, 0), at(1, 1), at(1, -1), at(0, 2), at(-1, 1)])
    );
    assert_eq!(outer.len(), 7);
    assert!(holds_coord(&outer, &at(0, 2)));
    assert!(!holds_coord(&outer, &at(0, 0)));
}

#[test]
fn outer_respects_the_footprint() {
    let footprint = Rect::new(0, 0, 0, 2 * CELL_SIZE);
    let mut b = Building::bare(origin(), Some(footprint));
    let room = b.open_room(1, RoomType::Bedroom);
    Cell::new(at(0, 0), room, &mut b);
    assert_eq!(b.outer(), vec![at(1, 0)]);
}

#[test]
fn walls_open_towards_the_same_room_only() {
    let b = layout(&[&[(0, 0), (1, 0)], &[(0, 1)]]);
    assert_eq!(b.cells[0].wall_state, [State::Open, State::Solid, State::Solid, State::Solid]);
    assert_eq!(b.cells[1].wall_state, [State::Solid, State::Solid, State::Open, State::Solid]);
    assert_eq!(b.cells[2].wall_state, [State::Solid, State::Solid, State::Solid, State::Solid]);
}

#[test]
fn collapse_walls_undoes_a_door() {
    let mut b = layout(&[&[(0, 0)], &[(1, 0)]]);
    Cell::create_door(&mut b, 0, 1, 0);
    assert_eq!(b.cells[0].wall_state[0], State::Door);
    assert_eq!(b.cells[1].wall_state[2], State::Door);
    Cell::collapse_walls(&mut b, 0);
    assert_eq!(b.cells[0].wall_state, [State::Solid; 4]);
    assert_eq!(b.cells[1].wall_state[2], State::Door);
}

#[test]
fn set_wall_changes_one_side() {
    let mut b = layout(&[&[(0, 0), (1, 0)]]);
    Cell::set_wall(&mut b, 1, 3, State::Window);
    assert_eq!(b.cells[1].wall_state, [State::Solid, State::Solid, State::Open, State::Window]);
    assert_eq!(b.cells[0].wall_state, [State::Open, State::Solid, State::Solid, State::Solid]);
}

#[test]
fn room_of_forced_size_one_is_its_seed() {
    let mut b = Building::bare(origin(), None);
    let id = Room::create_sized(&mut b, at(3, 4), 1, RoomType::Kitchen);
    assert_eq!(id, 0);
    assert_eq!(b.rooms.len(), 1);
    assert_eq!(b.rooms[0].id, 0);
    assert_eq!(b.rooms[0].size, 1);
    assert_eq!(b.rooms[0].room_type, RoomType::Kitchen);
    assert_eq!(b.rooms[0].cells, vec![at(3, 4)]);
    assert!(b.rooms[0].connected_to.is_empty());
    assert_eq!(b.cells.len(), 1);
    assert_eq!(b.cells[0].wall_state, [State::Solid; 4]);
}

#[test]
fn room_of_size_zero_has_no_cell() {
    let mut b = Building::bare(origin(), None);
    let id = Room::create_sized(&mut b, at(0, 0), 0, RoomType::Bedroom);
    assert_eq!(id, 0);
    assert!(b.rooms[0].is_empty());
    assert!(b.cells.is_empty());
}

#[test]
fn room_in_a_corridor_grows_along_it() {
    let footprint = Rect::new(0, 0, 0, 5 * CELL_SIZE);
    let mut b = Building::bare(origin(), Some(footprint));
    let first = Room::create_sized(&mut b, at(0, 0), 3, RoomType::Bedroom);
    assert_eq!(b.rooms[first].cells, vec![at(0, 0), at(1, 0), at(2, 0)]);
    let second = Room::create_sized(&mut b, at(3, 0), 3, RoomType::Kitchen);
    assert_eq!(b.rooms[second].cells, vec![at(3, 0), at(4, 0), at(5, 0)]);
    assert_eq!(b.cells[0].wall_state, [State::Open, State::Solid, State::Solid, State::Solid]);
    assert_eq!(b.cells[1].wall_state, [State::Open, State::Solid, State::Open, State::Solid]);
    assert_eq!(b.cells[2].wall_state, [State::Solid, State::Solid, State::Open, State::Solid]);
    assert_eq!(b.cells[3].wall_state, [State::Open, State::Solid, State::Solid, State::Solid]);
}

#[test]
fn room_stops_growing_where_nothing_is_free() {
    let footprint = Rect::new(0, 0, 0, CELL_SIZE);
    let mut b = Building::bare(origin(), Some(footprint));
    let id = Room::create_sized(&mut b, at(0, 0), 9, RoomType::Bedroom);
    assert_eq!(b.rooms[id].cells, vec![at(0, 0), at(1, 0)]);
    assert_eq!(b.rooms[id].size, 9);
    assert!(b.frontier_of(&b.rooms[id].cells).is_empty());
    assert_eq!(b.seed_random_room(), None);
    assert_eq!(b.rooms.len(), 1);
}

#[test]
fn random_room_is_connected_and_within_size() {
    let mut sizes = std::collections::HashSet::new();
    let mut kinds = std::collections::HashSet::new();
    for _ in 0..300 {
        let mut b = Building::bare(origin(), None);
        let id = Room::create(&mut b, at(0, 0));
        let room = &b.rooms[id];
        assert!(room.size >= MIN_SIZE && room.size < MIN_SIZE + MAX_SIZE);
        assert_eq!(room.len(), room.size);
        assert_eq!(room.cells[0], at(0, 0));
        for k in 1..room.cells.len() {
            let touches = room.cells[..k].iter().any(|m| m.adj().contains(&room.cells[k]));
            assert!(touches);
        }
        sizes.insert(room.size);
        kinds.insert(room.room_type);
    }
    assert_eq!(sizes.len(), MAX_SIZE);
    assert_eq!(kinds.len(), ROOM_TYPES);
}

#[test]
fn new_building_has_a_room_at_the_origin() {
    let b = Building::new(Pos { x: 7 * UNIT, z: 0 }, None);
    assert_eq!(b.rooms.len(), 1);
    assert_eq!(b.cells[0].coord, at(0, 0));
    assert_eq!(b.cells[0].pos, Pos { x: 7 * UNIT, z: 0 });
    assert_eq!(b.cells.len(), b.rooms[0].len());
    assert!(b.rooms[0].size >= 2 && b.rooms[0].size <= 9);
    assert!(!b.navigated);
}

#[test]
fn seeded_room_starts_at_a_free_coordinate_next_to_a_cell() {
    for _ in 0..50 {
        let mut b = Building::new(origin(), None);
        let before = b.cells.len();
        let outer = b.outer();
        let id = b.seed_random_room().unwrap();
        assert_eq!(id, 1);
        let start = b.rooms[id].cells[0];
        assert!(outer.contains(&start));
        assert_eq!(b.cells[before].coord, start);
        assert_eq!(b.cells.len(), before + b.rooms[id].len());
    }
}

#[test]
fn floor_materials_follow_the_room_type() {
    let table = Room::load_materials();
    assert_eq!(table.len(), ROOM_TYPES);
    assert_eq!(table[RoomType::Bedroom.index()].room_type, RoomType::Bedroom);
    assert_eq!(table[RoomType::Bedroom.index()].texture, "room/floor/wood_floor_2x.jpg");
    assert_eq!(table[RoomType::Kitchen.index()].room_type, RoomType::Kitchen);
    assert_eq!(table[RoomType::Kitchen.index()].texture, "room/floor/kitchen.jpg");
    let kitchen = Room::new(3, 5, RoomType::Kitchen);
    assert_eq!(kitchen.floor_mat().texture, "room/floor/kitchen.jpg");
    assert_eq!(kitchen.floor_mat().room_type, RoomType::Kitchen);
    let bedroom = Room::new(4, 5, RoomType::Bedroom);
    assert_eq!(bedroom.floor_mat().texture, "room/floor/wood_floor_2x.jpg");
}

#[test]
fn room_types_from_draws() {
    assert_eq!(RoomType::from_draw(0), RoomType::Bedroom);
    assert_eq!(RoomType::from_draw(1), RoomType::Kitchen);
    assert_eq!(RoomType::Bedroom.index(), 0);
    assert_eq!(RoomType::Kitchen.index(), 1);
}

#[test]
fn room_records_are_sets() {
    let mut room = Room::new(0, 4, RoomType::Bedroom);
    assert!(!room.is_linked(2));
    room.connect(2);
    room.connect(5);
    room.connect(2);
    assert_eq!(room.connected_to, vec![2, 5]);
    assert!(room.is_linked(2));
    assert!(room.is_linked(5));
    assert!(!room.is_linked(0));
}

#[test]
fn slots_of_navigation_nodes() {
    assert_eq!(NAV_SELF, 4);
    assert_eq!(NAV_OUTSIDE, 5);
}
