use building_nav::building::Building;
use building_nav::cell::Cell;
use building_nav::coord::Coord;
use building_nav::rect::Rect;
use building_nav::room::{Room, RoomType};
use building_nav::wall::State;
use building_nav::world::{Pos, CELL_SIZE};

fn at(x: i16, z: i16) -> Coord {
    Coord { x, z }
}

fn layout(rooms: &[&[(i16, i16)]]) -> Building {
    let mut b = Building::bare(Pos { x: 0, z: 0 }, None);
    for cells in rooms.iter() {
        let id = b.open_room(cells.len(), RoomType::Bedroom);
        for (x, z) in cells.iter() {
            Cell::new(at(*x, *z), id, &mut b);
        }
    }
    for i in 0..b.cells.len() {
        Cell::collapse_walls(&mut b, i);
    }
    b
}

/// The doors from room `a` into room `b`: cell index and side.
fn doors_between(b: &Building, from: usize, into: usize) -> Vec<(usize, usize)> {
    let mut found = Vec::new();
    for (i, cell) in b.cells.iter().enumerate() {
        if cell.room != from {
            continue;
        }
        for d in 0..4 {
            if cell.wall_state[d] != State::Door {
                continue;
            }
            if let Some(other) = b.cell_at(&cell.coord.step(d)) {
                if other.room == into {
                    found.push((i, d));
                }
            }
        }
    }
    found
}

fn count_doors(b: &Building) -> usize {
    b.cells.iter().map(|c| c.wall_state.iter().filter(|s| **s == State::Door).count()).sum()
}

#[test]
fn create_door_opens_both_sides() {
    let mut b = layout(&[&[(0, 0)], &[(0, 1)]]);
    Cell::create_door(&mut b, 0, 1, 1);
    assert_eq!(b.cells[0].wall_state, [State::Solid, State::Door, State::Solid, State::Solid]);
    assert_eq!(b.cells[1].wall_state, [State::Solid, State::Solid, State::Solid, State::Door]);
}

#[test]
fn join_across_carves_once_for_a_pair_of_rooms() {
    let mut b = layout(&[&[(0, 0), (1, 0)], &[(0, 1), (1, 1)]]);
    assert_eq!(Room::join_across(&mut b, 0, 0), None);
    assert_eq!(Room::join_across(&mut b, 0, 2), None);
    assert_eq!(count_doors(&b), 0);
    assert_eq!(Room::join_across(&mut b, 0, 1), Some(2));
    assert_eq!(b.cells[0].wall_state[1], State::Door);
    assert_eq!(b.cells[2].wall_state[3], State::Door);
    assert_eq!(b.rooms[0].connected_to, vec![1]);
    assert_eq!(b.rooms[1].connected_to, vec![0]);
    assert_eq!(Room::join_across(&mut b, 1, 1), None);
    assert_eq!(Room::join_across(&mut b, 3, 3), None);
    assert_eq!(count_doors(&b), 2);
    assert_eq!(b.cells[1].wall_state[1], State::Solid);
}

#[test]
fn two_rooms_of_three_cells_get_one_door_pair() {
    let footprint = Rect::new(0, 0, 0, 5 * CELL_SIZE);
    let mut b = Building::bare(Pos { x: 0, z: 0 }, Some(footprint));
    let first = Room::create_sized(&mut b, at(0, 0), 3, RoomType::Bedroom);
    let second = Room::create_sized(&mut b, at(3, 0), 3, RoomType::Kitchen);
    b.join_rooms();
    assert_eq!(doors_between(&b, first, second), vec![(2, 0)]);
    assert_eq!(doors_between(&b, second, first), vec![(3, 2)]);
    assert_eq!(count_doors(&b), 2);
    assert_eq!(b.rooms[first].connected_to, vec![second]);
    assert_eq!(b.rooms[second].connected_to, vec![first]);
    let after = b.carve_outside_doors([(0, 0); 4]);
    assert_eq!(after, [(0, 0); 4]);
    assert_eq!(count_doors(&b), 2);
    b.gen_navigation();
    let door_nodes = b
        .nav
        .nodes
        .iter()
        .filter(|n| n.kind == building_nav::nav::NavNodeType::Door)
        .count();
    assert_eq!(door_nodes, 2);
    for node in b.nav.nodes.iter() {
        for next in node.adj.iter() {
            assert!(b.nav.has_edge(*next, node.id));
            let both_cells = node.kind == building_nav::nav::NavNodeType::Cell
                && b.nav.nodes[*next].kind == building_nav::nav::NavNodeType::Cell;
            assert!(!both_cells);
        }
    }
    let route = b.path_between(0, 5);
    assert_eq!(route, Vec::<usize>::new());
    let to_the_door = b.cells[2].nav_nodes[0].unwrap();
    let mut navigator =
        building_nav::nav::Navigator::new(b.cells[2].nav_node().unwrap(), to_the_door);
    navigator.nav(&b.nav);
    assert_eq!(navigator.path, vec![b.cells[2].nav_node().unwrap(), to_the_door]);
}

#[test]
fn rooms_that_touch_twice_get_one_door() {
    let mut b = layout(&[&[(0, 0), (1, 0), (2, 0)], &[(0, 1), (1, 1), (2, 1)]]);
    b.join_rooms();
    assert_eq!(doors_between(&b, 0, 1), vec![(0, 1)]);
    assert_eq!(doors_between(&b, 1, 0), vec![(3, 3)]);
    assert_eq!(count_doors(&b), 2);
    assert_eq!(b.cells[1].wall_state[1], State::Solid);
    assert_eq!(b.cells[4].wall_state[3], State::Solid);
}

#[test]
fn three_rooms_in_a_row_get_two_doors() {
    let mut b = layout(&[&[(0, 0)], &[(1, 0)], &[(2, 0)]]);
    b.join_rooms();
    assert_eq!(doors_between(&b, 0, 1).len(), 1);
    assert_eq!(doors_between(&b, 1, 2).len(), 1);
    assert_eq!(doors_between(&b, 0, 2).len(), 0);
    assert_eq!(b.rooms[0].connected_to, vec![1]);
    assert_eq!(b.rooms[1].connected_to, vec![0, 2]);
    assert_eq!(b.rooms[2].connected_to, vec![1]);
    assert_eq!(count_doors(&b), 4);
}

#[test]
fn joining_twice_changes_nothing() {
    let mut b = layout(&[&[(0, 0), (1, 0)], &[(0, 1)], &[(1, 1)]]);
    b.join_rooms();
    let walls: Vec<[State; 4]> = b.cells.iter().map(|c| c.wall_state).collect();
    let records: Vec<Vec<usize>> = b.rooms.iter().map(|r| r.connected_to.clone()).collect();
    b.join_rooms();
    assert_eq!(b.cells.iter().map(|c| c.wall_state).collect::<Vec<_>>(), walls);
    assert_eq!(b.rooms.iter().map(|r| r.connected_to.clone()).collect::<Vec<_>>(), records);
}

#[test]
fn room_joins_its_own_neighbours_only() {
    let mut b = layout(&[&[(0, 0)], &[(1, 0)], &[(2, 0)]]);
    Room::join_rooms(&mut b, 0);
    assert_eq!(b.rooms[0].connected_to, vec![1]);
    assert_eq!(b.rooms[1].connected_to, vec![0]);
    assert!(b.rooms[2].connected_to.is_empty());
    assert_eq!(count_doors(&b), 2);
}

#[test]
fn outside_door_takes_the_first_side_below_its_cap() {
    let mut b = layout(&[&[(0, 0), (1, 0)]]);
    let mut count = [(0u8, 1u8); 4];
    Cell::create_outside_door(&mut b, 0, &mut count);
    assert_eq!(b.cells[0].wall_state, [State::Open, State::Door, State::Solid, State::Solid]);
    assert_eq!(count, [(0, 1), (1, 1), (0, 1), (0, 1)]);
    Cell::create_outside_door(&mut b, 1, &mut count);
    assert_eq!(b.cells[1].wall_state, [State::Door, State::Solid, State::Open, State::Solid]);
    assert_eq!(count, [(1, 1), (1, 1), (0, 1), (0, 1)]);
    Cell::create_outside_door(&mut b, 0, &mut count);
    assert_eq!(b.cells[0].wall_state, [State::Open, State::Door, State::Door, State::Solid]);
    assert_eq!(count, [(1, 1), (1, 1), (1, 1), (0, 1)]);
}

#[test]
fn outside_door_is_not_carved_above_the_cap() {
    let mut b = layout(&[&[(0, 0)]]);
    let mut count = [(2u8, 2u8), (3, 2), (0, 0), (5, 5)];
    Cell::create_outside_door(&mut b, 0, &mut count);
    assert_eq!(b.cells[0].wall_state, [State::Solid; 4]);
    assert_eq!(count, [(2, 2), (3, 2), (0, 0), (5, 5)]);
}

#[test]
fn outside_doors_never_face_a_cell() {
    let mut b = layout(&[&[(0, 0)], &[(1, 0)], &[(0, 1)], &[(-1, 0)], &[(0, -1)]]);
    let mut count = [(0u8, 9u8); 4];
    Cell::create_outside_door(&mut b, 0, &mut count);
    assert_eq!(b.cells[0].wall_state, [State::Solid; 4]);
    assert_eq!(count, [(0, 9); 4]);
}

#[test]
fn a_pass_carves_at_most_one_door_into_each_cell() {
    let mut b = layout(&[&[(0, 0), (1, 0), (2, 0)]]);
    let after = b.carve_outside_doors([(0, 2); 4]);
    assert_eq!(after, [(1, 2), (2, 2), (0, 2), (0, 2)]);
    assert_eq!(b.cells[0].wall_state, [State::Open, State::Door, State::Solid, State::Solid]);
    assert_eq!(b.cells[1].wall_state, [State::Open, State::Door, State::Open, State::Solid]);
    assert_eq!(b.cells[2].wall_state, [State::Door, State::Solid, State::Open, State::Solid]);
}

#[test]
fn a_pass_with_spent_counters_moves_on_to_other_sides() {
    let mut b = layout(&[&[(0, 0), (1, 0), (2, 0)]]);
    let after = b.carve_outside_doors([(1, 1), (0, 1), (0, 1), (0, 1)]);
    assert_eq!(after, [(1, 1), (1, 1), (0, 1), (1, 1)]);
    assert_eq!(b.cells[0].wall_state, [State::Open, State::Door, State::Solid, State::Solid]);
    assert_eq!(b.cells[1].wall_state, [State::Open, State::Solid, State::Open, State::Door]);
    assert_eq!(b.cells[2].wall_state, [State::Solid, State::Solid, State::Open, State::Solid]);
}

#[test]
fn random_caps_allow_two_to_four_doors() {
    let mut caps = std::collections::HashSet::new();
    for _ in 0..200 {
        let mut b = layout(&[&[(0, 0), (1, 0), (2, 0), (3, 0), (4, 0), (5, 0), (6, 0), (7, 0), (8, 0), (9, 0)]]);
        let after = b.create_outside_doors();
        let cap = after[0].1;
        assert!(cap >= 2 && cap < 5);
        for d in 0..4 {
            assert_eq!(after[d].1, cap);
            assert!(after[d].0 <= cap);
        }
        assert_eq!(after[1].0, cap);
        assert_eq!(after[3].0, cap);
        let carved: usize = after.iter().map(|c| c.0 as usize).sum();
        assert_eq!(count_doors(&b), carved);
        for cell in b.cells.iter() {
            assert!(cell.wall_state.iter().filter(|s| **s == State::Door).count() <= 1);
        }
        caps.insert(cap);
    }
    assert_eq!(caps.len(), 3);
}

#[test]
fn joining_a_room_twice_changes_nothing() {
    let mut b = layout(&[&[(0, 0), (1, 0)], &[(0, 1), (1, 1)], &[(2, 0)]]);
    Room::join_rooms(&mut b, 0);
    assert_eq!(doors_between(&b, 0, 1), vec![(0, 1)]);
    assert_eq!(doors_between(&b, 0, 2), vec![(1, 0)]);
    assert_eq!(doors_between(&b, 1, 2), Vec::<(usize, usize)>::new());
    let walls: Vec<[State; 4]> = b.cells.iter().map(|c| c.wall_state).collect();
    let records: Vec<Vec<usize>> = b.rooms.iter().map(|r| r.connected_to.clone()).collect();
    Room::join_rooms(&mut b, 0);
    assert_eq!(b.cells.iter().map(|c| c.wall_state).collect::<Vec<_>>(), walls);
    assert_eq!(b.rooms.iter().map(|r| r.connected_to.clone()).collect::<Vec<_>>(), records);
    assert_eq!(b.cells[1].wall_state[1], State::Solid);
}

#[test]
fn joining_a_room_changes_its_own_boundaries_only() {
    let mut b = layout(&[&[(0, 0)], &[(1, 0)], &[(2, 0)], &[(3, 0)]]);
    Room::join_rooms(&mut b, 1);
    assert_eq!(b.cells[0].wall_state, [State::Door, State::Solid, State::Solid, State::Solid]);
    assert_eq!(b.cells[1].wall_state, [State::Door, State::Solid, State::Door, State::Solid]);
    assert_eq!(b.cells[2].wall_state, [State::Solid, State::Solid, State::Door, State::Solid]);
    assert_eq!(b.cells[3].wall_state, [State::Solid; 4]);
    assert!(b.rooms[3].connected_to.is_empty());
    assert_eq!(b.rooms[2].connected_to, vec![1]);
}
