use building_nav::building::Building;
use building_nav::coord::opposite_of;
use building_nav::nav::{NavNodeType, Navigator};
use building_nav::rect::Rect;
use building_nav::wall::State;
use building_nav::world::{Pos, CELL_SIZE, UNIT};
use std::collections::{HashMap, HashSet};

fn footprint() -> Rect {
    Rect::build(200 * UNIT, 200 * UNIT).enter_south_middle_at(&Pos { x: 0, z: 0 })
}

fn generated() -> Vec<Building> {
    let mut all = Vec::new();
    for k in 0..40 {
        let bounds = if k % 2 == 0 { Some(footprint()) } else { None };
        all.push(Building::generate(Pos { x: 0, z: 0 }, bounds, 10));
    }
    all
}

#[test]
fn every_cell_belongs_to_a_room_that_lists_it() {
    for b in generated() {
        assert!(!b.rooms.is_empty() && b.rooms.len() <= 11);
        let mut seen = HashSet::new();
        for cell in b.cells.iter() {
            assert!(cell.room < b.rooms.len());
            assert_eq!(b.rooms[cell.room].id, cell.room);
            assert!(b.rooms[cell.room].cells.contains(&cell.coord));
            assert!(seen.insert(cell.coord));
            assert_eq!(cell.pos, b.coord_to_pos_global(&cell.coord));
        }
        let listed: usize = b.rooms.iter().map(|r| r.len()).sum();
        assert_eq!(listed, b.cells.len());
        for room in b.rooms.iter() {
            assert!(room.len() <= room.size);
            assert!(room.len() >= 1);
        }
    }
}

#[test]
fn cells_stay_inside_the_footprint() {
    let bounds = footprint();
    for _ in 0..20 {
        let b = Building::generate(Pos { x: 0, z: 0 }, Some(bounds), 10);
        for cell in b.cells.iter() {
            assert!(bounds.contains(&cell.pos));
            assert!(cell.coord.x >= 0 && cell.coord.x <= 6);
            assert!(cell.coord.z >= -3 && cell.coord.z <= 3);
        }
    }
}

#[test]
fn walls_are_open_exactly_towards_the_same_room() {
    for b in generated() {
        for cell in b.cells.iter() {
            for d in 0..4 {
                let same_room =
                    b.cell_at(&cell.coord.step(d)).map(|n| n.room == cell.room).unwrap_or(false);
                assert_eq!(cell.wall_state[d] == State::Open, same_room);
                assert!(cell.wall_state[d] != State::Window);
            }
        }
    }
}

#[test]
fn doors_are_doors_on_both_sides() {
    for b in generated() {
        for cell in b.cells.iter() {
            for d in 0..4 {
                if cell.wall_state[d] != State::Door {
                    continue;
                }
                if let Some(other) = b.cell_at(&cell.coord.step(d)) {
                    assert_eq!(other.wall_state[opposite_of(d)], State::Door);
                    assert!(other.room != cell.room);
                }
            }
        }
    }
}

#[test]
fn rooms_that_share_a_wall_are_joined_by_one_door() {
    for b in generated() {
        let mut shared: HashSet<(usize, usize)> = HashSet::new();
        let mut doors: HashMap<(usize, usize), usize> = HashMap::new();
        for cell in b.cells.iter() {
            for d in 0..4 {
                if let Some(other) = b.cell_at(&cell.coord.step(d)) {
                    if other.room != cell.room {
                        shared.insert((cell.room, other.room));
                        if cell.wall_state[d] == State::Door {
                            *doors.entry((cell.room, other.room)).or_insert(0) += 1;
                        }
                    }
                }
            }
        }
        for pair in shared.iter() {
            assert_eq!(doors.get(pair), Some(&1));
            assert!(b.rooms[pair.0].is_linked(pair.1));
        }
        assert_eq!(doors.len(), shared.len());
        for (a, room) in b.rooms.iter().enumerate() {
            for other in room.connected_to.iter() {
                assert!(shared.contains(&(a, *other)));
            }
        }
    }
}

#[test]
fn outside_doors_stay_below_their_cap() {
    for b in generated() {
        let mut per_side = [0usize; 4];
        for cell in b.cells.iter() {
            let mut own = 0;
            for d in 0..4 {
                if cell.wall_state[d] == State::Door && b.cell_at(&cell.coord.step(d)).is_none() {
                    per_side[d] += 1;
                    own += 1;
                }
            }
            assert!(own <= 1);
        }
        for d in 0..4 {
            assert!(per_side[d] <= 4);
        }
    }
}

#[test]
fn graph_has_a_node_for_each_cell_door_and_threshold() {
    for b in generated() {
        assert!(b.navigated);
        let mut doors = 0;
        let mut thresholds = 0;
        for cell in b.cells.iter() {
            let own = cell.nav_node().unwrap();
            assert_eq!(b.nav.node(own).kind, NavNodeType::Cell);
            assert_eq!(b.nav.node(own).pos, cell.pos);
            assert_eq!(b.nav.node(own).area, Rect::build(CELL_SIZE, CELL_SIZE).center_at(&cell.pos));
            for d in 0..4 {
                if cell.wall_state[d] == State::Door {
                    doors += 1;
                    let door = cell.nav_nodes[d].unwrap();
                    assert_eq!(b.nav.node(door).kind, NavNodeType::Door);
                    assert!(b.nav.has_edge(own, door));
                    assert!(b.nav.has_edge(door, own));
                    if b.cell_at(&cell.coord.step(d)).is_none() {
                        thresholds += 1;
                        assert_eq!(cell.nav_nodes[5], Some(door + 1));
                        assert_eq!(b.nav.node(door + 1).kind, NavNodeType::Outside);
                        assert!(b.nav.has_edge(door + 1, door));
                        assert!(b.nav.has_edge(door, door + 1));
                    }
                } else {
                    assert_eq!(cell.nav_nodes[d], None);
                }
            }
        }
        assert_eq!(b.nav.len(), b.cells.len() + doors + thresholds);
    }
}

#[test]
fn every_edge_has_its_reverse() {
    for b in generated() {
        for node in b.nav.nodes.iter() {
            for next in node.adj.iter() {
                assert!(*next != node.id);
                assert!(b.nav.has_edge(*next, node.id));
                let both_cells = node.kind == NavNodeType::Cell
                    && b.nav.node(*next).kind == NavNodeType::Cell;
                assert!(!both_cells);
            }
        }
    }
}

#[test]
fn searches_over_a_generated_graph_end_and_repeat() {
    for b in generated() {
        let n = b.nav.len();
        for from in 0..n.min(12) {
            for to in (0..n).rev().take(12) {
                let mut first = Navigator::new(from, to);
                first.nav(&b.nav);
                let mut second = Navigator::new(from, to);
                second.nav(&b.nav);
                assert_eq!(first.path, second.path);
                if let Some(last) = first.path.last() {
                    assert_eq!(*last, to);
                    assert_eq!(first.path[0], from);
                }
                for pair in first.path.windows(2) {
                    assert!(b.nav.has_edge(pair[0], pair[1]));
                }
                if from == to {
                    assert_eq!(first.path, vec![from]);
                }
            }
        }
    }
}

#[test]
fn a_cell_reaches_its_own_threshold() {
    for b in generated() {
        for cell in b.cells.iter() {
            if let Some(outside) = cell.nav_nodes[5] {
                let own = cell.nav_node().unwrap();
                let mut navigator = Navigator::new(own, outside);
                navigator.nav(&b.nav);
                assert_eq!(navigator.path.len(), 3);
                assert_eq!(navigator.path[0], own);
                assert_eq!(b.nav.node(navigator.path[1]).kind, NavNodeType::Door);
                assert_eq!(navigator.path[2], outside);
            }
        }
    }
}

#[test]
fn generation_varies() {
    let mut shapes = HashSet::new();
    for b in generated() {
        let mut coords: Vec<(i16, i16)> = b.cells.iter().map(|c| (c.coord.x, c.coord.z)).collect();
        coords.sort();
        shapes.insert(coords);
    }
    assert!(shapes.len() > 1);
}

#[test]
fn rooms_are_seeded_while_there_is_room() {
    for b in generated() {
        assert!(b.rooms.len() == 11 || b.outer().is_empty());
    }
    for _ in 0..20 {
        let b = Building::generate(Pos { x: 0, z: 0 }, None, 10);
        assert_eq!(b.rooms.len(), 11);
    }
}

#[test]
fn rooms_grow_as_far_as_they_can() {
    for b in generated() {
        for room in b.rooms.iter() {
            assert!(room.len() == room.size || b.frontier_of(&room.cells).is_empty());
        }
    }
}

#[test]
fn a_generated_building_has_doors_to_the_outside() {
    for b in generated() {
        let outside = b
            .cells
            .iter()
            .filter(|c| {
                (0..4).any(|d| {
                    c.wall_state[d] == State::Door && b.cell_at(&c.coord.step(d)).is_none()
                })
            })
            .count();
        assert!(outside >= 2);
        let first = &b.cells[0];
        let first_side = (0..4).find(|d| b.cell_at(&first.coord.step(*d)).is_none());
        if let Some(d) = first_side {
            assert_eq!(first.wall_state[d], State::Door);
        }
    }
}

#[test]
fn agents_are_found_in_the_cells_of_a_generated_building() {
    for b in generated() {
        for cell in b.cells.iter() {
            assert_eq!(b.pos_global_to_coord(cell.pos), cell.coord);
            assert_eq!(b.pos_global_to_cell(cell.pos).map(|c| c.coord), Some(cell.coord));
        }
    }
}
