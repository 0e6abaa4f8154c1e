use building_nav::building::Building;
use building_nav::cell::Cell;
use building_nav::coord::Coord;
use building_nav::nav::{NavNodeType, Navigator};
use building_nav::rect::Rect;
use building_nav::room::{Room, RoomType};
use building_nav::wall::State;
use building_nav::world::{Pos, CELL_SIZE, UNIT};

fn at(x: i16, z: i16) -> Coord {
    Coord { x, z }
}

fn layout(origin: Pos, rooms: &[&[(i16, i16)]]) -> Building {
    let mut b = Building::bare(origin, None);
    for cells in rooms.iter() {
        let id = b.open_room(cells.len(), RoomType::Bedroom);
        for (x, z) in cells.iter() {
            Cell::new(at(*x, *z), id, &mut b);
        }
    }
    for i in 0..b.cells.len() {
        Cell::collapse_walls(&mut b, i);
    }
    b
}

fn point(pos: Pos) -> Rect {
    Rect::build(UNIT, UNIT).center_at(&pos)
}

#[test]
fn a_cell_without_doors_gets_its_interior_node() {
    let mut b = layout(Pos { x: 500, z: -500 }, &[&[(1, 1)]]);
    b.gen_navigation();
    assert!(b.navigated);
    assert_eq!(b.nav.len(), 1);
    let node = b.nav.node(0);
    assert_eq!(node.id, 0);
    assert_eq!(node.kind, NavNodeType::Cell);
    assert_eq!(node.pos, Pos { x: 30_500, z: 29_500 });
    assert_eq!(node.area, Rect::build(CELL_SIZE, CELL_SIZE).center_at(&node.pos));
    assert_eq!(
        node.area,
        Rect { z_min: 14_500, z_max: 44_500, x_min: 15_500, x_max: 45_500, w: 30_000, h: 30_000 }
    );
    assert!(node.adj.is_empty());
    assert_eq!(b.cells[0].nav_nodes, [None, None, None, None, Some(0), None]);
    assert_eq!(b.cells[0].nav_node(), Some(0));
}

#[test]
fn one_room_building_of_one_cell() {
    let mut b = Building::bare(Pos { x: 0, z: 0 }, None);
    Room::create_sized(&mut b, at(0, 0), 1, RoomType::Bedroom);
    b.join_rooms();
    assert!(b.rooms[0].connected_to.is_empty());
    assert_eq!(b.cells[0].wall_state, [State::Solid; 4]);
    let after = b.carve_outside_doors([(0, 1); 4]);
    assert_eq!(after, [(1, 1), (0, 1), (0, 1), (0, 1)]);
    assert_eq!(b.cells[0].wall_state, [State::Door, State::Solid, State::Solid, State::Solid]);
    b.gen_navigation();
    assert_eq!(b.nav.len(), 3);
    let kinds: Vec<NavNodeType> = b.nav.nodes.iter().map(|n| n.kind).collect();
    assert_eq!(kinds, vec![NavNodeType::Cell, NavNodeType::Door, NavNodeType::Outside]);
    assert_eq!(b.nav.node(0).adj, vec![1]);
    assert_eq!(b.nav.node(1).adj, vec![0, 2]);
    assert_eq!(b.nav.node(2).adj, vec![1]);
    assert_eq!(b.cells[0].nav_nodes, [Some(1), None, None, None, Some(0), Some(2)]);
}

#[test]
fn a_cell_with_four_outside_doors() {
    let mut b = layout(Pos { x: 0, z: 0 }, &[&[(0, 0)]]);
    b.carve_outside_doors([(0, 1), (0, 1), (0, 1), (0, 1)]);
    b.carve_outside_doors([(1, 1), (0, 1), (0, 1), (0, 1)]);
    b.carve_outside_doors([(1, 1), (1, 1), (0, 1), (0, 1)]);
    b.carve_outside_doors([(1, 1), (1, 1), (1, 1), (0, 1)]);
    assert_eq!(b.cells[0].wall_state, [State::Door; 4]);
    b.gen_navigation();
    assert_eq!(b.nav.len(), 9);
    let cells = b.nav.nodes.iter().filter(|n| n.kind == NavNodeType::Cell).count();
    let doors = b.nav.nodes.iter().filter(|n| n.kind == NavNodeType::Door).count();
    let outsides = b.nav.nodes.iter().filter(|n| n.kind == NavNodeType::Outside).count();
    assert_eq!((cells, doors, outsides), (1, 4, 4));
    assert_eq!(b.nav.node(0).adj, vec![1, 3, 5, 7]);
    assert_eq!(b.cells[0].nav_nodes, [Some(1), Some(3), Some(5), Some(7), Some(0), Some(8)]);
    let expected = [
        (1, Pos { x: 15_000, z: 0 }, Pos { x: 45_000, z: 0 }),
        (3, Pos { x: 0, z: 15_000 }, Pos { x: 0, z: 45_000 }),
        (5, Pos { x: -15_000, z: 0 }, Pos { x: -45_000, z: 0 }),
        (7, Pos { x: 0, z: -15_000 }, Pos { x: 0, z: -45_000 }),
    ];
    for (door, door_at, outside_at) in expected.iter() {
        let d = b.nav.node(*door);
        assert_eq!(d.kind, NavNodeType::Door);
        assert_eq!(d.pos, *door_at);
        assert_eq!(d.area, point(*door_at));
        assert_eq!(d.adj, vec![0, door + 1]);
        let o = b.nav.node(door + 1);
        assert_eq!(o.kind, NavNodeType::Outside);
        assert_eq!(o.pos, *outside_at);
        assert_eq!(o.area, point(*outside_at));
        assert_eq!(o.adj, vec![*door]);
    }
}

#[test]
fn each_side_of_an_inner_door_gets_its_own_node() {
    let mut b = layout(Pos { x: 0, z: 0 }, &[&[(0, 0)], &[(1, 0)]]);
    b.join_rooms();
    b.gen_navigation();
    assert_eq!(b.nav.len(), 4);
    let kinds: Vec<NavNodeType> = b.nav.nodes.iter().map(|n| n.kind).collect();
    assert_eq!(
        kinds,
        vec![NavNodeType::Cell, NavNodeType::Door, NavNodeType::Cell, NavNodeType::Door]
    );
    assert_eq!(b.nav.node(1).pos, Pos { x: 15_000, z: 0 });
    assert_eq!(b.nav.node(3).pos, Pos { x: 15_000, z: 0 });
    assert_eq!(b.nav.node(0).adj, vec![1]);
    assert_eq!(b.nav.node(1).adj, vec![0]);
    assert_eq!(b.nav.node(2).adj, vec![3]);
    assert_eq!(b.nav.node(3).adj, vec![2]);
    assert_eq!(b.cells[0].nav_nodes, [Some(1), None, None, None, Some(0), None]);
    assert_eq!(b.cells[1].nav_nodes, [None, None, Some(3), None, Some(2), None]);
}

#[test]
fn an_open_side_links_the_door_node_of_the_neighbour() {
    let mut b = layout(Pos { x: 0, z: 0 }, &[&[(0, 0), (1, 0)]]);
    Cell::set_wall(&mut b, 0, 0, State::Door);
    b.gen_navigation();
    assert_eq!(b.nav.len(), 3);
    assert_eq!(b.cells[0].nav_nodes, [Some(1), None, None, None, Some(0), None]);
    assert_eq!(b.cells[1].nav_nodes, [None, None, None, None, Some(2), None]);
    assert_eq!(b.nav.node(0).adj, vec![1]);
    assert_eq!(b.nav.node(1).adj, vec![0, 2]);
    assert_eq!(b.nav.node(2).adj, vec![1]);
    let route = b.path_between(0, 1);
    assert_eq!(route, vec![2, 1, 0]);
    let mut navigator = Navigator::new(0, 2);
    navigator.nav(&b.nav);
    assert_eq!(navigator.path, vec![0, 1, 2]);
}

#[test]
fn laying_out_one_cell_adds_its_nodes_to_the_graph() {
    let mut b = layout(Pos { x: 0, z: 0 }, &[&[(0, 0)], &[(0, 1)]]);
    b.join_rooms();
    b.carve_outside_doors([(0, 1); 4]);
    assert_eq!(b.cells[0].wall_state, [State::Door, State::Door, State::Solid, State::Solid]);
    assert_eq!(b.cells[1].wall_state, [State::Solid, State::Door, State::Solid, State::Door]);
    Cell::gen_navigation(&mut b, 1);
    assert_eq!(b.nav.len(), 4);
    assert_eq!(b.cells[1].nav_nodes, [None, Some(1), None, Some(3), Some(0), Some(2)]);
    Cell::gen_navigation(&mut b, 0);
    assert_eq!(b.nav.len(), 8);
    assert_eq!(b.cells[0].nav_nodes, [Some(5), Some(7), None, None, Some(4), Some(6)]);
    assert_eq!(b.nav.node(4).kind, NavNodeType::Cell);
    assert_eq!(b.nav.node(5).kind, NavNodeType::Door);
    assert_eq!(b.nav.node(6).kind, NavNodeType::Outside);
    assert_eq!(b.nav.node(7).kind, NavNodeType::Door);
    assert_eq!(b.nav.node(4).adj, vec![5, 7]);
    assert_eq!(b.nav.node(7).adj, vec![4]);
    assert_eq!(b.nav.node(7).pos, b.nav.node(3).pos);
}

#[test]
fn generating_the_graph_twice_changes_nothing() {
    let mut b = layout(Pos { x: 0, z: 0 }, &[&[(0, 0), (1, 0)], &[(0, 1)]]);
    b.join_rooms();
    b.carve_outside_doors([(0, 2); 4]);
    b.gen_navigation();
    let nodes = b.nav.len();
    let records: Vec<[Option<usize>; 6]> = b.cells.iter().map(|c| c.nav_nodes).collect();
    b.gen_navigation();
    assert_eq!(b.nav.len(), nodes);
    assert_eq!(b.cells.iter().map(|c| c.nav_nodes).collect::<Vec<_>>(), records);
}

#[test]
fn route_of_a_cell_to_itself_is_its_node() {
    let mut b = layout(Pos { x: 0, z: 0 }, &[&[(0, 0), (1, 0)]]);
    assert_eq!(b.path_between(0, 1), Vec::<usize>::new());
    b.gen_navigation();
    assert_eq!(b.path_between(1, 1), vec![1]);
    assert_eq!(b.path_between(0, 1), Vec::<usize>::new());
}

#[test]
fn generating_lays_out_the_cells_that_are_not_laid_out() {
    let mut b = layout(Pos { x: 0, z: 0 }, &[&[(0, 0)], &[(1, 0)], &[(2, 0)]]);
    b.join_rooms();
    Cell::gen_navigation(&mut b, 1);
    assert!(b.navigated);
    assert_eq!(b.nav.len(), 3);
    assert_eq!(b.cells[1].nav_nodes, [Some(1), None, Some(2), None, Some(0), None]);
    assert_eq!(b.cells[0].nav_node(), None);
    b.gen_navigation();
    assert_eq!(b.nav.len(), 7);
    assert_eq!(b.cells[0].nav_nodes, [Some(4), None, None, None, Some(3), None]);
    assert_eq!(b.cells[1].nav_nodes, [Some(1), None, Some(2), None, Some(0), None]);
    assert_eq!(b.cells[2].nav_nodes, [None, None, Some(6), None, Some(5), None]);
    for cell in b.cells.iter() {
        let own = cell.nav_node().unwrap();
        assert_eq!(b.nav.node(own).kind, NavNodeType::Cell);
        assert_eq!(b.nav.node(own).pos, cell.pos);
    }
    let own: Vec<usize> = b.cells.iter().map(|c| c.nav_node().unwrap()).collect();
    assert_eq!(own, vec![3, 0, 5]);
    assert_eq!(b.nav.node(0).adj, vec![1, 2]);
    assert_eq!(b.nav.node(3).adj, vec![4]);
}
