use building_nav::nav::{NavGraph, NavNode, NavNodeType, Navigator};
use building_nav::rect::Rect;
use building_nav::world::{Pos, UNIT};

fn area(pos: &Pos) -> Rect {
    Rect::build(UNIT, UNIT).center_at(pos)
}

fn node(graph: &mut NavGraph, x: i32, z: i32, kind: NavNodeType) -> usize {
    let pos = Pos { x, z };
    graph.add(pos, kind, area(&pos))
}

fn route(graph: &NavGraph, from: usize, to: usize) -> Vec<usize> {
    let mut navigator = Navigator::new(from, to);
    navigator.nav(graph);
    navigator.path
}

#[test]
fn node_type_defaults_to_other() {
    assert_eq!(NavNodeType::default(), NavNodeType::Other);
}

#[test]
fn new_node_keeps_what_it_is_given() {
    let pos = Pos { x: 1, z: 2 };
    let n = NavNode::new(7, pos, NavNodeType::Door, area(&pos), vec![3, 4]);
    assert_eq!(n.id, 7);
    assert_eq!(n.pos, pos);
    assert_eq!(n.kind, NavNodeType::Door);
    assert_eq!(n.area, area(&pos));
    assert_eq!(n.adj, vec![3, 4]);
}

#[test]
fn added_nodes_are_numbered_in_order() {
    let mut g = NavGraph::new();
    assert_eq!(g.len(), 0);
    assert_eq!(node(&mut g, 0, 0, NavNodeType::Cell), 0);
    assert_eq!(node(&mut g, 5, 0, NavNodeType::Door), 1);
    assert_eq!(g.len(), 2);
    assert_eq!(g.node(1).id, 1);
    assert_eq!(g.node(1).pos, Pos { x: 5, z: 0 });
    assert_eq!(g.node(1).kind, NavNodeType::Door);
    assert!(g.node(1).adj.is_empty());
}

#[test]
fn insert_edge_is_one_way_and_idempotent() {
    let mut g = NavGraph::new();
    let a = node(&mut g, 0, 0, NavNodeType::Cell);
    let b = node(&mut g, 5, 0, NavNodeType::Door);
    g.insert_edge(a, b);
    g.insert_edge(a, b);
    assert_eq!(g.node(a).adj, vec![b]);
    assert!(g.node(b).adj.is_empty());
    assert!(g.has_edge(a, b));
    assert!(!g.has_edge(b, a));
}

#[test]
fn link_is_two_way_and_idempotent() {
    let mut g = NavGraph::new();
    let a = node(&mut g, 0, 0, NavNodeType::Cell);
    let b = node(&mut g, 5, 0, NavNodeType::Door);
    g.link(a, b);
    g.link(b, a);
    assert_eq!(g.node(a).adj, vec![b]);
    assert_eq!(g.node(b).adj, vec![a]);
}

#[test]
fn search_from_a_node_to_itself_is_that_node() {
    let mut g = NavGraph::new();
    let a = node(&mut g, 0, 0, NavNodeType::Cell);
    let b = node(&mut g, 5, 0, NavNodeType::Door);
    g.link(a, b);
    let mut navigator = Navigator::new(a, a);
    assert!(navigator.is_done());
    navigator.nav(&g);
    assert_eq!(navigator.path, vec![a]);
    assert!(navigator.traversed.is_empty());
}

#[test]
fn search_without_edges_finds_no_route() {
    let mut g = NavGraph::new();
    let a = node(&mut g, 0, 0, NavNodeType::Cell);
    let b = node(&mut g, 5, 0, NavNodeType::Cell);
    assert_eq!(route(&g, a, b), Vec::<usize>::new());
}

#[test]
fn search_in_a_cut_off_part_finds_no_route() {
    let mut g = NavGraph::new();
    let a = node(&mut g, 0, 0, NavNodeType::Cell);
    let b = node(&mut g, 5, 0, NavNodeType::Door);
    let c = node(&mut g, 10, 0, NavNodeType::Cell);
    let far = node(&mut g, 50, 0, NavNodeType::Cell);
    g.link(a, b);
    g.link(b, c);
    g.link(c, a);
    let mut navigator = Navigator::new(a, far);
    navigator.nav(&g);
    assert!(navigator.path.is_empty());
    assert_eq!(navigator.traversed.len(), 3);
}

#[test]
fn search_walks_a_chain() {
    let mut g = NavGraph::new();
    let a = node(&mut g, 0, 0, NavNodeType::Cell);
    let b = node(&mut g, 15, 0, NavNodeType::Door);
    let c = node(&mut g, 30, 0, NavNodeType::Cell);
    g.link(a, b);
    g.link(b, c);
    assert_eq!(route(&g, a, c), vec![a, b, c]);
    assert_eq!(route(&g, c, a), vec![c, b, a]);
}

#[test]
fn search_takes_the_neighbour_nearest_to_the_goal() {
    let mut g = NavGraph::new();
    let start = node(&mut g, 0, 0, NavNodeType::Cell);
    let away = node(&mut g, -10, 0, NavNodeType::Door);
    let toward = node(&mut g, 10, 0, NavNodeType::Door);
    let goal = node(&mut g, 20, 0, NavNodeType::Cell);
    g.link(start, away);
    g.link(start, toward);
    g.link(away, goal);
    g.link(toward, goal);
    assert_eq!(route(&g, start, goal), vec![start, toward, goal]);
}

#[test]
fn search_takes_the_first_of_equally_near_neighbours() {
    let mut g = NavGraph::new();
    let start = node(&mut g, 0, 0, NavNodeType::Cell);
    let left = node(&mut g, 10, -5, NavNodeType::Door);
    let right = node(&mut g, 10, 5, NavNodeType::Door);
    let goal = node(&mut g, 20, 0, NavNodeType::Cell);
    g.link(start, right);
    g.link(start, left);
    g.link(left, goal);
    g.link(right, goal);
    assert_eq!(route(&g, start, goal), vec![start, right, goal]);
}

#[test]
fn search_steps_back_out_of_a_dead_end() {
    let mut g = NavGraph::new();
    let start = node(&mut g, 0, 0, NavNodeType::Cell);
    let dead_end = node(&mut g, 10, 0, NavNodeType::Door);
    let detour = node(&mut g, 0, 10, NavNodeType::Door);
    let goal = node(&mut g, 20, 0, NavNodeType::Cell);
    g.link(start, dead_end);
    g.link(start, detour);
    g.link(detour, goal);
    let mut navigator = Navigator::new(start, goal);
    assert!(!navigator.step(&g));
    assert_eq!(navigator.path, vec![start, dead_end]);
    assert!(!navigator.step(&g));
    assert_eq!(navigator.path, vec![start, dead_end, start]);
    navigator.nav(&g);
    assert_eq!(navigator.path, vec![start, dead_end, start, detour, goal]);
    assert!(navigator.traversed.contains(&dead_end));
    assert!(navigator.traversed.contains(&start));
}

#[test]
fn search_drops_a_dead_end_that_does_not_lead_back() {
    let mut g = NavGraph::new();
    let start = node(&mut g, 0, 0, NavNodeType::Cell);
    let dead_end = node(&mut g, 10, 0, NavNodeType::Door);
    let detour = node(&mut g, 0, 10, NavNodeType::Door);
    let goal = node(&mut g, 20, 0, NavNodeType::Cell);
    g.insert_edge(start, dead_end);
    g.link(start, detour);
    g.link(detour, goal);
    let mut navigator = Navigator::new(start, goal);
    assert!(!navigator.step(&g));
    assert_eq!(navigator.path, vec![start, dead_end]);
    assert!(!navigator.step(&g));
    assert_eq!(navigator.path, vec![start]);
    navigator.nav(&g);
    assert_eq!(navigator.path, vec![start, detour, goal]);
}

#[test]
fn step_by_step_search_agrees_with_nav() {
    let mut g = NavGraph::new();
    let mut ids = Vec::new();
    for i in 0..6 {
        ids.push(node(&mut g, i * 10, (i % 2) * 7, NavNodeType::Other));
    }
    g.link(ids[0], ids[1]);
    g.link(ids[1], ids[2]);
    g.link(ids[0], ids[3]);
    g.link(ids[3], ids[4]);
    g.link(ids[4], ids[5]);
    g.link(ids[2], ids[5]);
    let mut stepped = Navigator::new(ids[0], ids[5]);
    let mut steps = 0;
    while !stepped.step(&g) {
        steps += 1;
        assert!(steps < 100);
    }
    assert_eq!(stepped.path, route(&g, ids[0], ids[5]));
}

#[test]
fn repeated_searches_return_the_same_path() {
    let mut g = NavGraph::new();
    let mut ids = Vec::new();
    for i in 0..8 {
        ids.push(node(&mut g, (i % 4) * 10, (i / 4) * 10, NavNodeType::Other));
    }
    for i in 0..7 {
        g.link(ids[i], ids[i + 1]);
    }
    g.link(ids[0], ids[4]);
    g.link(ids[3], ids[7]);
    let first = route(&g, ids[0], ids[6]);
    for _ in 0..10 {
        assert_eq!(route(&g, ids[0], ids[6]), first);
    }
    assert_eq!(first.first(), Some(&ids[0]));
    assert_eq!(first.last(), Some(&ids[6]));
    for pair in first.windows(2) {
        assert!(g.has_edge(pair[0], pair[1]));
    }
}

#[test]
fn search_through_a_door_between_two_cells() {
    let mut g = NavGraph::new();
    let far_a = node(&mut g, 0, 0, NavNodeType::Cell);
    let near_a = node(&mut g, 30, 0, NavNodeType::Other);
    let door = node(&mut g, 45, 0, NavNodeType::Door);
    let near_b = node(&mut g, 60, 0, NavNodeType::Other);
    let far_b = node(&mut g, 90, 0, NavNodeType::Cell);
    g.link(far_a, near_a);
    g.link(near_a, door);
    g.link(door, near_b);
    g.link(near_b, far_b);
    let path = route(&g, far_a, far_b);
    assert_eq!(path, vec![far_a, near_a, door, near_b, far_b]);
    let doors = path.iter().filter(|n| g.node(**n).kind == NavNodeType::Door).count();
    assert_eq!(doors, 1);
}
