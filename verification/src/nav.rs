//! The navigation graph and the greedy path search over it.
//!
//! Nodes live in an arena: the id of a node is its index in the graph. A
//! search walks from a start node towards a goal, at each step taking the
//! unvisited neighbour that lies nearest to the goal and stepping back where
//! there is none.

use crate::rect::Rect;
use crate::world::Pos;
use std::collections::HashSet;
use vstd::prelude::*;

verus! {

/// What a navigation node stands for.
#[derive(Debug, Default, Clone, Copy, PartialEq, Eq, Structural)]
pub enum NavNodeType {
    #[default]
    Other,
    /// The inside of a cell.
    Cell,
    /// A doorway.
    Door,
    /// The point just outside an exterior door.
    Outside,
}

/// A vertex of the navigation graph.
#[derive(Debug)]
pub struct NavNode {
    /// The index of the node in its graph.
    pub id: usize,
    /// The ids of the nodes that can be reached from this one, each once, in
    /// the order in which they were linked.
    pub adj: Vec<usize>,
    pub pos: Pos,
    pub kind: NavNodeType,
    /// An agent inside this rectangle has arrived at the node.
    pub area: Rect,
}

impl NavNode {
    /// A node with the given id and neighbours.
    pub fn new(id: usize, pos: Pos, kind: NavNodeType, area: Rect, adj: Vec<usize>) -> (n: NavNode)
        ensures
            n.id == id,
            n.pos == pos,
            n.kind == kind,
            n.area == area,
            n.adj@ == adj@,
    {
        NavNode { id, adj, pos, kind, area }
    }
}

/// The arena of navigation nodes.
#[derive(Debug)]
pub struct NavGraph {
    pub nodes: Vec<NavNode>,
}

impl NavGraph {
    /// Whether node `a` carries its own index and lists existing nodes, each once.
    pub open spec fn node_ok(&self, a: int) -> bool {
        &&& self.nodes[a].id == a
        &&& self.nodes[a].adj@.no_duplicates()
        &&& forall|k: int|
            0 <= k < self.nodes[a].adj.len() ==> (#[trigger] self.nodes[a].adj[k]) < self.nodes.len()
    }

    /// The invariant of the graph.
    pub open spec fn wf(&self) -> bool {
        forall|a: int| 0 <= a < self.nodes.len() ==> #[trigger] self.node_ok(a)
    }

    /// Whether `b` is listed as a neighbour of `a`.
    pub open spec fn edge(&self, a: int, b: int) -> bool {
        &&& 0 <= a < self.nodes.len()
        &&& 0 <= b < self.nodes.len()
        &&& self.nodes[a].adj@.contains(b as usize)
    }

    /// Whether every edge has its reverse.
    pub open spec fn symmetric(&self) -> bool {
        forall|a: int, b: int| #[trigger] self.edge(a, b) ==> self.edge(b, a)
    }

    /// The graph without nodes.
    pub fn new() -> (g: NavGraph)
        ensures
            g.nodes@.len() == 0,
            g.wf(),
            g.symmetric(),
    {
        NavGraph { nodes: Vec::new() }
    }

    /// The number of nodes.
    pub fn len(&self) -> (n: usize)
        ensures
            n == self.nodes.len(),
    {
        self.nodes.len()
    }

    /// The node with the given id.
    pub fn node(&self, id: usize) -> (n: &NavNode)
        requires
            id < self.nodes.len(),
        ensures
            *n == self.nodes[id as int],
    {
        &self.nodes[id]
    }

    /// Adds a node without neighbours and returns its id.
    pub fn add(&mut self, pos: Pos, kind: NavNodeType, area: Rect) -> (id: usize)
        requires
            old(self).wf(),
        ensures
            final(self).wf(),
            id == old(self).nodes.len(),
            final(self).nodes.len() == old(self).nodes.len() + 1,
            forall|a: int| 0 <= a < old(self).nodes.len() ==> final(self).nodes[a] == old(self).nodes[a],
            final(self).nodes[id as int].id == id,
            final(self).nodes[id as int].pos == pos,
            final(self).nodes[id as int].kind == kind,
            final(self).nodes[id as int].area == area,
            final(self).nodes[id as int].adj@.len() == 0,
            forall|a: int, b: int| final(self).edge(a, b) <==> old(self).edge(a, b),
            old(self).symmetric() ==> final(self).symmetric(),
    {
        let id = self.nodes.len();
        self.nodes.push(NavNode::new(id, pos, kind, area, Vec::new()));
        proof {
            assert forall|a: int| 0 <= a < self.nodes.len() implies #[trigger] self.node_ok(a) by {
                if a < id {
                    assert(old(self).node_ok(a));
                }
            }
            assert forall|a: int, b: int| self.edge(a, b) <==> old(self).edge(a, b) by {
                if self.edge(a, b) {
                    assert(old(self).node_ok(a));
                }
            }
        }
        id
    }

    /// Whether `to` is listed as a neighbour of `from`.
    pub fn has_edge(&self, from: usize, to: usize) -> (r: bool)
        requires
            from < self.nodes.len(),
        ensures
            r == self.nodes[from as int].adj@.contains(to),
            to < self.nodes.len() ==> r == self.edge(from as int, to as int),
    {
        let adj = &self.nodes[from].adj;
        let mut k: usize = 0;
        while k < adj.len()
            invariant
                k <= adj.len(),
                from < self.nodes.len(),
                adj@ == self.nodes[from as int].adj@,
                forall|j: int| 0 <= j < k ==> adj[j] != to,
            decreases adj.len() - k,
        {
            if adj[k] == to {
                return true;
            }
            k += 1;
        }
        false
    }

    /// Lists `to` as a neighbour of `from`. Listing it a second time changes
    /// nothing.
    pub fn insert_edge(&mut self, from: usize, to: usize)
        requires
            old(self).wf(),
            from < old(self).nodes.len(),
            to < old(self).nodes.len(),
        ensures
            final(self).wf(),
            final(self).nodes.len() == old(self).nodes.len(),
            forall|a: int|
                0 <= a < old(self).nodes.len() && a != from ==> final(self).nodes[a] == old(
                    self,
                ).nodes[a],
            final(self).nodes[from as int].id == from,
            final(self).nodes[from as int].pos == old(self).nodes[from as int].pos,
            final(self).nodes[from as int].kind == old(self).nodes[from as int].kind,
            final(self).nodes[from as int].area == old(self).nodes[from as int].area,
            final(self).nodes[from as int].adj@ == (if old(self).nodes[from as int].adj@.contains(to) {
                old(self).nodes[from as int].adj@
            } else {
                old(self).nodes[from as int].adj@.push(to)
            }),
            forall|a: int, b: int|
                final(self).edge(a, b) <==> old(self).edge(a, b) || (a == from && b == to),
    {
        if !self.has_edge(from, to) {
            self.nodes[from].adj.push(to);
        }
        proof {
            assert(old(self).node_ok(from as int));
            assert forall|a: int| 0 <= a < self.nodes.len() implies #[trigger] self.node_ok(a) by {
                assert(old(self).node_ok(a));
            }
            assert forall|a: int, b: int|
                self.edge(a, b) <==> old(self).edge(a, b) || (a == from && b == to) by {
                if 0 <= a < self.nodes.len() && 0 <= b < self.nodes.len() {
                    if a == from {
                        let before = old(self).nodes[a].adj@;
                        let after = self.nodes[a].adj@;
                        if !before.contains(to) {
                            if before.contains(b as usize) {
                                let k = choose|k: int| 0 <= k < before.len() && before[k] == b as usize;
                                assert(after[k] == b as usize);
                            }
                            if b == to {
                                assert(after[before.len() as int] == to);
                            }
                        }
                    }
                }
            }
        }
    }

    /// Lists each of the two nodes as a neighbour of the other.
    pub fn link(&mut self, a: usize, b: usize)
        requires
            old(self).wf(),
            a < old(self).nodes.len(),
            b < old(self).nodes.len(),
        ensures
            final(self).wf(),
            final(self).nodes.len() == old(self).nodes.len(),
            forall|c: int|
                0 <= c < old(self).nodes.len() && c != a && c != b ==> final(self).nodes[c] == old(
                    self,
                ).nodes[c],
            forall|c: int|
                0 <= c < old(self).nodes.len() ==> {
                    &&& (#[trigger] final(self).nodes[c]).pos == old(self).nodes[c].pos
                    &&& final(self).nodes[c].kind == old(self).nodes[c].kind
                    &&& final(self).nodes[c].area == old(self).nodes[c].area
                },
            forall|x: int, y: int|
                final(self).edge(x, y) <==> old(self).edge(x, y) || (x == a && y == b) || (x == b && y
                    == a),
            old(self).symmetric() ==> final(self).symmetric(),
    {
        self.insert_edge(a, b);
        self.insert_edge(b, a);
    }
}

/// The number of nodes among the first `n` that a search has not visited.
pub open spec fn unvisited(n: nat, visited: Set<usize>) -> nat
    decreases n,
{
    if n == 0 {
        0
    } else {
        unvisited((n - 1) as nat, visited) + if visited.contains((n - 1) as usize) {
            0nat
        } else {
            1nat
        }
    }
}

/// Whether node `c` lies nearer to `goal` than node `b`.
pub open spec fn nearer(nodes: Seq<NavNode>, goal: Pos, c: usize, b: usize) -> bool {
    nodes[c as int].pos.dist2(goal) < nodes[b as int].pos.dist2(goal)
}

/// The unvisited entry of `adj` that lies nearest to `goal`; of several
/// equally near, the one that `adj` lists first.
pub open spec fn pick(adj: Seq<usize>, visited: Set<usize>, nodes: Seq<NavNode>, goal: Pos) -> Option<
    usize,
>
    decreases adj.len(),
{
    if adj.len() == 0 {
        None
    } else {
        let c = adj.last();
        match pick(adj.drop_last(), visited, nodes, goal) {
            None => if visited.contains(c) {
                None
            } else {
                Some(c)
            },
            Some(b) => if !visited.contains(c) && nearer(nodes, goal, c, b) {
                Some(c)
            } else {
                Some(b)
            },
        }
    }
}

/// Whether the walk only holds nodes of the graph.
pub open spec fn walk_ok(graph: NavGraph, path: Seq<usize>) -> bool {
    &&& graph.wf()
    &&& forall|k: int| 0 <= k < path.len() ==> (#[trigger] path[k]) < graph.nodes.len()
}

/// Whether a search has ended: at the goal, or with nothing left to step
/// back to.
pub open spec fn done(goal: usize, path: Seq<usize>) -> bool {
    path.len() == 0 || path.last() == goal
}

/// The neighbour that a search at the end of `path` takes next, if any.
pub open spec fn choice(graph: NavGraph, goal: usize, path: Seq<usize>, visited: Set<usize>) -> Option<
    usize,
> {
    pick(
        graph.nodes[path.last() as int].adj@,
        visited,
        graph.nodes@,
        graph.nodes[goal as int].pos,
    )
}

/// The walk and the visited set with which a search ends that stands at
/// `path` and has visited `visited`.
pub open spec fn search(graph: NavGraph, goal: usize, path: Seq<usize>, visited: Set<usize>) -> (
    Seq<usize>,
    Set<usize>,
)
    decreases unvisited(graph.nodes@.len(), visited), path.len(),
    when walk_ok(graph, path)
    via search_decreases
{
    if done(goal, path) {
        (path, visited)
    } else {
        match choice(graph, goal, path, visited) {
            Some(c) => search(graph, goal, path.push(c), visited.insert(c)),
            None => search(graph, goal, path.drop_last(), visited),
        }
    }
}

#[via_fn]
proof fn search_decreases(graph: NavGraph, goal: usize, path: Seq<usize>, visited: Set<usize>) {
    if !done(goal, path) {
        match choice(graph, goal, path, visited) {
            Some(c) => {
                lemma_choice(graph, goal, path, visited);
                lemma_visit(graph.nodes@.len(), visited, c);
            },
            None => {},
        }
    }
}

/// Visiting one more node leaves one node less to visit.
pub proof fn lemma_visit(n: nat, visited: Set<usize>, c: usize)
    requires
        c < n <= usize::MAX + 1,
        !visited.contains(c),
    ensures
        unvisited(n, visited.insert(c)) + 1 == unvisited(n, visited),
    decreases n,
{
    if n - 1 == c {
        lemma_visit_beyond((n - 1) as nat, visited, c);
    } else {
        lemma_visit((n - 1) as nat, visited, c);
    }
}

/// A node beyond the first `n` does not count among them.
proof fn lemma_visit_beyond(n: nat, visited: Set<usize>, c: usize)
    requires
        c >= n,
    ensures
        unvisited(n, visited.insert(c)) == unvisited(n, visited),
    decreases n,
{
    if n > 0 {
        lemma_visit_beyond((n - 1) as nat, visited, c);
    }
}

/// What [`pick`] returns: nothing exactly where every entry is visited, and
/// else an unvisited entry than which no unvisited entry is nearer and before
/// which no unvisited entry is as near.
pub proof fn lemma_pick(adj: Seq<usize>, visited: Set<usize>, nodes: Seq<NavNode>, goal: Pos)
    ensures
        match pick(adj, visited, nodes, goal) {
            None => forall|k: int| 0 <= k < adj.len() ==> visited.contains(#[trigger] adj[k]),
            Some(c) => {
                &&& !visited.contains(c)
                &&& exists|i: int|
                    {
                        &&& 0 <= i < adj.len()
                        &&& #[trigger] adj[i] == c
                        &&& forall|k: int|
                            0 <= k < i && !visited.contains(#[trigger] adj[k]) ==> nearer(
                                nodes,
                                goal,
                                c,
                                adj[k],
                            )
                    }
                &&& forall|k: int|
                    0 <= k < adj.len() && !visited.contains(#[trigger] adj[k]) ==> !nearer(
                        nodes,
                        goal,
                        adj[k],
                        c,
                    )
            },
        },
    decreases adj.len(),
{
    if adj.len() > 0 {
        let rest = adj.drop_last();
        let c = adj.last();
        lemma_pick(rest, visited, nodes, goal);
        assert forall|k: int| 0 <= k < rest.len() implies rest[k] == adj[k] by {}
    }
}

/// The node that a search takes next is an unvisited neighbour of the node it
/// stands at.
pub proof fn lemma_choice(graph: NavGraph, goal: usize, path: Seq<usize>, visited: Set<usize>)
    requires
        walk_ok(graph, path),
        path.len() > 0,
    ensures
        match choice(graph, goal, path, visited) {
            Some(c) => {
                &&& c < graph.nodes.len()
                &&& !visited.contains(c)
                &&& graph.edge(path.last() as int, c as int)
                &&& walk_ok(graph, path.push(c))
            },
            None => {
                &&& forall|b: int| graph.edge(path.last() as int, b) ==> visited.contains(b as usize)
                &&& walk_ok(graph, path.drop_last())
            },
        },
{
    let last = path.last();
    assert(graph.node_ok(last as int));
    let adj = graph.nodes[last as int].adj@;
    lemma_pick(adj, visited, graph.nodes@, graph.nodes[goal as int].pos);
}

/// The state of one path search.
#[derive(Debug)]
pub struct Navigator {
    /// The ids of the nodes that the search has stepped to.
    pub traversed: HashSet<usize>,
    /// The id of the goal.
    pub dest: usize,
    /// The walk so far, from the start to the node the search stands at.
    pub path: Vec<usize>,
}

impl Navigator {
    /// Whether the search runs on nodes of `graph`.
    pub open spec fn wf(&self, graph: NavGraph) -> bool {
        &&& walk_ok(graph, self.path@)
        &&& self.dest < graph.nodes.len()
    }

    /// A search that stands at `from`, has `to` as its goal and has visited
    /// nothing.
    pub fn new(from: usize, to: usize) -> (n: Navigator)
        ensures
            n.path@ == seq![from],
            n.dest == to,
            n.traversed@ == Set::<usize>::empty(),
    {
        Navigator { traversed: HashSet::new(), dest: to, path: vec![from] }
    }

    /// Whether the search has ended.
    pub fn is_done(&self) -> (r: bool)
        ensures
            r == done(self.dest, self.path@),
    {
        let n = self.path.len();
        n == 0 || self.path[n - 1] == self.dest
    }

    /// The unvisited neighbour of the node the search stands at that lies
    /// nearest to the goal.
    fn choose_next(&self, graph: &NavGraph) -> (r: Option<usize>)
        requires
            self.wf(*graph),
            self.path@.len() > 0,
        ensures
            r == choice(*graph, self.dest, self.path@, self.traversed@),
    {
        let last = self.path[self.path.len() - 1];
        let goal = graph.nodes[self.dest].pos;
        let adj = &graph.nodes[last].adj;
        let mut best: Option<usize> = None;
        let mut best_dist: u128 = 0;
        let mut k: usize = 0;
        while k < adj.len()
            invariant
                k <= adj.len(),
                adj@ == graph.nodes[last as int].adj@,
                graph.node_ok(last as int),
                goal == graph.nodes[self.dest as int].pos,
                best == pick(adj@.take(k as int), self.traversed@, graph.nodes@, goal),
                best matches Some(b) ==> b < graph.nodes.len() && best_dist == graph.nodes[b as int].pos.dist2(goal),
            decreases adj.len() - k,
        {
            let c = adj[k];
            proof {
                assert(adj@.take(k as int + 1).drop_last() == adj@.take(k as int));
            }
            if !self.traversed.contains(&c) {
                let dist = graph.nodes[c].pos.distance_squared(&goal);
                if best.is_none() || dist < best_dist {
                    best = Some(c);
                    best_dist = dist;
                }
            }
            k += 1;
        }
        assert(adj@.take(k as int) == adj@);
        best
    }

    /// Takes one step of the search: to the nearest unvisited neighbour, or
    /// back where there is none. A search that has ended stays as it is.
    /// Returns whether the search has ended after the step.
    pub fn step(&mut self, graph: &NavGraph) -> (ended: bool)
        requires
            old(self).wf(*graph),
        ensures
            final(self).wf(*graph),
            final(self).dest == old(self).dest,
            ended == done(final(self).dest, final(self).path@),
            done(old(self).dest, old(self).path@) ==> {
                &&& final(self).path@ == old(self).path@
                &&& final(self).traversed@ == old(self).traversed@
            },
            !done(old(self).dest, old(self).path@) ==> match choice(
                *graph,
                old(self).dest,
                old(self).path@,
                old(self).traversed@,
            ) {
                Some(c) => {
                    &&& final(self).path@ == old(self).path@.push(c)
                    &&& final(self).traversed@ == old(self).traversed@.insert(c)
                },
                None => {
                    &&& final(self).path@ == old(self).path@.drop_last()
                    &&& final(self).traversed@ == old(self).traversed@
                },
            },
            search(*graph, final(self).dest, final(self).path@, final(self).traversed@) == search(
                *graph,
                old(self).dest,
                old(self).path@,
                old(self).traversed@,
            ),
    {
        if self.is_done() {
            return true;
        }
        proof {
            lemma_choice(*graph, self.dest, self.path@, self.traversed@);
        }
        match self.choose_next(graph) {
            Some(c) => {
                self.traversed.insert(c);
                self.path.push(c);
            },
            None => {
                self.path.pop();
            },
        }
        self.is_done()
    }

    /// Runs the search to its end. Afterwards `path` is the walk from the
    /// start to the goal, or empty where the goal cannot be reached.
    pub fn nav(&mut self, graph: &NavGraph)
        requires
            old(self).wf(*graph),
        ensures
            final(self).wf(*graph),
            final(self).dest == old(self).dest,
            done(final(self).dest, final(self).path@),
            (final(self).path@, final(self).traversed@) == search(
                *graph,
                old(self).dest,
                old(self).path@,
                old(self).traversed@,
            ),
    {
        let mut ended = self.is_done();
        while !ended
            invariant
                self.wf(*graph),
                self.dest == old(self).dest,
                ended == done(self.dest, self.path@),
                search(*graph, self.dest, self.path@, self.traversed@) == search(
                    *graph,
                    old(self).dest,
                    old(self).path@,
                    old(self).traversed@,
                ),
            decreases unvisited(graph.nodes@.len(), self.traversed@), self.path@.len(),
        {
            proof {
                lemma_choice(*graph, self.dest, self.path@, self.traversed@);
                match choice(*graph, self.dest, self.path@, self.traversed@) {
                    Some(c) => {
                        lemma_visit(graph.nodes@.len(), self.traversed@, c);
                    },
                    None => {},
                }
            }
            ended = self.step(graph);
        }
    }
}

/// Whether each node of the walk is listed as a neighbour of the node
/// before it.
pub open spec fn chained(graph: NavGraph, path: Seq<usize>) -> bool {
    forall|k: int| 0 < k < path.len() ==> #[trigger] graph.edge(path[k - 1] as int, path[k] as int)
}

/// Whether a walk along the edges of the graph leads from `from` to `to`.
pub open spec fn reachable(graph: NavGraph, from: usize, to: usize) -> bool {
    exists|walk: Seq<usize>|
        {
            &&& #[trigger] chained(graph, walk)
            &&& walk_ok(graph, walk)
            &&& walk.len() > 0
            &&& walk[0] == from
            &&& walk.last() == to
        }
}

/// A search that has ended stays where it is. In particular a search from a
/// node to itself ends at once, with that node as its walk.
pub proof fn lemma_search_done(graph: NavGraph, goal: usize, path: Seq<usize>, visited: Set<usize>)
    requires
        walk_ok(graph, path),
        done(goal, path),
    ensures
        search(graph, goal, path, visited) == (path, visited),
{
}

/// A search from a node to itself returns the walk that holds only that node.
pub proof fn lemma_search_self(graph: NavGraph, node: usize)
    requires
        graph.wf(),
        node < graph.nodes.len(),
    ensures
        search(graph, node, seq![node], Set::empty()) == (seq![node], Set::<usize>::empty()),
{
}

/// What holds of the walk with which a search ends: it is empty or ends at
/// the goal; it holds nodes of the graph only; it starts where the search
/// started; it follows edges of the graph where the walk so far did; and the
/// search has forgotten no visited node.
pub proof fn lemma_search_ends(graph: NavGraph, goal: usize, path: Seq<usize>, visited: Set<usize>)
    requires
        walk_ok(graph, path),
    ensures
        ({
            let end = search(graph, goal, path, visited);
            &&& done(goal, end.0)
            &&& walk_ok(graph, end.0)
            &&& visited.subset_of(end.1)
            &&& end.0.len() > 0 ==> path.len() > 0 && end.0[0] == path[0]
            &&& chained(graph, path) ==> chained(graph, end.0)
        }),
    decreases unvisited(graph.nodes@.len(), visited), path.len(),
{
    if !done(goal, path) {
        lemma_choice(graph, goal, path, visited);
        match choice(graph, goal, path, visited) {
            Some(c) => {
                lemma_visit(graph.nodes@.len(), visited, c);
                let next = path.push(c);
                lemma_search_ends(graph, goal, next, visited.insert(c));
            },
            None => {
                let back = path.drop_last();
                lemma_search_ends(graph, goal, back, visited);
            },
        }
    }
}

/// A search from a node from which no walk leads to the goal ends with the
/// empty walk: it reports that there is no route.
pub proof fn lemma_no_route(graph: NavGraph, start: usize, goal: usize)
    requires
        graph.wf(),
        start < graph.nodes.len(),
        !reachable(graph, start, goal),
    ensures
        search(graph, goal, seq![start], Set::empty()).0.len() == 0,
{
    let path = seq![start];
    lemma_search_ends(graph, goal, path, Set::empty());
    let end = search(graph, goal, path, Set::empty());
}

/// Two searches that start alike end alike: the outcome of a search is a
/// function of the graph, the goal, the walk so far and the visited nodes.
pub proof fn lemma_search_repeats(
    graph: NavGraph,
    goal: usize,
    path: Seq<usize>,
    visited: Set<usize>,
    first: (Seq<usize>, Set<usize>),
    second: (Seq<usize>, Set<usize>),
)
    requires
        first == search(graph, goal, path, visited),
        second == search(graph, goal, path, visited),
    ensures
        first == second,
{
}

/// Whether every neighbour of node `u` is visited.
pub open spec fn closed(graph: NavGraph, u: usize, visited: Set<usize>) -> bool {
    forall|w: int| #[trigger] graph.edge(u as int, w) ==> visited.contains(w as usize)
}

/// Whether every visited node that the walk has left behind has only
/// visited neighbours.
pub open spec fn left_closed(graph: NavGraph, path: Seq<usize>, visited: Set<usize>) -> bool {
    forall|u: usize| #[trigger]
        visited.contains(u) ==> path.contains(u) || closed(graph, u, visited)
}

/// A search that ends with the empty walk has visited every node that can be
/// reached from the nodes of its walk and from the nodes it had visited, and
/// the goal is not among them.
proof fn lemma_search_exhausts(graph: NavGraph, goal: usize, path: Seq<usize>, visited: Set<usize>)
    requires
        walk_ok(graph, path),
        !visited.contains(goal),
        left_closed(graph, path, visited),
    ensures
        ({
            let end = search(graph, goal, path, visited);
            end.0.len() == 0 ==> {
                &&& visited.subset_of(end.1)
                &&& !end.1.contains(goal)
                &&& forall|u: usize| #[trigger] end.1.contains(u) ==> closed(graph, u, end.1)
                &&& forall|k: int| 0 <= k < path.len() ==> closed(graph, #[trigger] path[k], end.1)
            }
        }),
    decreases unvisited(graph.nodes@.len(), visited), path.len(),
{
    let end = search(graph, goal, path, visited);
    if !done(goal, path) {
        lemma_choice(graph, goal, path, visited);
        match choice(graph, goal, path, visited) {
            Some(c) => {
                lemma_visit(graph.nodes@.len(), visited, c);
                let next = path.push(c);
                let seen = visited.insert(c);
                if c == goal {
                    lemma_search_done(graph, goal, next, seen);
                } else {
                    assert forall|u: usize| #[trigger] seen.contains(u) implies next.contains(u)
                        || closed(graph, u, seen) by {
                        if u != c && path.contains(u) {
                            let k = choose|k: int| 0 <= k < path.len() && path[k] == u;
                            assert(next[k] == u);
                        }
                    }
                    lemma_search_exhausts(graph, goal, next, seen);
                    if end.0.len() == 0 {
                        assert forall|k: int| 0 <= k < path.len() implies closed(
                            graph,
                            #[trigger] path[k],
                            end.1,
                        ) by {
                            assert(next[k] == path[k]);
                        }
                    }
                }
            },
            None => {
                let back = path.drop_last();
                assert forall|u: usize| #[trigger] visited.contains(u) implies back.contains(u)
                    || closed(graph, u, visited) by {
                    if path.contains(u) {
                        let k = choose|k: int| 0 <= k < path.len() && path[k] == u;
                        if k < back.len() {
                            assert(back[k] == u);
                        }
                    }
                }
                lemma_search_exhausts(graph, goal, back, visited);
                if end.0.len() == 0 {
                    assert forall|k: int| 0 <= k < path.len() implies closed(
                        graph,
                        #[trigger] path[k],
                        end.1,
                    ) by {
                        if k < back.len() {
                            assert(back[k] == path[k]);
                        }
                    }
                }
            },
        }
    }
}

/// A walk that starts among nodes with only visited neighbours stays among
/// visited nodes.
proof fn lemma_walk_stays(graph: NavGraph, walk: Seq<usize>, visited: Set<usize>, k: int)
    requires
        chained(graph, walk),
        0 <= k < walk.len(),
        closed(graph, walk[0], visited),
        forall|u: usize| #[trigger] visited.contains(u) ==> closed(graph, u, visited),
    ensures
        k > 0 ==> visited.contains(walk[k]),
    decreases k,
{
    if k > 0 {
        lemma_walk_stays(graph, walk, visited, k - 1);
        assert(graph.edge(walk[k - 1] as int, walk[k] as int));
    }
}

/// A search finds a route exactly where there is one: it ends with a walk
/// from the start to the goal along edges of the graph where a walk leads
/// from the one to the other, and with the empty walk where none does.
pub proof fn lemma_route_found(graph: NavGraph, start: usize, goal: usize)
    requires
        graph.wf(),
        start < graph.nodes.len(),
    ensures
        ({
            let route = search(graph, goal, seq![start], Set::empty()).0;
            &&& route.len() > 0 <==> reachable(graph, start, goal)
            &&& route.len() > 0 ==> route[0] == start && route.last() == goal && chained(
                graph,
                route,
            ) && walk_ok(graph, route)
        }),
{
    let path = seq![start];
    let none = Set::<usize>::empty();
    let end = search(graph, goal, path, none);
    lemma_search_ends(graph, goal, path, none);
    if end.0.len() == 0 {
        lemma_search_exhausts(graph, goal, path, none);
        if reachable(graph, start, goal) {
            let walk = choose|walk: Seq<usize>|
                {
                    &&& #[trigger] chained(graph, walk)
                    &&& walk_ok(graph, walk)
                    &&& walk.len() > 0
                    &&& walk[0] == start
                    &&& walk.last() == goal
                };
            lemma_walk_stays(graph, walk, end.1, walk.len() - 1);
        }
    }
}

} // verus!
