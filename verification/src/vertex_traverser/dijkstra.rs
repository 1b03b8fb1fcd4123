//! Why the ways that Dijkstra's algorithm records are cheapest ways, and those
//! that A* records with a consistent estimate.

use crate::edge::WeightedEdge;
use crate::graph::EdgedGraph;
use crate::graph::Graph;
use crate::vertex::Vertex;
use crate::vertex_traverser::astar::AstarState;
use vstd::prelude::*;

verus! {

impl<V: Vertex, E: WeightedEdge, G: EdgedGraph<V, E>> AstarState<G, V, E> {
    /// Whether `path` is a route: it holds a vertex, and each further vertex is
    /// a neighbour of the one before it, joined to it by an edge.
    pub open spec fn is_route(self, path: Seq<V>) -> bool {
        &&& path.len() > 0
        &&& forall|i: int|
            0 <= i < path.len() - 1 ==> {
                &&& self.graph.adjacent(#[trigger] path[i]).contains(path[i + 1])
                &&& self.link(path[i], path[i + 1]).is_some()
            }
    }

    /// Whether `path` is a route from the start vertex to `to`.
    pub open spec fn leads(self, path: Seq<V>, to: V) -> bool {
        &&& self.is_route(path)
        &&& path[0] == self.start
        &&& path.last() == to
    }

    /// The cost of a route: the sum of the weights of the cheapest edges
    /// between its vertices.
    pub open spec fn cost(self, path: Seq<V>) -> nat
        decreases path.len(),
    {
        if path.len() <= 1 {
            0
        } else {
            self.cost(path.drop_last()) + self.link(path[path.len() - 2], path.last()).unwrap()
        }
    }

    /// The entry with which a vertex joins the frontier at its least cost.
    pub open spec fn entry(self, vertex: V) -> (V, nat, nat) {
        (vertex, self.best[vertex], self.best[vertex] + (self.heuristic)(vertex))
    }

    /// Whether an entry of the vertex at its least cost, ranked by that cost
    /// and the estimate, waits in the frontier.
    pub open spec fn waits(self, vertex: V) -> bool {
        exists|i: int| 0 <= i < self.queue.len() && #[trigger] self.queue[i] == self.entry(vertex)
    }

    /// Whether the estimate is consistent: along an edge it falls by no more
    /// than the weight of the edge.
    pub open spec fn consistent(self) -> bool {
        forall|u: V, n: V|
            #[trigger] self.graph.adjacent(u).contains(n) && self.link(u, n).is_some() ==> (
            self.heuristic)(u) <= self.link(u, n).unwrap() + (self.heuristic)(n)
    }

    /// What holds of the vertices that have been produced, where the estimate
    /// is consistent: no route from the start vertex to one of them is cheaper
    /// than its least cost, and their neighbours have been reached, at no more
    /// than their own least cost and the weight of the edge. Every other vertex
    /// that has been reached waits in the frontier at its least cost. Dijkstra's
    /// algorithm, whose estimate is zero, is the simplest case.
    pub open spec fn optimal(self) -> bool {
        &&& self.consistent()
        &&& !self.settled.contains(self.start) ==> self.queue == seq![(self.start, 0nat, 0nat)]
            && self.pred.dom() == set![self.start]
        &&& self.settled.contains(self.start) ==> forall|i: int|
            0 <= i < self.queue.len() ==> (#[trigger] self.queue[i]).2 == self.queue[i].1 + (
            self.heuristic)(self.queue[i].0)
        &&& forall|u: V, path: Seq<V>|
            self.settled.contains(u) && #[trigger] self.leads(path, u) ==> self.best[u] <= self.cost(
                path,
            )
        &&& forall|u: V, n: V|
            #![trigger self.settled.contains(u), self.graph.adjacent(u).contains(n)]
            self.settled.contains(u) && self.graph.adjacent(u).contains(n) && self.link(
                u,
                n,
            ).is_some() ==> self.pred.contains_key(n) && self.best[n] <= self.best[u] + self.link(
                u,
                n,
            ).unwrap()
        &&& forall|x: V| #[trigger]
            self.pred.contains_key(x) && !self.settled.contains(x) && self.settled.contains(
                self.start,
            ) ==> self.waits(x)
    }

    /// States over one graph agree on routes and their costs.
    pub proof fn lemma_same_graph(self, other: Self, path: Seq<V>)
        requires
            self.graph == other.graph,
            self.start == other.start,
        ensures
            self.cost(path) == other.cost(path),
            self.is_route(path) == other.is_route(path),
            forall|to: V| self.leads(path, to) == other.leads(path, to),
            self.heuristic == other.heuristic ==> self.consistent() == other.consistent(),
        decreases path.len(),
    {
        if self.heuristic == other.heuristic {
            assert forall|a: V, b: V| self.link(a, b) == other.link(a, b) by {}
            if self.consistent() {
                assert(other.consistent());
            }
            if other.consistent() {
                assert(self.consistent());
            }
        }
        if path.len() > 1 {
            self.lemma_same_graph(other, path.drop_last());
            assert(self.link(path[path.len() - 2], path.last()) == other.link(
                path[path.len() - 2],
                path.last(),
            ));
        }
        assert forall|a: V, b: V| self.link(a, b) == other.link(a, b) by {}
        if self.is_route(path) {
            assert(other.is_route(path));
        }
        if other.is_route(path) {
            assert(self.is_route(path));
        }
    }

    /// The first part of a route is a route, and costs no more than the route.
    pub proof fn lemma_prefix(self, path: Seq<V>, length: int)
        requires
            self.is_route(path),
            1 <= length <= path.len(),
        ensures
            self.is_route(path.take(length)),
            self.cost(path.take(length)) <= self.cost(path),
        decreases path.len() - length,
    {
        let part = path.take(length);
        assert forall|i: int| 0 <= i < part.len() - 1 implies {
            &&& self.graph.adjacent(#[trigger] part[i]).contains(part[i + 1])
            &&& self.link(part[i], part[i + 1]).is_some()
        } by {
            assert(part[i] == path[i]);
            assert(part[i + 1] == path[i + 1]);
        }
        if length < path.len() {
            self.lemma_prefix(path, length + 1);
            let longer = path.take(length + 1);
            assert(longer.drop_last() =~= part);
        } else {
            assert(part =~= path);
        }
    }

    /// A route that starts in a region that no edge leaves stays in the region.
    pub proof fn lemma_route_stays(self, path: Seq<V>, region: Set<V>)
        requires
            self.is_route(path),
            region.contains(path[0]),
            crate::graph::closed_under_neighbors(&self.graph, region),
        ensures
            forall|i: int| 0 <= i < path.len() ==> region.contains(#[trigger] path[i]),
        decreases path.len(),
    {
        if path.len() > 1 {
            self.lemma_prefix(path, path.len() - 1);
            let front = path.take(path.len() - 1);
            self.lemma_route_stays(front, region);
            assert(front[path.len() - 2] == path[path.len() - 2]);
            assert(self.graph.adjacent(path[path.len() - 2]).contains(path[path.len() - 1]));
            assert forall|i: int| 0 <= i < path.len() implies region.contains(
                #[trigger] path[i],
            ) by {
                if i < path.len() - 1 {
                    assert(front[i] == path[i]);
                }
            }
        }
    }

    /// The recorded way to a vertex that has been reached is a route from the
    /// start vertex to it that costs no more than its least cost.
    pub proof fn lemma_trail_is_route(self, vertex: V)
        requires
            self.valid(),
            self.pred.contains_key(vertex),
        ensures
            self.leads(self.trail(vertex), vertex),
            self.cost(self.trail(vertex)) <= self.best[vertex],
        decreases self.best[vertex], self.stamp[vertex],
    {
        self.lemma_trail(vertex);
        match self.pred[vertex] {
            Some(before) => {
                self.lemma_trail_is_route(before);
                let way = self.trail(before);
                let longer = way.push(vertex);
                assert(longer.drop_last() =~= way);
                assert(longer[longer.len() - 2] == before);
                assert forall|i: int| 0 <= i < longer.len() - 1 implies {
                    &&& self.graph.adjacent(#[trigger] longer[i]).contains(longer[i + 1])
                    &&& self.link(longer[i], longer[i + 1]).is_some()
                } by {
                    if i < way.len() - 1 {
                        assert(longer[i] == way[i]);
                        assert(longer[i + 1] == way[i + 1]);
                    }
                }
            },
            None => {},
        }
    }

    /// Along a route from a produced vertex to one that has not been produced,
    /// the first place whose vertex has not been produced.
    proof fn lemma_first_open(self, path: Seq<V>, upto: int) -> (at: int)
        requires
            path.len() > 0,
            self.settled.contains(path[0]),
            0 <= upto < path.len(),
            !self.settled.contains(path[upto]),
        ensures
            1 <= at <= upto,
            self.settled.contains(path[at - 1]),
            !self.settled.contains(path[at]),
        decreases upto,
    {
        if self.settled.contains(path[upto - 1]) {
            upto
        } else {
            self.lemma_first_open(path, upto - 1)
        }
    }

    /// Along a route, a consistent estimate falls by no more than the route
    /// costs: the estimate at a place and the cost up to the place are no more
    /// than the cost of the route and the estimate at its end.
    pub proof fn lemma_route_estimate(self, path: Seq<V>, at: int)
        requires
            self.is_route(path),
            self.consistent(),
            0 <= at < path.len(),
        ensures
            (self.heuristic)(path[at]) + self.cost(path.take(at + 1)) <= self.cost(path) + (
            self.heuristic)(path.last()),
        decreases path.len() - at,
    {
        if at == path.len() - 1 {
            assert(path.take(at + 1) =~= path);
        } else {
            self.lemma_route_estimate(path, at + 1);
            let shorter = path.take(at + 1);
            let longer = path.take(at + 2);
            assert(longer.drop_last() =~= shorter);
            assert(longer[longer.len() - 2] == path[at]);
            assert(longer.last() == path[at + 1]);
            assert(self.graph.adjacent(path[at]).contains(path[at + 1]));
        }
    }

    /// No route from the start vertex to the vertex that comes next, if it has
    /// not been produced before, is cheaper than the cost of its entry, which is
    /// its least cost.
    pub proof fn lemma_next_is_cheapest(self, path: Seq<V>)
        requires
            self.valid(),
            self.optimal(),
            self.queue.len() > 0,
            !self.settled.contains(self.queue[self.head()].0),
            self.leads(path, self.queue[self.head()].0),
        ensures
            self.queue[self.head()].1 <= self.cost(path),
            self.queue[self.head()].1 == self.best[self.queue[self.head()].0],
    {
        crate::vertex_traverser::astar::lemma_first_least(self.scores());
        let head = self.head();
        let (from, cost, _) = self.queue[head];
        assert(self.pred.contains_key(self.queue[head].0));
        if !self.settled.contains(self.start) {
            assert(self.queue[0] == (self.start, 0nat, 0nat));
        } else {
            assert(self.waits(from));
            let own = choose|i: int|
                0 <= i < self.queue.len() && #[trigger] self.queue[i] == self.entry(from);
            assert(self.scores()[head] <= self.scores()[own]);
            assert(self.queue[head].2 == cost + (self.heuristic)(from));
            assert(cost == self.best[from]);
            let at = self.lemma_first_open(path, path.len() - 1);
            let before = path[at - 1];
            let open = path[at];
            self.lemma_prefix(path, at);
            self.lemma_prefix(path, at + 1);
            let shorter = path.take(at);
            let longer = path.take(at + 1);
            assert(shorter.last() == before);
            assert(shorter[0] == path[0]);
            assert(self.leads(shorter, before));
            assert(self.best[before] <= self.cost(shorter));
            assert(self.graph.adjacent(path[at - 1]).contains(path[at]));
            assert(self.pred.contains_key(open));
            assert(longer.drop_last() =~= shorter);
            assert(longer[longer.len() - 2] == before);
            assert(longer.last() == open);
            assert(self.best[open] <= self.cost(longer));
            assert(self.waits(open));
            let other = choose|i: int|
                0 <= i < self.queue.len() && #[trigger] self.queue[i] == self.entry(open);
            assert(self.scores()[head] <= self.scores()[other]);
            self.lemma_route_estimate(path, at);
        }
    }
}

impl<V: Vertex, E: WeightedEdge, G: EdgedGraph<V, E>> AstarState<G, V, E> {
    /// Whether the neighbours of `from` have been reached at no more than
    /// `cost` and the weight of the edge: all of them, or the first `count`.
    pub open spec fn covered(self, from: V, cost: nat, count: nat) -> bool {
        forall|j: int|
            0 <= j < count && j < self.graph.adjacent(from).len() && self.link(
                from,
                #[trigger] self.graph.adjacent(from)[j],
            ).is_some() ==> {
                &&& self.pred.contains_key(self.graph.adjacent(from)[j])
                &&& self.best[self.graph.adjacent(from)[j]] <= cost + self.link(
                    from,
                    self.graph.adjacent(from)[j],
                ).unwrap()
            }
    }

    /// Looking at the neighbours of a vertex that was produced before changes
    /// nothing: they have been reached as cheaply already.
    pub proof fn lemma_stale(self, from: V, cost: nat, count: nat)
        requires
            self.valid(),
            self.pred.contains_key(from),
            self.best[from] <= cost,
            self.covered(from, self.best[from], self.graph.adjacent(from).len()),
            count <= self.graph.adjacent(from).len(),
        ensures
            self.expand(from, cost, self.graph.adjacent(from), count) == self,
        decreases count,
    {
        if count > 0 {
            self.lemma_stale(from, cost, (count - 1) as nat);
            let neighbor = self.graph.adjacent(from)[count - 1];
            assert(self.relax(from, cost, neighbor) == self);
        }
    }

    /// The invariant while the neighbours of `from`, produced for the first
    /// time at its least cost `cost`, are looked at, after the first `count` of
    /// them.
    pub open spec fn settling(self, from: V, cost: nat, count: nat) -> bool {
        &&& self.consistent()
        &&& forall|i: int|
            0 <= i < self.queue.len() ==> (#[trigger] self.queue[i]).2 == self.queue[i].1 + (
            self.heuristic)(self.queue[i].0)
        &&& self.settled.contains(self.start)
        &&& self.settled.contains(from)
        &&& self.best[from] == cost
        &&& exists|way: Seq<V>| #[trigger] self.leads(way, from) && self.cost(way) <= cost
        &&& forall|u: V, path: Seq<V>|
            self.settled.contains(u) && #[trigger] self.leads(path, u) ==> self.best[u] <= self.cost(
                path,
            )
        &&& forall|u: V, n: V|
            #![trigger self.settled.contains(u), self.graph.adjacent(u).contains(n)]
            self.settled.contains(u) && u != from && self.graph.adjacent(u).contains(n)
                && self.link(u, n).is_some() ==> self.pred.contains_key(n) && self.best[n]
                <= self.best[u] + self.link(u, n).unwrap()
        &&& forall|x: V| #[trigger]
            self.pred.contains_key(x) && !self.settled.contains(x) ==> self.waits(x)
        &&& self.covered(from, cost, count)
    }

    /// Looking at one more neighbour keeps the invariant.
    pub proof fn lemma_relax_settling(self, from: V, cost: nat, count: nat)
        requires
            self.growing(from, cost),
            self.settling(from, cost, count),
            count < self.graph.adjacent(from).len(),
        ensures
            self.relax(from, cost, self.graph.adjacent(from)[count as int]).settling(
                from,
                cost,
                count + 1,
            ),
    {
        let neighbor = self.graph.adjacent(from)[count as int];
        let next = self.relax(from, cost, neighbor);
        assert(self.graph.adjacent(from).contains(neighbor));
        self.lemma_relax(from, cost, neighbor);
        let way = choose|way: Seq<V>| #[trigger] self.leads(way, from) && self.cost(way) <= cost;
        if self.link(from, neighbor).is_some() && self.improves(
            neighbor,
            cost + self.link(from, neighbor).unwrap(),
        ) {
            let reached = cost + self.link(from, neighbor).unwrap();
            assert(next == self.lowered(from, neighbor, reached));
            assert(!self.settled.contains(neighbor)) by {
                if self.settled.contains(neighbor) {
                    let longer = way.push(neighbor);
                    assert(longer.drop_last() =~= way);
                    assert(longer[longer.len() - 2] == from);
                    assert forall|i: int| 0 <= i < longer.len() - 1 implies {
                        &&& self.graph.adjacent(#[trigger] longer[i]).contains(longer[i + 1])
                        &&& self.link(longer[i], longer[i + 1]).is_some()
                    } by {
                        if i < way.len() - 1 {
                            assert(longer[i] == way[i]);
                            assert(longer[i + 1] == way[i + 1]);
                        }
                    }
                    assert(self.leads(longer, neighbor));
                    assert(self.best[neighbor] <= self.cost(longer));
                }
            }
            self.lemma_same_graph(next, way);
            assert(next.leads(way, from) && next.cost(way) <= cost);
            assert forall|i: int| 0 <= i < next.queue.len() implies (#[trigger] next.queue[i]).2
                == next.queue[i].1 + (next.heuristic)(next.queue[i].0) by {
                if i < self.queue.len() {
                    assert(next.queue[i] == self.queue[i]);
                }
            }
            assert forall|u: V, path: Seq<V>|
                next.settled.contains(u) && #[trigger] next.leads(path, u) implies next.best[u]
                <= next.cost(path) by {
                self.lemma_same_graph(next, path);
                assert(self.leads(path, u));
            }
            assert forall|u: V, n: V|
                #![trigger next.settled.contains(u), next.graph.adjacent(u).contains(n)]
                next.settled.contains(u) && u != from && next.graph.adjacent(u).contains(n)
                    && next.link(u, n).is_some() implies next.pred.contains_key(n) && next.best[n]
                <= next.best[u] + next.link(u, n).unwrap() by {
                assert(self.link(u, n) == next.link(u, n));
                assert(self.settled.contains(u) && self.graph.adjacent(u).contains(n));
            }
            assert forall|x: V| #[trigger]
                next.pred.contains_key(x) && !next.settled.contains(x) implies next.waits(x) by {
                if x == neighbor {
                    assert(next.queue[self.queue.len() as int] == next.entry(x));
                } else {
                    assert(self.pred.contains_key(x));
                    assert(self.waits(x));
                    let i = choose|i: int|
                        0 <= i < self.queue.len() && #[trigger] self.queue[i] == self.entry(x);
                    assert(next.queue[i] == self.queue[i]);
                    assert(next.entry(x) == self.entry(x));
                }
            }
            assert(next.covered(from, cost, count + 1)) by {
                assert forall|j: int|
                    0 <= j < count + 1 && j < next.graph.adjacent(from).len() && next.link(
                        from,
                        #[trigger] next.graph.adjacent(from)[j],
                    ).is_some() implies {
                    &&& next.pred.contains_key(next.graph.adjacent(from)[j])
                    &&& next.best[next.graph.adjacent(from)[j]] <= cost + next.link(
                        from,
                        next.graph.adjacent(from)[j],
                    ).unwrap()
                } by {
                    let n = self.graph.adjacent(from)[j];
                    assert(next.link(from, n) == self.link(from, n));
                    if j < count {
                        assert(self.pred.contains_key(n));
                    }
                }
            }
        } else {
            assert(next == self);
            assert(self.covered(from, cost, count + 1)) by {
                assert forall|j: int|
                    0 <= j < count + 1 && j < self.graph.adjacent(from).len() && self.link(
                        from,
                        #[trigger] self.graph.adjacent(from)[j],
                    ).is_some() implies {
                    &&& self.pred.contains_key(self.graph.adjacent(from)[j])
                    &&& self.best[self.graph.adjacent(from)[j]] <= cost + self.link(
                        from,
                        self.graph.adjacent(from)[j],
                    ).unwrap()
                } by {}
            }
        }
    }

    /// Looking at the neighbours in turn keeps the invariant.
    pub proof fn lemma_expand_settling(self, from: V, cost: nat, count: nat)
        requires
            self.growing(from, cost),
            self.settling(from, cost, 0),
            count <= self.graph.adjacent(from).len(),
        ensures
            self.expand(from, cost, self.graph.adjacent(from), count).settling(from, cost, count),
        decreases count,
    {
        if count > 0 {
            let before = self.expand(from, cost, self.graph.adjacent(from), (count - 1) as nat);
            self.lemma_expand_settling(from, cost, (count - 1) as nat);
            self.lemma_expand(from, cost, (count - 1) as nat);
            before.lemma_relax_settling(from, cost, (count - 1) as nat);
        }
    }
}

impl<V: Vertex, E: WeightedEdge, G: EdgedGraph<V, E>> AstarState<G, V, E> {
    /// The estimate that is zero everywhere is consistent.
    pub proof fn lemma_zero_is_consistent(graph: G, start: V)
        ensures
            Self::initial(graph, start, |vertex: V| 0nat).consistent(),
    {
    }

    /// The initial state has the invariant, where the estimate is consistent.
    pub proof fn lemma_initial_optimal(graph: G, start: V, heuristic: spec_fn(V) -> nat)
        requires
            crate::vertex::vertex_laws::<V>(),
            Self::initial(graph, start, heuristic).consistent(),
        ensures
            Self::initial(graph, start, heuristic).optimal(),
    {
        let state = Self::initial(graph, start, heuristic);
        assert(state.pred.dom() =~= set![start]);
    }

    /// What the entries of the frontier are after the next one has left.
    proof fn lemma_popped_entries(self)
        requires
            self.valid(),
            self.queue.len() > 0,
        ensures
            0 <= self.head() < self.queue.len(),
            self.popped().queue.len() == self.queue.len() - 1,
            forall|i: int|
                0 <= i < self.popped().queue.len() ==> #[trigger] self.popped().queue[i] == if i
                    < self.head() {
                    self.queue[i]
                } else {
                    self.queue[i + 1]
                },
    {
        crate::vertex_traverser::astar::lemma_first_least(self.scores());
    }

    /// A step keeps the invariant.
    pub proof fn lemma_step_optimal(self)
        requires
            self.valid(),
            self.optimal(),
        ensures
            self.step().optimal(),
    {
        if self.queue.len() > 0 {
            crate::vertex_traverser::astar::lemma_first_least(self.scores());
            self.lemma_popped();
            self.lemma_popped_entries();
            let head = self.head();
            let (from, cost, _) = self.queue[head];
            let popped = self.popped();
            let neighbors = self.graph.adjacent(from);
            assert(self.pred.contains_key(self.queue[head].0));
            if !self.settled.contains(self.start) {
                assert(self.queue[0] == (self.start, 0nat, 0nat));
                assert(from == self.start && cost == 0);
                assert(popped.queue.len() == 0);
            }
            assert(popped.settled.contains(popped.start));
            self.lemma_same_graph(popped, seq![from]);
            assert forall|x: V| #[trigger]
                popped.pred.contains_key(x) && !popped.settled.contains(x) implies popped.waits(
                x,
            ) by {
                assert(self.pred.contains_key(x) && !self.settled.contains(x));
                assert(self.settled.contains(self.start));
                assert(self.waits(x));
                let i = choose|i: int|
                    0 <= i < self.queue.len() && #[trigger] self.queue[i] == self.entry(x);
                assert(i != head);
                assert(popped.entry(x) == self.entry(x));
                if i < head {
                    assert(popped.queue[i] == self.queue[i]);
                } else {
                    assert(popped.queue[i - 1] == self.queue[i]);
                }
            }
            assert forall|i: int| 0 <= i < popped.queue.len() implies (#[trigger] popped.queue[i]).2
                == popped.queue[i].1 + (popped.heuristic)(popped.queue[i].0) by {
                if i < head {
                    assert(popped.queue[i] == self.queue[i]);
                } else {
                    assert(popped.queue[i] == self.queue[i + 1]);
                }
            }
            assert forall|u: V, n: V|
                #![trigger popped.settled.contains(u), popped.graph.adjacent(u).contains(n)]
                popped.settled.contains(u) && u != from && popped.graph.adjacent(u).contains(n)
                    && popped.link(u, n).is_some() implies popped.pred.contains_key(n)
                && popped.best[n] <= popped.best[u] + popped.link(u, n).unwrap() by {
                assert(self.link(u, n) == popped.link(u, n));
                assert(self.settled.contains(u) && self.graph.adjacent(u).contains(n));
            }
            if self.settled.contains(from) {
                self.lemma_stale_step();
                assert forall|u: V, path: Seq<V>|
                    popped.settled.contains(u) && #[trigger] popped.leads(
                        path,
                        u,
                    ) implies popped.best[u] <= popped.cost(path) by {
                    self.lemma_same_graph(popped, path);
                    assert(self.leads(path, u));
                }
                assert forall|u: V, n: V|
                    #![trigger popped.settled.contains(u), popped.graph.adjacent(u).contains(n)]
                    popped.settled.contains(u) && popped.graph.adjacent(u).contains(n)
                        && popped.link(u, n).is_some() implies popped.pred.contains_key(n)
                    && popped.best[n] <= popped.best[u] + popped.link(u, n).unwrap() by {
                    assert(self.link(u, n) == popped.link(u, n));
                    assert(self.settled.contains(u) && self.graph.adjacent(u).contains(n));
                }
                assert(popped.optimal());
            } else {
                assert forall|path: Seq<V>| #[trigger] self.leads(path, from) implies cost
                    <= self.cost(path) by {
                    self.lemma_next_is_cheapest(path);
                }
                self.lemma_trail_is_route(from);
                let way = self.trail(from);
                self.lemma_next_is_cheapest(way);
                assert(cost == self.best[from]);
                self.lemma_same_graph(popped, way);
                assert(popped.leads(way, from) && popped.cost(way) <= cost);
                assert forall|u: V, path: Seq<V>|
                    popped.settled.contains(u) && #[trigger] popped.leads(
                        path,
                        u,
                    ) implies popped.best[u] <= popped.cost(path) by {
                    self.lemma_same_graph(popped, path);
                    assert(self.leads(path, u));
                }
                assert(popped.covered(from, cost, 0));
                assert(popped.settling(from, cost, 0));
                popped.lemma_expand_settling(from, cost, neighbors.len());
                popped.lemma_expand(from, cost, neighbors.len());
                let next = self.step();
                assert(next == popped.expand(from, cost, neighbors, neighbors.len()));
                assert(next.settling(from, cost, neighbors.len()));
                assert forall|u: V, n: V|
                    #![trigger next.settled.contains(u), next.graph.adjacent(u).contains(n)]
                    next.settled.contains(u) && next.graph.adjacent(u).contains(n) && next.link(
                        u,
                        n,
                    ).is_some() implies next.pred.contains_key(n) && next.best[n] <= next.best[u]
                    + next.link(u, n).unwrap() by {
                    if u == from {
                        let j = choose|j: int| 0 <= j < neighbors.len() && neighbors[j] == n;
                        assert(next.graph.adjacent(from)[j] == n);
                    }
                }
                assert(next.optimal());
            }
        }
    }

    /// Every state that a traverser with a consistent estimate goes through is
    /// valid and has the invariant.
    pub proof fn lemma_run_optimal(
        graph: G,
        start: V,
        heuristic: spec_fn(V) -> nat,
        steps: nat,
    )
        requires
            crate::vertex::vertex_laws::<V>(),
            Self::initial(graph, start, heuristic).consistent(),
        ensures
            Self::initial(graph, start, heuristic).run(steps).valid(),
            Self::initial(graph, start, heuristic).run(steps).optimal(),
            Self::initial(graph, start, heuristic).run(steps).graph == graph,
            Self::initial(graph, start, heuristic).run(steps).start == start,
            Self::initial(graph, start, heuristic).run(steps).heuristic == heuristic,
        decreases steps,
    {
        let initial = Self::initial(graph, start, heuristic);
        if steps == 0 {
            Self::lemma_initial_valid(graph, start, heuristic);
            Self::lemma_initial_optimal(graph, start, heuristic);
        } else {
            Self::lemma_run_optimal(graph, start, heuristic, (steps - 1) as nat);
            initial.run((steps - 1) as nat).lemma_step_valid();
            initial.run((steps - 1) as nat).lemma_step_optimal();
        }
    }

    /// The recorded way to a vertex that has been produced is a cheapest path,
    /// where the estimate is consistent: it is a route from the start vertex to
    /// the vertex, and no route that leads there costs less.
    pub proof fn lemma_path_is_cheapest(self, target: V, path: Seq<V>)
        requires
            self.valid(),
            self.optimal(),
            self.settled.contains(target),
            self.leads(path, target),
        ensures
            self.leads(self.trail(target), target),
            self.cost(self.trail(target)) <= self.cost(path),
            self.cost(self.trail(target)) == self.best[target],
    {
        self.lemma_trail_is_route(target);
        assert(self.best[target] <= self.cost(self.trail(target)));
    }

    /// Along a route from the start vertex, every vertex has been produced once
    /// the frontier is empty.
    proof fn lemma_route_settled(self, path: Seq<V>, upto: int)
        requires
            self.valid(),
            self.optimal(),
            self.queue.len() == 0,
            self.is_route(path),
            path[0] == self.start,
            0 <= upto < path.len(),
        ensures
            self.settled.contains(path[upto]),
        decreases upto,
    {
        assert(self.settled.contains(self.start)) by {
            if !self.settled.contains(self.start) {
                assert(self.queue[0] == (self.start, 0nat, 0nat));
            }
        }
        if upto > 0 {
            self.lemma_route_settled(path, upto - 1);
            assert(self.graph.adjacent(path[upto - 1]).contains(path[upto]));
            assert(self.pred.contains_key(path[upto]));
            if !self.settled.contains(path[upto]) {
                assert(self.waits(path[upto]));
            }
        }
    }

    /// Once the frontier is empty, every vertex that a route from the start
    /// vertex leads to has been produced.
    pub proof fn lemma_exhausted_is_complete(self, target: V, path: Seq<V>)
        requires
            self.valid(),
            self.optimal(),
            self.queue.len() == 0,
            self.leads(path, target),
        ensures
            self.settled.contains(target),
            self.pred.contains_key(target),
    {
        self.lemma_route_settled(path, path.len() - 1);
    }

    /// The vertex that a step produces has been produced after the step, and so
    /// has every vertex that was produced before it.
    pub proof fn lemma_step_settles(self, vertex: V)
        requires
            self.valid(),
            self.upcoming() == Some(vertex) || self.settled.contains(vertex),
        ensures
            self.step().settled.contains(vertex),
    {
        if self.queue.len() > 0 {
            self.lemma_popped();
            let (from, cost, _) = self.queue[self.head()];
            self.popped().lemma_expand(from, cost, self.graph.adjacent(from).len());
        }
    }

    /// A* with an estimator that estimates zero everywhere is Dijkstra's
    /// algorithm: it starts in the same state and goes through the same states,
    /// so it produces the same vertices and records the same ways at the same
    /// costs.
    pub proof fn lemma_zero_estimate_is_dijkstra(
        graph: G,
        start: V,
        heuristic: spec_fn(V) -> nat,
        steps: nat,
    )
        requires
            forall|vertex: V| #[trigger] heuristic(vertex) == 0,
        ensures
            Self::initial(graph, start, heuristic) == Self::initial(
                graph,
                start,
                |vertex: V| 0nat,
            ),
            Self::initial(graph, start, heuristic).run(steps) == Self::initial(
                graph,
                start,
                |vertex: V| 0nat,
            ).run(steps),
    {
        assert(heuristic =~= (|vertex: V| 0nat));
    }
}

impl<V: Vertex, E: WeightedEdge, G: EdgedGraph<V, E>> AstarState<G, V, E> {
    /// A run of one more step is a step and then the run.
    pub proof fn lemma_run_after_step(self, steps: nat)
        ensures
            self.run(steps + 1) == self.step().run(steps),
        decreases steps,
    {
        if steps > 0 {
            self.lemma_run_after_step((steps - 1) as nat);
            assert(self.run(steps + 1) == self.run(steps).step());
            assert(self.step().run(steps) == self.step().run((steps - 1) as nat).step());
        } else {
            assert(self.run(1) == self.run(0).step());
        }
    }

    /// A step that produces a vertex again only takes its entry out of the
    /// frontier.
    pub proof fn lemma_stale_step(self)
        requires
            self.valid(),
            self.optimal(),
            self.queue.len() > 0,
            self.settled.contains(self.queue[self.head()].0),
        ensures
            self.step() == self.popped(),
            self.popped().settled == self.settled,
            self.popped().queue.len() == self.queue.len() - 1,
    {
        crate::vertex_traverser::astar::lemma_first_least(self.scores());
        self.lemma_popped();
        let head = self.head();
        let (from, cost, _) = self.queue[head];
        let popped = self.popped();
        let neighbors = self.graph.adjacent(from);
        assert(self.pred.contains_key(self.queue[head].0));
        assert(popped.settled =~= self.settled);
        assert(popped.covered(from, popped.best[from], neighbors.len())) by {
            assert forall|j: int|
                0 <= j < neighbors.len() && popped.link(
                    from,
                    #[trigger] popped.graph.adjacent(from)[j],
                ).is_some() implies {
                &&& popped.pred.contains_key(popped.graph.adjacent(from)[j])
                &&& popped.best[popped.graph.adjacent(from)[j]] <= popped.best[from] + popped.link(
                    from,
                    popped.graph.adjacent(from)[j],
                ).unwrap()
            } by {
                let n = neighbors[j];
                assert(self.graph.adjacent(from).contains(n));
                assert(self.link(from, n) == popped.link(from, n));
            }
        }
        popped.lemma_stale(from, cost, neighbors.len());
    }

    /// Looking at neighbours reaches no vertex outside a region that no edge
    /// leaves.
    pub proof fn lemma_expand_stays(self, from: V, cost: nat, count: nat, region: Set<V>)
        requires
            self.pred.dom().subset_of(region),
            region.contains(from),
            crate::graph::closed_under_neighbors(&self.graph, region),
            count <= self.graph.adjacent(from).len(),
        ensures
            self.expand(from, cost, self.graph.adjacent(from), count).pred.dom().subset_of(region),
            self.expand(from, cost, self.graph.adjacent(from), count).graph == self.graph,
            self.expand(from, cost, self.graph.adjacent(from), count).settled == self.settled,
        decreases count,
    {
        if count > 0 {
            let neighbors = self.graph.adjacent(from);
            self.lemma_expand_stays(from, cost, (count - 1) as nat, region);
            assert(neighbors.contains(neighbors[count - 1]));
        }
    }

    /// In a region that is finite and that no edge leaves, a traverser with a
    /// consistent estimate runs out of vertices after finitely many steps: a
    /// step produces a vertex of the region for the first time, or makes the
    /// frontier shorter.
    pub proof fn lemma_runs_out(self, region: Set<V>) -> (steps: nat)
        requires
            self.valid(),
            self.optimal(),
            region.finite(),
            self.pred.dom().subset_of(region),
            crate::graph::closed_under_neighbors(&self.graph, region),
        ensures
            self.run(steps).queue.len() == 0,
        decreases region.difference(self.settled).len(), self.queue.len(),
    {
        if self.queue.len() == 0 {
            0
        } else {
            self.lemma_popped();
            self.lemma_step_valid();
            self.lemma_step_optimal();
            let head = self.head();
            let (from, cost, _) = self.queue[head];
            let next = self.step();
            assert(self.pred.contains_key(self.queue[head].0));
            self.popped().lemma_expand_stays(from, cost, self.graph.adjacent(from).len(), region);
            if self.settled.contains(from) {
                self.lemma_stale_step();
            } else {
                let left = region.difference(self.settled);
                let fewer = region.difference(next.settled);
                assert(next.settled == self.settled.insert(from));
                assert(left.contains(from));
                assert(fewer.subset_of(left.remove(from)));
                vstd::set_lib::lemma_len_subset(fewer, left.remove(from));
            }
            let rest = next.lemma_runs_out(region);
            self.lemma_run_after_step(rest);
            rest + 1
        }
    }

    /// Where a step produces the target or nothing, there is a first such step.
    pub proof fn lemma_search_ends(self, target: V, limit: nat) -> (steps: nat)
        requires
            crate::vertex_traverser::ends(self.run(limit).upcoming(), target),
        ensures
            steps <= limit,
            crate::vertex_traverser::ends(self.run(steps).upcoming(), target),
            forall|fewer: nat|
                fewer < steps ==> !crate::vertex_traverser::ends(
                    #[trigger] self.run(fewer).upcoming(),
                    target,
                ),
        decreases limit,
    {
        if exists|fewer: nat|
            fewer < limit && crate::vertex_traverser::ends(
                #[trigger] self.run(fewer).upcoming(),
                target,
            ) {
            let fewer = choose|fewer: nat|
                fewer < limit && crate::vertex_traverser::ends(
                    #[trigger] self.run(fewer).upcoming(),
                    target,
                );
            self.lemma_search_ends(target, fewer)
        } else {
            limit
        }
    }
}

impl<V: Vertex, E: WeightedEdge, G: EdgedGraph<V, E>> AstarState<G, V, E> {
    /// Whether no entry of the frontier costs more than `cap`.
    pub open spec fn capped(self, cap: nat) -> bool {
        forall|i: int| 0 <= i < self.queue.len() ==> (#[trigger] self.queue[i]).1 <= cap
    }

    /// Whether every vertex that a route from the start vertex leads to can be
    /// reached at a cost of `distance` or less.
    pub open spec fn near(self, distance: nat) -> bool {
        forall|v: V, path: Seq<V>| #[trigger]
            self.leads(path, v) ==> exists|short: Seq<V>|
                #[trigger] self.leads(short, v) && self.cost(short) <= distance
    }

    /// Whether no cheapest edge that leaves a vertex of `region` weighs more
    /// than `weight`.
    pub open spec fn light(self, region: Set<V>, weight: nat) -> bool {
        forall|v: V, n: V|
            region.contains(v) && #[trigger] self.graph.adjacent(v).contains(n) && self.link(
                v,
                n,
            ).is_some() ==> self.link(v, n).unwrap() <= weight
    }

    /// Whether the type of the edges can hold every cost up to `limit`.
    pub open spec fn roomy(limit: nat) -> bool {
        forall|total: nat| total <= limit ==> #[trigger] E::representable(total)
    }

    /// Looking at neighbours puts nothing in the frontier that costs more than
    /// the vertex they are looked at from and the heaviest edge.
    pub proof fn lemma_expand_capped(
        self,
        from: V,
        cost: nat,
        count: nat,
        region: Set<V>,
        weight: nat,
        cap: nat,
    )
        requires
            self.capped(cap),
            region.contains(from),
            self.light(region, weight),
            cost + weight <= cap,
            count <= self.graph.adjacent(from).len(),
        ensures
            self.expand(from, cost, self.graph.adjacent(from), count).capped(cap),
            self.expand(from, cost, self.graph.adjacent(from), count).graph == self.graph,
        decreases count,
    {
        if count > 0 {
            let neighbors = self.graph.adjacent(from);
            let before = self.expand(from, cost, neighbors, (count - 1) as nat);
            self.lemma_expand_capped(from, cost, (count - 1) as nat, region, weight, cap);
            let neighbor = neighbors[count - 1];
            assert(neighbors.contains(neighbor));
            let after = before.relax(from, cost, neighbor);
            assert(before.link(from, neighbor) == self.link(from, neighbor));
            assert forall|i: int| 0 <= i < after.queue.len() implies (#[trigger] after.queue[i]).1
                <= cap by {
                if i < before.queue.len() {
                    assert(after.queue[i] == before.queue[i]);
                }
            }
        }
    }

    /// A step puts nothing in the frontier that costs more than the farthest
    /// vertex and the heaviest edge.
    pub proof fn lemma_step_capped(self, region: Set<V>, distance: nat, weight: nat)
        requires
            self.valid(),
            self.optimal(),
            self.pred.dom().subset_of(region),
            crate::graph::closed_under_neighbors(&self.graph, region),
            self.near(distance),
            self.light(region, weight),
            self.capped(distance + weight),
        ensures
            self.step().capped(distance + weight),
            self.step().pred.dom().subset_of(region),
    {
        if self.queue.len() > 0 {
            self.lemma_popped();
            self.lemma_popped_entries();
            let head = self.head();
            let (from, cost, _) = self.queue[head];
            let popped = self.popped();
            assert(self.pred.contains_key(self.queue[head].0));
            popped.lemma_expand_stays(from, cost, self.graph.adjacent(from).len(), region);
            assert(popped.capped(distance + weight)) by {
                assert forall|i: int| 0 <= i < popped.queue.len() implies (
                #[trigger] popped.queue[i]).1 <= distance + weight by {
                    if i < head {
                        assert(popped.queue[i] == self.queue[i]);
                    } else {
                        assert(popped.queue[i] == self.queue[i + 1]);
                    }
                }
            }
            if self.settled.contains(from) {
                self.lemma_stale_step();
            } else {
                self.lemma_trail_is_route(from);
                let short = choose|short: Seq<V>|
                    #[trigger] self.leads(short, from) && self.cost(short) <= distance;
                self.lemma_next_is_cheapest(short);
                assert(popped.light(region, weight)) by {
                    assert forall|v: V, n: V|
                        region.contains(v) && #[trigger] popped.graph.adjacent(v).contains(n)
                            && popped.link(v, n).is_some() implies popped.link(v, n).unwrap()
                        <= weight by {
                        assert(popped.link(v, n) == self.link(v, n));
                    }
                }
                popped.lemma_expand_capped(
                    from,
                    cost,
                    self.graph.adjacent(from).len(),
                    region,
                    weight,
                    distance + weight,
                );
            }
        }
    }

    /// A step can be made where the type of the edges can hold the cost of the
    /// farthest vertex, of two more edges and of the highest estimate.
    pub proof fn lemma_capped_ready(
        self,
        region: Set<V>,
        distance: nat,
        weight: nat,
        estimate: nat,
    )
        requires
            self.valid(),
            self.pred.dom().subset_of(region),
            self.light(region, weight),
            self.capped(distance + weight),
            forall|vertex: V| #[trigger] (self.heuristic)(vertex) <= estimate,
            Self::roomy(distance + 2 * weight + estimate),
        ensures
            self.ready(),
    {
        if self.queue.len() > 0 {
            self.lemma_popped();
            let head = self.head();
            let (from, cost, _) = self.queue[head];
            let neighbors = self.graph.adjacent(from);
            let popped = self.popped();
            assert(self.pred.contains_key(self.queue[head].0));
            assert forall|count: nat| count < neighbors.len() implies (#[trigger] popped.expand(
                from,
                cost,
                neighbors,
                count,
            )).relaxable(from, cost, neighbors[count as int]) by {
                let here = popped.expand(from, cost, neighbors, count);
                let neighbor = neighbors[count as int];
                popped.lemma_expand(from, cost, count);
                assert(here.link(from, neighbor) == self.link(from, neighbor));
                assert(neighbors.contains(neighbor));
                assert((here.heuristic)(neighbor) <= estimate);
                if self.link(from, neighbor).is_some() {
                    let total = cost + self.link(from, neighbor).unwrap();
                    assert(E::representable(total));
                    assert(E::representable(total + (here.heuristic)(neighbor)));
                }
            }
        }
    }

    /// Every step of a run from the initial state can be made where the
    /// estimate is consistent, the vertices lie in a region that no edge leaves,
    /// and the type of the edges can hold the cost of the farthest vertex, of
    /// two more edges and of the highest estimate.
    pub proof fn lemma_run_ready(
        graph: G,
        start: V,
        heuristic: spec_fn(V) -> nat,
        region: Set<V>,
        distance: nat,
        weight: nat,
        estimate: nat,
        steps: nat,
    )
        requires
            crate::vertex::vertex_laws::<V>(),
            region.contains(start),
            crate::graph::closed_under_neighbors(&graph, region),
            Self::initial(graph, start, heuristic).consistent(),
            Self::initial(graph, start, heuristic).near(distance),
            Self::initial(graph, start, heuristic).light(region, weight),
            forall|vertex: V| #[trigger] heuristic(vertex) <= estimate,
            Self::roomy(distance + 2 * weight + estimate),
        ensures
            Self::initial(graph, start, heuristic).run(steps).valid(),
            Self::initial(graph, start, heuristic).run(steps).optimal(),
            Self::initial(graph, start, heuristic).run(steps).ready(),
            Self::initial(graph, start, heuristic).run(steps).capped(distance + weight),
            Self::initial(graph, start, heuristic).run(steps).pred.dom().subset_of(region),
        decreases steps,
    {
        let initial = Self::initial(graph, start, heuristic);
        let here = initial.run(steps);
        Self::lemma_run_optimal(graph, start, heuristic, steps);
        if steps > 0 {
            let before = initial.run((steps - 1) as nat);
            Self::lemma_run_optimal(graph, start, heuristic, (steps - 1) as nat);
            Self::lemma_run_ready(
                graph,
                start,
                heuristic,
                region,
                distance,
                weight,
                estimate,
                (steps - 1) as nat,
            );
            assert(before.near(distance)) by {
                assert forall|v: V, path: Seq<V>| #[trigger] before.leads(path, v) implies exists|
                    short: Seq<V>,
                |
                    #[trigger] before.leads(short, v) && before.cost(short) <= distance by {
                    initial.lemma_same_graph(before, path);
                    assert(initial.leads(path, v));
                    let short = choose|short: Seq<V>|
                        #[trigger] initial.leads(short, v) && initial.cost(short) <= distance;
                    initial.lemma_same_graph(before, short);
                    assert(before.leads(short, v));
                }
            }
            assert(before.light(region, weight)) by {
                assert forall|v: V, n: V|
                    region.contains(v) && #[trigger] before.graph.adjacent(v).contains(n)
                        && before.link(v, n).is_some() implies before.link(v, n).unwrap()
                    <= weight by {
                    assert(before.link(v, n) == initial.link(v, n));
                }
            }
            before.lemma_step_capped(region, distance, weight);
        }
        assert(here.light(region, weight)) by {
            assert forall|v: V, n: V|
                region.contains(v) && #[trigger] here.graph.adjacent(v).contains(n) && here.link(
                    v,
                    n,
                ).is_some() implies here.link(v, n).unwrap() <= weight by {
                assert(here.link(v, n) == initial.link(v, n));
            }
        }
        here.lemma_capped_ready(region, distance, weight, estimate);
    }
}

} // verus!
