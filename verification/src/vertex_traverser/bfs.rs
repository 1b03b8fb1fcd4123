//! Breadth-first traversal.

use crate::graph::Graph;
use crate::vertex::copy_optional_vertex;
use crate::vertex::copy_vertex;
use crate::vertex::Vertex;
use crate::vertex_container::BfsContainer;
use crate::vertex_container::VertexContainer;
use crate::vertex_traverser::VertexTraverser;
use std::collections::HashMap;
use vstd::prelude::*;

verus! {

/// What a breadth-first traverser holds.
#[verifier::reject_recursive_types(V)]
pub struct BfsState<G, V> {
    /// The graph that is walked.
    pub graph: G,
    /// The start vertex.
    pub start: V,
    /// The frontier: the vertices that have been reached and not yet produced,
    /// in the order in which they were reached.
    pub queue: Seq<V>,
    /// For each vertex that has been reached, the vertex it was first reached
    /// from; `None` for the start vertex.
    pub pred: Map<V, Option<V>>,
    /// For each vertex that has been reached, the number of edges on the
    /// recorded way to it.
    pub level: Map<V, nat>,
}

impl<V: Vertex, G: Graph<V>> BfsState<G, V> {
    /// The state of a traverser that has made no step.
    pub open spec fn initial(graph: G, start: V) -> Self {
        BfsState {
            graph,
            start,
            queue: seq![start],
            pred: map![start => None::<V>],
            level: map![start => 0nat],
        }
    }

    /// The state after `neighbor` has been looked at from `from`: a vertex that
    /// has not been reached before joins the frontier, with `from` as its
    /// predecessor.
    pub open spec fn visit(self, from: V, neighbor: V) -> Self {
        if self.pred.contains_key(neighbor) {
            self
        } else {
            BfsState {
                queue: self.queue.push(neighbor),
                pred: self.pred.insert(neighbor, Some(from)),
                level: self.level.insert(neighbor, self.level[from] + 1),
                ..self
            }
        }
    }

    /// The state after the first `count` of the neighbours of `from` have been
    /// looked at.
    pub open spec fn expand(self, from: V, neighbors: Seq<V>, count: nat) -> Self
        decreases count,
    {
        if count == 0 {
            self
        } else {
            self.expand(from, neighbors, (count - 1) as nat).visit(from, neighbors[count - 1])
        }
    }

    /// The vertex that the next step produces.
    pub open spec fn upcoming(self) -> Option<V> {
        if self.queue.len() == 0 {
            None
        } else {
            Some(self.queue[0])
        }
    }

    /// The state after one step: the oldest vertex has left the frontier, and
    /// its neighbours have been looked at in turn.
    pub open spec fn step(self) -> Self {
        if self.queue.len() == 0 {
            self
        } else {
            let from = self.queue[0];
            let neighbors = self.graph.adjacent(from);
            BfsState { queue: self.queue.remove(0), ..self }.expand(
                from,
                neighbors,
                neighbors.len(),
            )
        }
    }

    /// The state after a number of steps.
    pub open spec fn run(self, steps: nat) -> Self
        decreases steps,
    {
        if steps == 0 {
            self
        } else {
            self.run((steps - 1) as nat).step()
        }
    }

    /// Every state that a run leads through is valid, over the same graph and
    /// with the same start vertex.
    pub proof fn lemma_run_valid(self, steps: nat)
        requires
            self.valid(),
        ensures
            self.run(steps).valid(),
            self.run(steps).graph == self.graph,
            self.run(steps).start == self.start,
        decreases steps,
    {
        if steps > 0 {
            self.lemma_run_valid((steps - 1) as nat);
            self.run((steps - 1) as nat).lemma_step_valid();
        }
    }

    /// The recorded predecessor of a vertex.
    pub open spec fn parent(self, vertex: V) -> Option<V> {
        if self.pred.contains_key(vertex) {
            self.pred[vertex]
        } else {
            None
        }
    }

    /// The ranks that order the recorded predecessors: the levels.
    pub open spec fn ranks(self) -> Map<V, (nat, nat)> {
        self.level.map_values(|level: nat| (level, 0nat))
    }

    /// The recorded way to a vertex.
    pub open spec fn trail(self, vertex: V) -> Seq<V> {
        crate::vertex_traverser::chain(self.pred, self.ranks(), vertex)
    }

    /// Whether `vertex` has been reached and has left the frontier.
    pub open spec fn produced(self, vertex: V) -> bool {
        self.pred.contains_key(vertex) && !self.queue.contains(vertex)
    }

    /// Whether every neighbour of `vertex` has been reached, at most one level
    /// further from the start.
    pub open spec fn explored(self, vertex: V) -> bool {
        forall|n: V| #[trigger]
            self.graph.adjacent(vertex).contains(n) ==> self.pred.contains_key(n) && self.level[n]
                <= self.level[vertex] + 1
    }

    /// What holds of the recorded predecessors and of the frontier at all
    /// times: the predecessors form a tree of edges of the graph below the
    /// start vertex, a level is the depth in this tree, and the frontier holds
    /// vertices that have been reached, none of them twice, in the order of
    /// their levels.
    pub open spec fn tree(self) -> bool {
        &&& crate::vertex::vertex_laws::<V>()
        &&& self.pred.dom() == self.level.dom()
        &&& self.pred.contains_key(self.start)
        &&& self.pred[self.start].is_none()
        &&& self.level[self.start] == 0
        &&& forall|v: V| #[trigger]
            self.pred.contains_key(v) ==> match self.pred[v] {
                Some(p) => {
                    &&& self.pred.contains_key(p)
                    &&& self.level[v] == self.level[p] + 1
                    &&& self.graph.adjacent(p).contains(v)
                },
                None => v == self.start,
            }
        &&& forall|i: int|
            0 <= i < self.queue.len() ==> self.pred.contains_key(#[trigger] self.queue[i])
        &&& forall|i: int, j: int|
            0 <= i < j < self.queue.len() ==> #[trigger] self.queue[i] != #[trigger] self.queue[j]
        &&& forall|i: int, j: int|
            0 <= i <= j < self.queue.len() ==> self.level[#[trigger] self.queue[i]]
                <= self.level[#[trigger] self.queue[j]]
    }

    /// Whether the levels lie around `floor`: no vertex that has been reached
    /// lies more than one level above it, none that has left the frontier lies
    /// above it, and none in the frontier lies below it.
    pub open spec fn layered(self, floor: nat) -> bool {
        &&& forall|v: V| #[trigger] self.pred.contains_key(v) ==> self.level[v] <= floor + 1
        &&& forall|v: V| #[trigger] self.produced(v) ==> self.level[v] <= floor
        &&& forall|i: int|
            0 <= i < self.queue.len() ==> floor <= self.level[#[trigger] self.queue[i]]
    }

    /// The invariant while the neighbours of `from` are looked at, after the
    /// first `count` of them.
    pub open spec fn growing(self, from: V, count: nat) -> bool {
        &&& self.tree()
        &&& self.produced(from)
        &&& self.layered(self.level[from])
        &&& forall|v: V| #[trigger] self.produced(v) && v != from ==> self.explored(v)
        &&& count <= self.graph.adjacent(from).len()
        &&& forall|j: int|
            0 <= j < count ==> {
                &&& self.pred.contains_key(#[trigger] self.graph.adjacent(from)[j])
                &&& self.level[self.graph.adjacent(from)[j]] <= self.level[from] + 1
            }
    }

    /// The invariant of the states that a traverser goes through.
    pub open spec fn valid(self) -> bool {
        &&& self.tree()
        &&& forall|v: V| #[trigger] self.produced(v) ==> self.explored(v)
        &&& self.queue.len() > 0 ==> self.layered(self.level[self.queue[0]])
    }

    /// The initial state is valid.
    pub proof fn lemma_initial_valid(graph: G, start: V)
        requires
            crate::vertex::vertex_laws::<V>(),
        ensures
            Self::initial(graph, start).valid(),
    {
        let state = Self::initial(graph, start);
        assert(state.pred.dom() =~= state.level.dom());
        assert(state.queue[0] == start);
        assert forall|v: V| #[trigger] state.produced(v) implies state.explored(v) by {
            assert(state.queue.contains(start));
        }
    }

    /// Looking at one more neighbour keeps the invariant.
    pub proof fn lemma_visit(self, from: V, count: nat)
        requires
            self.growing(from, count),
            count < self.graph.adjacent(from).len(),
        ensures
            self.visit(from, self.graph.adjacent(from)[count as int]).growing(from, count + 1),
    {
        let neighbor = self.graph.adjacent(from)[count as int];
        let next = self.visit(from, neighbor);
        if !self.pred.contains_key(neighbor) {
            assert(self.graph.adjacent(from).contains(neighbor));
            assert(next.pred.dom() =~= next.level.dom());
            assert forall|v: V| next.queue.contains(v) <==> self.queue.contains(v) || v
                == neighbor by {
                crate::lists::lemma_push_contains(self.queue, neighbor, v);
            }
            assert(!self.queue.contains(neighbor)) by {
                if self.queue.contains(neighbor) {
                    let i = choose|i: int| 0 <= i < self.queue.len() && self.queue[i] == neighbor;
                    assert(self.pred.contains_key(self.queue[i]));
                }
            }
            assert(next.tree());
            let floor = self.level[from];
            assert(next.level[from] == floor);
            assert forall|v: V| #[trigger] next.produced(v) implies next.level[v] <= floor by {
                assert(self.produced(v));
            }
            assert forall|i: int| 0 <= i < next.queue.len() implies floor
                <= next.level[#[trigger] next.queue[i]] by {
                if i < self.queue.len() {
                    assert(next.queue[i] == self.queue[i]);
                }
            }
            assert(next.layered(floor));
            assert forall|v: V| #[trigger] next.produced(v) && v != from implies next.explored(
                v,
            ) by {
                assert(self.produced(v));
                assert(self.explored(v));
            }
        }
    }

    /// Looking at the neighbours in turn keeps the invariant.
    pub proof fn lemma_expand(self, from: V, count: nat)
        requires
            self.growing(from, 0),
            count <= self.graph.adjacent(from).len(),
        ensures
            self.expand(from, self.graph.adjacent(from), count).growing(from, count),
            self.expand(from, self.graph.adjacent(from), count).graph == self.graph,
            self.expand(from, self.graph.adjacent(from), count).start == self.start,
        decreases count,
    {
        if count > 0 {
            self.lemma_expand(from, (count - 1) as nat);
            self.expand(from, self.graph.adjacent(from), (count - 1) as nat).lemma_visit(
                from,
                (count - 1) as nat,
            );
        }
    }

    /// A step keeps the invariant.
    pub proof fn lemma_step_valid(self)
        requires
            self.valid(),
        ensures
            self.step().valid(),
            self.step().graph == self.graph,
            self.step().start == self.start,
    {
        if self.queue.len() > 0 {
            let from = self.queue[0];
            let neighbors = self.graph.adjacent(from);
            let popped = BfsState { queue: self.queue.remove(0), ..self };
            assert forall|v: V| self.queue.contains(v) <==> popped.queue.contains(v) || v
                == from by {
                crate::lists::lemma_rest_contains(self.queue, v);
            }
            assert(!popped.queue.contains(from)) by {
                if popped.queue.contains(from) {
                    let i = choose|i: int| 0 <= i < popped.queue.len() && popped.queue[i] == from;
                    assert(self.queue[i + 1] == from);
                }
            }
            assert forall|i: int| 0 <= i < popped.queue.len() implies popped.queue[i]
                == self.queue[i + 1] by {}
            assert(popped.tree());
            let floor = self.level[from];
            assert(self.pred.contains_key(self.queue[0]));
            assert(self.layered(floor));
            assert forall|v: V| #[trigger] popped.produced(v) implies popped.level[v] <= floor by {
                if v != from {
                    assert(self.produced(v));
                }
            }
            assert forall|i: int| 0 <= i < popped.queue.len() implies floor
                <= popped.level[#[trigger] popped.queue[i]] by {
                assert(popped.queue[i] == self.queue[i + 1]);
            }
            assert(popped.layered(floor));
            assert forall|v: V| #[trigger] popped.produced(v) && v != from implies popped.explored(
                v,
            ) by {
                assert(self.produced(v));
            }
            assert(popped.growing(from, 0));
            popped.lemma_expand(from, neighbors.len());
            let next = self.step();
            assert(next.growing(from, neighbors.len()));
            assert(next.explored(from)) by {
                assert forall|n: V| #[trigger] next.graph.adjacent(from).contains(n) implies {
                    &&& next.pred.contains_key(n)
                    &&& next.level[n] <= next.level[from] + 1
                } by {
                    assert(next.graph.adjacent(from) == neighbors);
                    let j = choose|j: int| 0 <= j < neighbors.len() && neighbors[j] == n;
                    assert(next.pred.contains_key(next.graph.adjacent(from)[j]));
                }
            }
            if next.queue.len() > 0 {
                assert(next.level[from] <= next.level[next.queue[0]]);
                assert(next.layered(next.level[next.queue[0]]));
            }
        }
    }
}

impl<V: Vertex, G: Graph<V>> BfsState<G, V> {
    /// The levels order the recorded predecessors.
    pub proof fn lemma_descends(self)
        requires
            self.tree(),
        ensures
            crate::vertex_traverser::descends(self.pred, self.ranks()),
    {
        assert forall|v: V|
            #![trigger self.pred[v]]
            self.pred.contains_key(v) && self.pred[v].is_some() implies {
            let p = self.pred[v].unwrap();
            self.ranks()[p].0 < self.ranks()[v].0
        } by {
            let p = self.pred[v].unwrap();
            assert(self.pred.contains_key(p));
            assert(self.level.contains_key(p));
            assert(self.level.contains_key(v));
        }
    }

    /// The recorded way to a vertex is the recorded way to its predecessor and
    /// then the vertex.
    pub proof fn lemma_trail(self, vertex: V)
        requires
            self.tree(),
        ensures
            self.trail(vertex) == match self.parent(vertex) {
                Some(before) => self.trail(before).push(vertex),
                None => seq![vertex],
            },
    {
        self.lemma_descends();
    }
}

impl<V: Vertex, G: Graph<V>> BfsState<G, V> {
    /// The recorded way to a vertex that has been reached is a walk from the
    /// start vertex to it, with as many edges as the vertex's level.
    pub proof fn lemma_trail_is_walk(self, vertex: V)
        requires
            self.tree(),
            self.pred.contains_key(vertex),
        ensures
            crate::graph::connects(&self.graph, self.trail(vertex), self.start, vertex),
            self.trail(vertex).len() == self.level[vertex] + 1,
        decreases self.level[vertex],
    {
        self.lemma_trail(vertex);
        match self.pred[vertex] {
            Some(before) => {
                self.lemma_trail_is_walk(before);
                let way = self.trail(before);
                let longer = way.push(vertex);
                assert forall|i: int| 0 <= i < longer.len() - 1 implies self.graph.adjacent(
                    #[trigger] longer[i],
                ).contains(longer[i + 1]) by {
                    if i < way.len() - 1 {
                        assert(longer[i] == way[i]);
                        assert(longer[i + 1] == way[i + 1]);
                    }
                }
            },
            None => {},
        }
    }

    /// Along a walk from the start vertex, up to its place `upto`, the walk
    /// meets the frontier, or its vertices have been reached at levels no
    /// higher than their places.
    proof fn lemma_walk_prefix(self, walk: Seq<V>, upto: int) -> (at: int)
        requires
            self.valid(),
            crate::graph::is_walk(&self.graph, walk),
            walk[0] == self.start,
            0 <= upto < walk.len(),
        ensures
            0 <= at <= upto,
            self.pred.contains_key(walk[at]),
            self.level[walk[at]] <= at,
            at == upto || self.queue.contains(walk[at]),
        decreases upto,
    {
        if upto == 0 {
            0
        } else {
            let at = self.lemma_walk_prefix(walk, upto - 1);
            if at < upto - 1 || self.queue.contains(walk[at]) {
                at
            } else {
                assert(self.produced(walk[at]));
                assert(self.explored(walk[at]));
                assert(self.graph.adjacent(walk[at]).contains(walk[at + 1]));
                upto
            }
        }
    }

    /// No walk from the start vertex to a vertex that has been reached has
    /// fewer edges than the vertex's level.
    pub proof fn lemma_level_is_least(self, target: V, walk: Seq<V>)
        requires
            self.valid(),
            self.pred.contains_key(target),
            crate::graph::connects(&self.graph, walk, self.start, target),
        ensures
            self.level[target] + 1 <= walk.len(),
    {
        let at = self.lemma_walk_prefix(walk, walk.len() - 1);
        if at < walk.len() - 1 {
            let place = choose|i: int| 0 <= i < self.queue.len() && self.queue[i] == walk[at];
            let floor = self.level[self.queue[0]];
            assert(self.pred.contains_key(self.queue[0]));
            assert(self.layered(floor));
            assert(floor <= self.level[self.queue[place]]);
        }
    }

    /// The recorded way to a vertex is a shortest path: it leads from the start
    /// vertex to the vertex, and no walk that does so has fewer edges.
    pub proof fn lemma_path_is_shortest(self, target: V, walk: Seq<V>)
        requires
            self.valid(),
            self.trail(target).len() > 1 || target == self.start,
            crate::graph::connects(&self.graph, walk, self.start, target),
        ensures
            crate::graph::connects(&self.graph, self.trail(target), self.start, target),
            self.trail(target).len() <= walk.len(),
    {
        self.lemma_trail(target);
        self.lemma_trail_is_walk(target);
        self.lemma_level_is_least(target, walk);
    }

    /// Once the frontier is empty, every vertex that can be reached from the
    /// start vertex has been reached.
    pub proof fn lemma_exhausted_is_complete(self, target: V)
        requires
            self.valid(),
            self.queue.len() == 0,
            crate::graph::reachable(&self.graph, self.start, target),
        ensures
            self.pred.contains_key(target),
    {
        let walk = choose|walk: Seq<V>| crate::graph::connects(&self.graph, walk, self.start, target);
        let at = self.lemma_walk_prefix(walk, walk.len() - 1);
        if at < walk.len() - 1 {
            let place = choose|i: int| 0 <= i < self.queue.len() && self.queue[i] == walk[at];
        }
    }
}

impl<V: Vertex, G: Graph<V>> BfsState<G, V> {
    /// The vertices that have been produced.
    pub open spec fn done(self) -> Set<V> {
        Set::new(|v: V| self.produced(v))
    }

    /// A run of one more step is a step and then the run.
    pub proof fn lemma_run_after_step(self, steps: nat)
        ensures
            self.run(steps + 1) == self.step().run(steps),
        decreases steps,
    {
        if steps > 0 {
            self.lemma_run_after_step((steps - 1) as nat);
            assert(self.run(steps + 1) == self.run(steps).step());
            assert(self.step().run(steps) == self.step().run((steps - 1) as nat).step());
        } else {
            assert(self.run(1) == self.run(0).step());
        }
    }

    /// Looking at neighbours reaches no vertex outside a region that no edge
    /// leaves, and takes nothing out of the frontier.
    pub proof fn lemma_expand_stays(self, from: V, count: nat, region: Set<V>)
        requires
            self.pred.dom().subset_of(region),
            region.contains(from),
            crate::graph::closed_under_neighbors(&self.graph, region),
            count <= self.graph.adjacent(from).len(),
        ensures
            self.expand(from, self.graph.adjacent(from), count).pred.dom().subset_of(region),
            self.expand(from, self.graph.adjacent(from), count).graph == self.graph,
            forall|v: V|
                self.produced(v) ==> self.expand(
                    from,
                    self.graph.adjacent(from),
                    count,
                ).produced(v),
        decreases count,
    {
        if count > 0 {
            let neighbors = self.graph.adjacent(from);
            let before = self.expand(from, neighbors, (count - 1) as nat);
            self.lemma_expand_stays(from, (count - 1) as nat, region);
            let neighbor = neighbors[count - 1];
            assert(neighbors.contains(neighbor));
            let after = before.visit(from, neighbor);
            assert forall|v: V| self.produced(v) implies after.produced(v) by {
                assert(before.produced(v));
                crate::lists::lemma_push_contains(before.queue, neighbor, v);
            }
        }
    }

    /// What has been reached stays reached while neighbours are looked at.
    pub proof fn lemma_expand_keeps(self, from: V, neighbors: Seq<V>, count: nat)
        requires
            count <= neighbors.len(),
        ensures
            forall|v: V|
                self.pred.contains_key(v) ==> self.expand(from, neighbors, count).pred.contains_key(
                    v,
                ),
        decreases count,
    {
        if count > 0 {
            self.lemma_expand_keeps(from, neighbors, (count - 1) as nat);
        }
    }

    /// A search that ends finds its target if the target can be reached: where
    /// a step produces the target or nothing, the target has a recorded way
    /// after the step, with more than one vertex unless it is the start vertex.
    pub proof fn lemma_search_finds(self, target: V, steps: nat)
        requires
            self.valid(),
            crate::vertex_traverser::ends(self.run(steps).upcoming(), target),
            crate::graph::reachable(&self.graph, self.start, target),
        ensures
            self.run(steps + 1).pred.contains_key(target),
            self.run(steps + 1).trail(target).len() > 1 || target == self.start,
    {
        let before = self.run(steps);
        let after = self.run(steps + 1);
        self.lemma_run_valid(steps);
        self.lemma_run_valid(steps + 1);
        assert(after == before.step());
        if before.queue.len() == 0 {
            before.lemma_exhausted_is_complete(target);
        } else {
            assert(before.pred.contains_key(before.queue[0]));
            assert(before.upcoming() == Some(before.queue[0]));
            assert(target == before.queue[0]);
            let popped = BfsState { queue: before.queue.remove(0), ..before };
            popped.lemma_expand_keeps(
                target,
                before.graph.adjacent(target),
                before.graph.adjacent(target).len(),
            );
            assert(popped.pred.contains_key(target));
            assert(after == popped.expand(
                target,
                before.graph.adjacent(target),
                before.graph.adjacent(target).len(),
            ));
        }
        assert(after.pred.contains_key(target));
        after.lemma_trail_is_walk(target);
        after.lemma_trail(target);
    }

    /// In a region that is finite and that no edge leaves, a traverser runs out
    /// of vertices after finitely many steps: each step produces a vertex of
    /// the region that was not produced before.
    pub proof fn lemma_runs_out(self, region: Set<V>) -> (steps: nat)
        requires
            self.valid(),
            region.finite(),
            self.pred.dom().subset_of(region),
            crate::graph::closed_under_neighbors(&self.graph, region),
        ensures
            self.run(steps).queue.len() == 0,
        decreases region.difference(self.done()).len(),
    {
        if self.queue.len() == 0 {
            0
        } else {
            let from = self.queue[0];
            let next = self.step();
            let popped = BfsState { queue: self.queue.remove(0), ..self };
            self.lemma_step_valid();
            assert(self.pred.contains_key(self.queue[0]));
            assert(self.queue.contains(from));
            assert(!popped.queue.contains(from)) by {
                if popped.queue.contains(from) {
                    let i = choose|i: int| 0 <= i < popped.queue.len() && popped.queue[i] == from;
                    assert(self.queue[i + 1] == from);
                }
            }
            assert forall|v: V| self.produced(v) implies popped.produced(v) by {
                crate::lists::lemma_rest_contains(self.queue, v);
            }
            popped.lemma_expand_stays(from, self.graph.adjacent(from).len(), region);
            assert(popped.produced(from));
            assert(next.produced(from));
            let left = region.difference(self.done());
            let fewer = region.difference(next.done());
            assert(left.contains(from));
            assert(!fewer.contains(from));
            assert(fewer.subset_of(left.remove(from))) by {
                assert forall|v: V| fewer.contains(v) implies left.remove(from).contains(v) by {
                    if self.produced(v) {
                        assert(popped.produced(v));
                        assert(next.produced(v));
                    }
                }
            }
            vstd::set_lib::lemma_len_subset(fewer, left.remove(from));
            let rest = next.lemma_runs_out(region);
            self.lemma_run_after_step(rest);
            rest + 1
        }
    }

    /// Where a step produces the target or nothing, there is a first such step.
    pub proof fn lemma_search_ends(self, target: V, limit: nat) -> (steps: nat)
        requires
            crate::vertex_traverser::ends(self.run(limit).upcoming(), target),
        ensures
            steps <= limit,
            crate::vertex_traverser::ends(self.run(steps).upcoming(), target),
            forall|fewer: nat|
                fewer < steps ==> !crate::vertex_traverser::ends(
                    #[trigger] self.run(fewer).upcoming(),
                    target,
                ),
        decreases limit,
    {
        if exists|fewer: nat|
            fewer < limit && crate::vertex_traverser::ends(
                #[trigger] self.run(fewer).upcoming(),
                target,
            ) {
            let fewer = choose|fewer: nat|
                fewer < limit && crate::vertex_traverser::ends(
                    #[trigger] self.run(fewer).upcoming(),
                    target,
                );
            self.lemma_search_ends(target, fewer)
        } else {
            limit
        }
    }
}

/// A traverser that produces the vertices of a graph breadth first: layer by
/// layer of their distance from the start vertex.
#[derive(Clone)]
#[verifier::reject_recursive_types(V)]
pub struct BfsVertexTrav<'a, G, V> {
    graph: &'a G,
    start: V,
    queue: BfsContainer<V>,
    predecessor_map: HashMap<V, Option<V>>,
    level: Ghost<Map<V, nat>>,
}

impl<'a, G: Graph<V>, V: Vertex> BfsVertexTrav<'a, G, V> {
    /// Makes a traverser of `graph` that starts at `start`.
    pub fn new(graph: &'a G, start: V) -> (traverser: BfsVertexTrav<'a, G, V>)
        requires
            crate::vertex::vertex_laws::<V>(),
        ensures
            traverser.state() == BfsState::initial(*graph, start),
            Self::valid(traverser.state()),
    {
        let mut container = BfsContainer::new();
        container.push(copy_vertex(&start));
        let mut predecessor_map = HashMap::new();
        predecessor_map.insert(copy_vertex(&start), None);
        let ghost level = Map::<V, nat>::empty().insert(start, 0nat);
        let traverser = BfsVertexTrav {
            graph,
            start,
            queue: container,
            predecessor_map,
            level: Ghost(level),
        };
        proof {
            let state = traverser.state();
            let initial = BfsState::initial(*graph, start);
            assert(state.queue =~= initial.queue);
            assert(state.pred =~= initial.pred);
            assert(state.level =~= initial.level);
            BfsState::lemma_initial_valid(*graph, start);
        }
        traverser
    }
}

impl<'a, G: Graph<V>, V: Vertex> BfsVertexTrav<'a, G, V> {
    /// The path that `construct_path` returns is a shortest path: it is a walk
    /// from the start vertex to the target, and no walk that leads there has
    /// fewer edges.
    pub proof fn lemma_constructed_path_is_shortest(
        state: BfsState<G, V>,
        target: V,
        path: Seq<V>,
        walk: Seq<V>,
    )
        requires
            Self::valid(state),
            path == Self::trail(state, target),
            path.len() > 1 || target == Self::origin(state),
            crate::graph::connects(&state.graph, walk, Self::origin(state), target),
        ensures
            crate::graph::connects(&state.graph, path, Self::origin(state), target),
            path.len() <= walk.len(),
    {
        assert(Self::valid(state) == state.valid());
        assert(Self::trail(state, target) == state.trail(target));
        assert(Self::origin(state) == state.start);
        state.lemma_path_is_shortest(target, walk);
    }

    /// A search that starts before the target is reached and ends without a
    /// path has run out of vertices: the target cannot be reached.
    pub proof fn lemma_no_path_is_no_way(state: BfsState<G, V>, target: V, steps: nat)
        requires
            Self::valid(state),
            crate::vertex_traverser::ends(Self::upcoming(Self::run(state, steps)), target),
            Self::trail(Self::run(state, steps + 1), target).len() <= 1,
            target != Self::origin(state),
        ensures
            !crate::graph::reachable(&state.graph, Self::origin(state), target),
    {
        assert(Self::valid(state) == state.valid());
        assert(Self::origin(state) == state.start);
        assert(Self::run(state, steps) == state.run(steps));
        assert(Self::run(state, steps + 1) == state.run(steps + 1));
        assert(Self::upcoming(state.run(steps)) == state.run(steps).upcoming());
        assert(Self::trail(state.run(steps + 1), target) == state.run(steps + 1).trail(target));
        if crate::graph::reachable(&state.graph, state.start, target) {
            state.lemma_search_finds(target, steps);
        }
    }

    /// In a region that is finite and that no edge leaves, a search for any
    /// target comes to an end, so that `construct_path` can be called.
    pub proof fn lemma_search_halts(state: BfsState<G, V>, region: Set<V>, target: V)
        requires
            state.valid(),
            region.finite(),
            state.pred.dom().subset_of(region),
            crate::graph::closed_under_neighbors(&state.graph, region),
        ensures
            exists|steps: nat|
                {
                    &&& crate::vertex_traverser::ends(
                        Self::upcoming(#[trigger] Self::run(state, steps)),
                        target,
                    )
                    &&& forall|fewer: nat|
                        fewer <= steps ==> {
                            &&& Self::ready(#[trigger] Self::run(state, fewer))
                            &&& fewer < steps ==> !crate::vertex_traverser::ends(
                                Self::upcoming(Self::run(state, fewer)),
                                target,
                            )
                        }
                },
    {
        let limit = state.lemma_runs_out(region);
        let steps = state.lemma_search_ends(target, limit);
        assert(Self::upcoming(Self::run(state, steps)) == state.run(steps).upcoming());
        assert forall|fewer: nat| fewer <= steps implies {
            &&& Self::ready(#[trigger] Self::run(state, fewer))
            &&& fewer < steps ==> !crate::vertex_traverser::ends(
                Self::upcoming(Self::run(state, fewer)),
                target,
            )
        } by {
            assert(Self::run(state, fewer) == state.run(fewer));
            assert(Self::upcoming(state.run(fewer)) == state.run(fewer).upcoming());
            assert(Self::ready(state.run(fewer)));
        }
    }
}

impl<'a, G: Graph<V>, V: Vertex> VertexTraverser<V> for BfsVertexTrav<'a, G, V> {
    type State = BfsState<G, V>;

    closed spec fn state(&self) -> BfsState<G, V> {
        BfsState {
            graph: *self.graph,
            start: self.start,
            queue: self.queue.items(),
            pred: self.predecessor_map@,
            level: self.level@,
        }
    }

    open spec fn valid(state: BfsState<G, V>) -> bool {
        state.valid()
    }

    open spec fn ready(state: BfsState<G, V>) -> bool {
        true
    }

    open spec fn origin(state: BfsState<G, V>) -> V {
        state.start
    }

    open spec fn upcoming(state: BfsState<G, V>) -> Option<V> {
        state.upcoming()
    }

    open spec fn exhausted(state: BfsState<G, V>) -> bool {
        state.queue.len() == 0
    }

    open spec fn step(state: BfsState<G, V>) -> BfsState<G, V> {
        state.step()
    }

    open spec fn run(state: BfsState<G, V>, steps: nat) -> BfsState<G, V> {
        state.run(steps)
    }

    open spec fn parent(state: BfsState<G, V>, vertex: V) -> Option<V> {
        state.parent(vertex)
    }

    open spec fn trail(state: BfsState<G, V>, vertex: V) -> Seq<V> {
        state.trail(vertex)
    }

    proof fn lemma_vertices(state: BfsState<G, V>) {
    }

    proof fn lemma_run(state: BfsState<G, V>, steps: nat) {
        assert((steps + 1 - 1) as nat == steps);
        assert(state.run(steps + 1) == state.run(steps).step());
        assert(Self::run(state, 0) == state.run(0));
        assert(Self::run(state, steps + 1) == state.run(steps + 1));
        assert(Self::run(state, steps) == state.run(steps));
        assert(Self::step(state.run(steps)) == state.run(steps).step());
    }

    proof fn lemma_step(state: BfsState<G, V>) {
        state.lemma_step_valid();
        assert(Self::step(state) == state.step());
        assert(Self::valid(state.step()) == state.step().valid());
        assert(Self::origin(state.step()) == state.step().start);
        assert(Self::origin(state) == state.start);
        assert(Self::exhausted(state) == (state.queue.len() == 0));
        assert(Self::exhausted(state.step()) == (state.step().queue.len() == 0));
        assert(Self::upcoming(state) == state.upcoming());
    }

    proof fn lemma_exhausted_ready(state: BfsState<G, V>) {
    }

    proof fn lemma_trail(state: BfsState<G, V>, vertex: V) {
        state.lemma_trail(vertex);
    }

    fn first(&self) -> (start: V) {
        copy_vertex(&self.start)
    }

    fn next(&mut self) -> (vertex: Option<V>) {
        broadcast use vstd::std_specs::hash::group_hash_axioms;

        let ghost before = self.state();
        proof {
            before.lemma_step_valid();
            Self::lemma_step(before);
        }
        match self.queue.pop() {
            None => None,
            Some(vertex) => {
                let neighbors = self.graph.neighbors(&vertex);
                let ghost popped = self.state();
                let mut i: usize = 0;
                while i < neighbors.len()
                    invariant
                        crate::vertex::vertex_laws::<V>(),
                        i <= neighbors.len(),
                        self.state() == popped.expand(vertex, neighbors@, i as nat),
                    decreases neighbors.len() - i,
                {
                    let ghost here = self.state();
                    let neighbor = &neighbors[i];
                    if !self.predecessor_map.contains_key(neighbor) {
                        self.queue.push(copy_vertex(neighbor));
                        self.predecessor_map.insert(copy_vertex(neighbor), Some(copy_vertex(&vertex)));
                        self.level = Ghost(self.level@.insert(*neighbor, self.level@[vertex] + 1));
                    }
                    i += 1;
                    proof {
                        let expected = here.visit(vertex, *neighbor);
                        assert(self.state().queue =~= expected.queue);
                        assert(self.state().pred =~= expected.pred);
                        assert(self.state().level =~= expected.level);
                    }
                }
                Some(vertex)
            },
        }
    }

    fn predecessor(&self, vertex: &V) -> (before: Option<V>) {
        broadcast use vstd::std_specs::hash::group_hash_axioms;

        match self.predecessor_map.get(vertex) {
            Some(before) => copy_optional_vertex(before),
            None => None,
        }
    }
}

} // verus!
