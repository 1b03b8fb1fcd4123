//! Cheapest-first traversal: Dijkstra's algorithm, and A* with an estimator.

use crate::edge::copy_weight;
use crate::edge::lighter;
use crate::edge::sum;
use crate::edge::zero;
use crate::edge::WeightedEdge;
use crate::graph::EdgedGraph;
use crate::graph::Graph;
use crate::vertex::copy_optional_vertex;
use crate::vertex::copy_vertex;
use crate::vertex::Vertex;
use crate::vertex_container::AstarContainer;
use crate::vertex_traverser::VertexTraverser;
use std::collections::HashMap;
use std::marker::PhantomData;
use vstd::prelude::*;

verus! {

/// The least of the weights; zero where there are none.
pub open spec fn minimum(weights: Seq<nat>) -> nat
    decreases weights.len(),
{
    if weights.len() == 0 {
        0
    } else if weights.len() == 1 {
        weights[0]
    } else if weights.last() < minimum(weights.drop_last()) {
        weights.last()
    } else {
        minimum(weights.drop_last())
    }
}

/// The place of the oldest of the least scores.
pub open spec fn first_least(scores: Seq<nat>) -> int
    decreases scores.len(),
{
    if scores.len() <= 1 {
        0
    } else {
        let held = first_least(scores.drop_last());
        if scores.last() < scores[held] {
            scores.len() - 1
        } else {
            held
        }
    }
}

/// The oldest of the least scores is a least score, and less than the older ones.
pub proof fn lemma_first_least(scores: Seq<nat>)
    requires
        scores.len() > 0,
    ensures
        0 <= first_least(scores) < scores.len(),
        forall|i: int| 0 <= i < scores.len() ==> scores[first_least(scores)] <= #[trigger] scores[i],
        forall|i: int|
            0 <= i < first_least(scores) ==> scores[first_least(scores)] < #[trigger] scores[i],
    decreases scores.len(),
{
    if scores.len() > 1 {
        let front = scores.drop_last();
        lemma_first_least(front);
        assert forall|i: int| 0 <= i < scores.len() implies scores[first_least(scores)]
            <= #[trigger] scores[i] by {
            if i < scores.len() - 1 {
                assert(front[i] == scores[i]);
            }
        }
        assert forall|i: int| 0 <= i < first_least(scores) implies scores[first_least(scores)]
            < #[trigger] scores[i] by {
            assert(front[i] == scores[i]);
        }
    }
}

/// The least of the weights is one of them, and none is less.
pub proof fn lemma_minimum(weights: Seq<nat>)
    requires
        weights.len() > 0,
    ensures
        weights.contains(minimum(weights)),
        forall|i: int| 0 <= i < weights.len() ==> minimum(weights) <= #[trigger] weights[i],
    decreases weights.len(),
{
    if weights.len() > 1 {
        let front = weights.drop_last();
        lemma_minimum(front);
        let i = choose|i: int| 0 <= i < front.len() && front[i] == minimum(front);
        assert(weights[i] == front[i]);
        assert(weights[weights.len() - 1] == weights.last());
        assert forall|i: int| 0 <= i < weights.len() implies minimum(weights)
            <= #[trigger] weights[i] by {
            if i < weights.len() - 1 {
                assert(front[i] == weights[i]);
            }
        }
    } else {
        assert(weights[0] == minimum(weights));
    }
}

/// An entry of the frontier: a vertex, the cost of the way on which it was
/// reached, and the score by which it is ranked.
pub type Ranked<V> = (V, nat, nat);

/// What a cheapest-first traverser holds. Costs are taken by their weights.
#[verifier::reject_recursive_types(V)]
pub struct AstarState<G, V, E> {
    /// The graph that is walked.
    pub graph: G,
    /// The type of the graph's edges.
    pub edges: PhantomData<E>,
    /// The start vertex.
    pub start: V,
    /// The estimate that is added to the cost of a vertex to rank it; zero
    /// everywhere for Dijkstra's algorithm.
    pub heuristic: spec_fn(V) -> nat,
    /// The frontier, oldest entry first.
    pub queue: Seq<Ranked<V>>,
    /// For each vertex that has been reached, the vertex from which it was
    /// reached most cheaply so far; `None` for the start vertex.
    pub pred: Map<V, Option<V>>,
    /// For each vertex that has been reached, the least cost at which it has
    /// been reached so far.
    pub best: Map<V, nat>,
    /// For each vertex that has been reached, the time at which its least cost
    /// was last lowered.
    pub stamp: Map<V, nat>,
    /// The time: the number of times that a least cost has been set.
    pub clock: nat,
    /// The vertices that have been produced.
    pub settled: Set<V>,
    /// Whether the estimator, if there is one, can be asked about every vertex
    /// and answers with the estimate.
    pub answers: bool,
}

impl<V: Vertex, E: WeightedEdge, G: EdgedGraph<V, E>> AstarState<G, V, E> {
    /// The state of a traverser that has made no step.
    pub open spec fn initial(graph: G, start: V, heuristic: spec_fn(V) -> nat) -> Self {
        AstarState {
            graph,
            edges: PhantomData,
            start,
            heuristic,
            queue: seq![(start, 0nat, 0nat)],
            pred: map![start => None::<V>],
            best: map![start => 0nat],
            stamp: map![start => 0nat],
            clock: 1,
            settled: Set::empty(),
            answers: true,
        }
    }

    /// The weights of the edges that lead from `from` to `to`.
    pub open spec fn weights(self, from: V, to: V) -> Seq<nat> {
        self.graph.parallel(from, to).map_values(|edge: E| edge.weight())
    }

    /// The weight of the cheapest edge that leads from `from` to `to`; `None`
    /// where no edge does.
    pub open spec fn link(self, from: V, to: V) -> Option<nat> {
        if self.weights(from, to).len() == 0 {
            None
        } else {
            Some(minimum(self.weights(from, to)))
        }
    }

    /// The scores of the entries of the frontier.
    pub open spec fn scores(self) -> Seq<nat> {
        self.queue.map_values(|entry: Ranked<V>| entry.2)
    }

    /// The place of the entry that comes next: the oldest of the least score.
    pub open spec fn head(self) -> int {
        first_least(self.scores())
    }

    /// Whether reaching `neighbor` at `reached` is cheaper than every way to it
    /// so far.
    pub open spec fn improves(self, neighbor: V, reached: nat) -> bool {
        !self.best.contains_key(neighbor) || reached < self.best[neighbor]
    }

    /// The state after `neighbor` has been reached at the cost `reached` from
    /// `from`, more cheaply than before.
    pub open spec fn lowered(self, from: V, neighbor: V, reached: nat) -> Self {
        AstarState {
            queue: self.queue.push((neighbor, reached, reached + (self.heuristic)(neighbor))),
            pred: self.pred.insert(neighbor, Some(from)),
            best: self.best.insert(neighbor, reached),
            stamp: self.stamp.insert(neighbor, self.clock),
            clock: self.clock + 1,
            ..self
        }
    }

    /// The state after `neighbor` has been looked at from `from`, which was
    /// reached at `cost`: where the cheapest edge to the neighbour makes a
    /// cheaper way to it than every way so far, the way is recorded and the
    /// neighbour joins the frontier.
    pub open spec fn relax(self, from: V, cost: nat, neighbor: V) -> Self {
        match self.link(from, neighbor) {
            None => self,
            Some(weight) => if self.improves(neighbor, cost + weight) {
                self.lowered(from, neighbor, cost + weight)
            } else {
                self
            },
        }
    }

    /// Whether `neighbor` can be looked at from `from` without adding up costs
    /// beyond what the type of the edges can hold.
    pub open spec fn relaxable(self, from: V, cost: nat, neighbor: V) -> bool {
        match self.link(from, neighbor) {
            None => true,
            Some(weight) => {
                &&& E::representable(cost + weight)
                &&& self.improves(neighbor, cost + weight) ==> E::representable(
                    cost + weight + (self.heuristic)(neighbor),
                )
            },
        }
    }

    /// The state after the first `count` of the neighbours of `from` have been
    /// looked at.
    pub open spec fn expand(self, from: V, cost: nat, neighbors: Seq<V>, count: nat) -> Self
        decreases count,
    {
        if count == 0 {
            self
        } else {
            self.expand(from, cost, neighbors, (count - 1) as nat).relax(
                from,
                cost,
                neighbors[count - 1],
            )
        }
    }

    /// The state after the entry that comes next has left the frontier.
    pub open spec fn popped(self) -> Self {
        AstarState {
            queue: self.queue.remove(self.head()),
            settled: self.settled.insert(self.queue[self.head()].0),
            ..self
        }
    }

    /// The vertex that the next step produces.
    pub open spec fn upcoming(self) -> Option<V> {
        if self.queue.len() == 0 {
            None
        } else {
            Some(self.queue[self.head()].0)
        }
    }

    /// The state after one step: the entry that comes next has left the
    /// frontier, and the neighbours of its vertex have been looked at in turn.
    pub open spec fn step(self) -> Self {
        if self.queue.len() == 0 {
            self
        } else {
            let (from, cost, _) = self.queue[self.head()];
            let neighbors = self.graph.adjacent(from);
            self.popped().expand(from, cost, neighbors, neighbors.len())
        }
    }

    /// Whether a step can be made without adding up costs beyond what the type
    /// of the edges can hold.
    pub open spec fn ready(self) -> bool {
        self.queue.len() > 0 ==> {
            let (from, cost, _) = self.queue[self.head()];
            let neighbors = self.graph.adjacent(from);
            forall|count: nat|
                count < neighbors.len() ==> (#[trigger] self.popped().expand(
                    from,
                    cost,
                    neighbors,
                    count,
                )).relaxable(from, cost, neighbors[count as int])
        }
    }

    /// The state after a number of steps.
    pub open spec fn run(self, steps: nat) -> Self
        decreases steps,
    {
        if steps == 0 {
            self
        } else {
            self.run((steps - 1) as nat).step()
        }
    }

    /// Every state that a run leads through is valid, over the same graph and
    /// with the same start vertex.
    pub proof fn lemma_run_valid(self, steps: nat)
        requires
            self.valid(),
        ensures
            self.run(steps).valid(),
            self.run(steps).graph == self.graph,
            self.run(steps).start == self.start,
            self.run(steps).heuristic == self.heuristic,
        decreases steps,
    {
        if steps > 0 {
            self.lemma_run_valid((steps - 1) as nat);
            self.run((steps - 1) as nat).lemma_step_valid();
        }
    }

    /// The recorded predecessor of a vertex.
    pub open spec fn parent(self, vertex: V) -> Option<V> {
        if self.pred.contains_key(vertex) {
            self.pred[vertex]
        } else {
            None
        }
    }

    /// The ranks that order the recorded predecessors: the least cost, and the
    /// time at which it was set.
    pub open spec fn ranks(self) -> Map<V, (nat, nat)> {
        Map::new(|v: V| self.best.contains_key(v), |v: V| (self.best[v], self.stamp[v]))
    }

    /// The recorded way to a vertex.
    pub open spec fn trail(self, vertex: V) -> Seq<V> {
        crate::vertex_traverser::chain(self.pred, self.ranks(), vertex)
    }

    /// The invariant of the states that a traverser goes through: the recorded
    /// predecessors lead back to the start vertex along edges of the graph, the
    /// least cost of a vertex is at least that of its predecessor and the
    /// weight of the cheapest edge between them, and the frontier holds
    /// vertices that have been reached, at costs no less than their least.
    pub open spec fn valid(self) -> bool {
        &&& crate::vertex::vertex_laws::<V>()
        &&& self.answers
        &&& self.pred.dom() == self.best.dom()
        &&& self.pred.dom() == self.stamp.dom()
        &&& self.pred.contains_key(self.start)
        &&& self.pred[self.start].is_none()
        &&& self.best[self.start] == 0
        &&& forall|v: V| #[trigger]
            self.pred.contains_key(v) ==> {
                &&& self.stamp[v] < self.clock
                &&& match self.pred[v] {
                    Some(p) => {
                        &&& self.pred.contains_key(p)
                        &&& self.graph.adjacent(p).contains(v)
                        &&& self.link(p, v).is_some()
                        &&& self.best[p] + self.link(p, v).unwrap() <= self.best[v]
                        &&& self.best[p] == self.best[v] ==> self.stamp[p] < self.stamp[v]
                    },
                    None => v == self.start,
                }
            }
        &&& forall|i: int|
            0 <= i < self.queue.len() ==> {
                &&& self.pred.contains_key((#[trigger] self.queue[i]).0)
                &&& self.best[self.queue[i].0] <= self.queue[i].1
            }
        &&& forall|v: V| #[trigger] self.settled.contains(v) ==> self.pred.contains_key(v)
    }

    /// The invariant while the neighbours of `from`, reached at `cost`, are
    /// looked at.
    pub open spec fn growing(self, from: V, cost: nat) -> bool {
        &&& self.valid()
        &&& self.pred.contains_key(from)
        &&& self.best[from] <= cost
    }

    /// The initial state is valid.
    pub proof fn lemma_initial_valid(graph: G, start: V, heuristic: spec_fn(V) -> nat)
        requires
            crate::vertex::vertex_laws::<V>(),
        ensures
            Self::initial(graph, start, heuristic).valid(),
    {
        let state = Self::initial(graph, start, heuristic);
        assert(state.pred.dom() =~= state.best.dom());
        assert(state.pred.dom() =~= state.stamp.dom());
    }

    /// Looking at a neighbour keeps the invariant.
    pub proof fn lemma_relax(self, from: V, cost: nat, neighbor: V)
        requires
            self.growing(from, cost),
            self.graph.adjacent(from).contains(neighbor),
        ensures
            self.relax(from, cost, neighbor).growing(from, cost),
            self.relax(from, cost, neighbor).graph == self.graph,
            self.relax(from, cost, neighbor).start == self.start,
            self.relax(from, cost, neighbor).heuristic == self.heuristic,
            self.relax(from, cost, neighbor).settled == self.settled,
    {
        let next = self.relax(from, cost, neighbor);
        if self.link(from, neighbor).is_some() && self.improves(
            neighbor,
            cost + self.link(from, neighbor).unwrap(),
        ) {
            let weight = self.link(from, neighbor).unwrap();
            let reached = cost + weight;
            assert(next == self.lowered(from, neighbor, reached));
            assert(neighbor != from);
            assert(neighbor != self.start);
            assert(next.pred.dom() =~= next.best.dom());
            assert(next.pred.dom() =~= next.stamp.dom());
            assert forall|v: V| #[trigger] next.pred.contains_key(v) implies {
                &&& next.stamp[v] < next.clock
                &&& match next.pred[v] {
                    Some(p) => {
                        &&& next.pred.contains_key(p)
                        &&& next.graph.adjacent(p).contains(v)
                        &&& next.link(p, v).is_some()
                        &&& next.best[p] + next.link(p, v).unwrap() <= next.best[v]
                        &&& next.best[p] == next.best[v] ==> next.stamp[p] < next.stamp[v]
                    },
                    None => v == next.start,
                }
            } by {
                if v == neighbor {
                    assert(self.pred.contains_key(from));
                } else {
                    assert(self.pred.contains_key(v));
                    if self.pred[v].is_some() {
                        let p = self.pred[v].unwrap();
                        assert(next.link(p, v) == self.link(p, v));
                    }
                }
            }
            assert forall|i: int| 0 <= i < next.queue.len() implies {
                &&& next.pred.contains_key((#[trigger] next.queue[i]).0)
                &&& next.best[next.queue[i].0] <= next.queue[i].1
            } by {
                if i < self.queue.len() {
                    assert(next.queue[i] == self.queue[i]);
                }
            }
        }
    }

    /// Looking at the neighbours in turn keeps the invariant.
    pub proof fn lemma_expand(self, from: V, cost: nat, count: nat)
        requires
            self.growing(from, cost),
            count <= self.graph.adjacent(from).len(),
        ensures
            self.expand(from, cost, self.graph.adjacent(from), count).growing(from, cost),
            self.expand(from, cost, self.graph.adjacent(from), count).graph == self.graph,
            self.expand(from, cost, self.graph.adjacent(from), count).start == self.start,
            self.expand(from, cost, self.graph.adjacent(from), count).heuristic == self.heuristic,
            self.expand(from, cost, self.graph.adjacent(from), count).settled == self.settled,
        decreases count,
    {
        if count > 0 {
            let neighbors = self.graph.adjacent(from);
            self.lemma_expand(from, cost, (count - 1) as nat);
            assert(neighbors.contains(neighbors[count - 1]));
            self.expand(from, cost, neighbors, (count - 1) as nat).lemma_relax(
                from,
                cost,
                neighbors[count - 1],
            );
        }
    }

    /// Taking the next entry out of the frontier keeps the invariant.
    pub proof fn lemma_popped(self)
        requires
            self.valid(),
            self.queue.len() > 0,
        ensures
            0 <= self.head() < self.queue.len(),
            self.popped().growing(self.queue[self.head()].0, self.queue[self.head()].1),
    {
        lemma_first_least(self.scores());
        let head = self.head();
        let next = self.popped();
        assert(self.pred.contains_key(self.queue[head].0));
        assert forall|i: int| 0 <= i < next.queue.len() implies {
            &&& next.pred.contains_key((#[trigger] next.queue[i]).0)
            &&& next.best[next.queue[i].0] <= next.queue[i].1
        } by {
            if i < head {
                assert(next.queue[i] == self.queue[i]);
            } else {
                assert(next.queue[i] == self.queue[i + 1]);
            }
        }
    }

    /// A step keeps the invariant.
    pub proof fn lemma_step_valid(self)
        requires
            self.valid(),
        ensures
            self.step().valid(),
            self.step().graph == self.graph,
            self.step().start == self.start,
            self.step().heuristic == self.heuristic,
    {
        if self.queue.len() > 0 {
            self.lemma_popped();
            let (from, cost, _) = self.queue[self.head()];
            self.popped().lemma_expand(from, cost, self.graph.adjacent(from).len());
        }
    }
}

impl<V: Vertex, E: WeightedEdge, G: EdgedGraph<V, E>> AstarState<G, V, E> {
    /// The least cost and the time at which it was set order the recorded
    /// predecessors.
    pub proof fn lemma_descends(self)
        requires
            self.valid(),
        ensures
            crate::vertex_traverser::descends(self.pred, self.ranks()),
    {
        assert forall|v: V|
            #![trigger self.pred[v]]
            self.pred.contains_key(v) && self.pred[v].is_some() implies {
            let p = self.pred[v].unwrap();
            self.ranks()[p].0 < self.ranks()[v].0 || (self.ranks()[p].0 == self.ranks()[v].0
                && self.ranks()[p].1 < self.ranks()[v].1)
        } by {
            let p = self.pred[v].unwrap();
            assert(self.pred.contains_key(p));
            assert(self.best.contains_key(p));
            assert(self.best.contains_key(v));
        }
    }

    /// The recorded way to a vertex is the recorded way to its predecessor and
    /// then the vertex.
    pub proof fn lemma_trail(self, vertex: V)
        requires
            self.valid(),
        ensures
            self.trail(vertex) == match self.parent(vertex) {
                Some(before) => self.trail(before).push(vertex),
                None => seq![vertex],
            },
    {
        self.lemma_descends();
    }
}

/// The weights of edges.
pub open spec fn weighed<E: WeightedEdge>(edges: Seq<E>) -> Seq<nat> {
    edges.map_values(|edge: E| edge.weight())
}

/// The entry that a priority queue of weighted edges hands out next is the
/// oldest of those that weigh least.
pub proof fn lemma_cheapest_weighs_least<E: WeightedEdge>(costs: Seq<E>)
    ensures
        crate::vertex_container::cheapest(costs) == first_least(weighed(costs)),
    decreases costs.len(),
{
    if costs.len() > 1 {
        let front = costs.drop_last();
        lemma_cheapest_weighs_least(front);
        assert(weighed(costs).drop_last() =~= weighed(front));
        let held = crate::vertex_container::cheapest(front);
        crate::vertex_container::lemma_cheapest_in_range(front);
        crate::edge::lemma_precedes(costs.last(), costs[held]);
        assert(front[held] == costs[held]);
    }
}

/// Picks the cheapest of the edges, of several the first; `None` where there is
/// no edge.
pub fn cheapest_edge<E: WeightedEdge>(list: Vec<E>) -> (least: Option<E>)
    ensures
        match least {
            Some(edge) => list.len() > 0 && edge.weight() == minimum(weighed(list@)),
            None => list.len() == 0,
        },
{
    if list.len() == 0 {
        return None;
    }
    let mut list = list;
    let ghost all = weighed(list@);
    let mut held: usize = 0;
    let mut i: usize = 1;
    while i < list.len()
        invariant
            all == weighed(list@),
            1 <= i <= list.len(),
            held < i,
            all[held as int] == minimum(all.take(i as int)),
        decreases list.len() - i,
    {
        proof {
            assert(all.take(i + 1).drop_last() =~= all.take(i as int));
            assert(all.take(i + 1).last() == all[i as int]);
        }
        if lighter(&list[i], &list[held]) {
            held = i;
        }
        i += 1;
    }
    proof {
        assert(all.take(i as int) =~= all);
    }
    Some(list.remove(held))
}

/// Something that estimates, for a vertex, the cost that is still to pay from
/// there. Every function from vertices to costs is an estimator.
pub trait Estimator<V, E> {
    /// Whether the estimator can be asked about the vertex.
    spec fn asked(&self, vertex: V) -> bool;

    /// Whether the estimator may answer with `estimated` when asked about the
    /// vertex.
    spec fn answer(&self, vertex: V, estimated: E) -> bool;

    /// Estimates the cost that is still to pay from `vertex`.
    fn estimate(&self, vertex: &V) -> (estimated: E)
        requires
            self.asked(*vertex),
        ensures
            self.answer(*vertex, estimated),
    ;
}

impl<V, E, F: Fn(&V) -> E> Estimator<V, E> for F {
    open spec fn asked(&self, vertex: V) -> bool {
        call_requires(*self, (&vertex,))
    }

    open spec fn answer(&self, vertex: V, estimated: E) -> bool {
        call_ensures(*self, (&vertex,), estimated)
    }

    fn estimate(&self, vertex: &V) -> (estimated: E) {
        self(vertex)
    }
}

/// The estimator of Dijkstra's algorithm, which is never asked.
pub struct NoEstimate;

impl<V, E: WeightedEdge> Estimator<V, E> for NoEstimate {
    open spec fn asked(&self, vertex: V) -> bool {
        true
    }

    open spec fn answer(&self, vertex: V, estimated: E) -> bool {
        estimated.weight() == 0
    }

    fn estimate(&self, vertex: &V) -> (estimated: E) {
        zero()
    }
}

/// The estimate of an estimator for each vertex, as a weight; zero where there
/// is no estimator.
pub open spec fn estimate<V, E: WeightedEdge, F: Estimator<V, E>>(estimator: Option<F>) -> spec_fn(
    V,
) -> nat {
    |vertex: V|
        match estimator {
            Some(f) => (choose|edge: E| f.answer(vertex, edge)).weight(),
            None => 0nat,
        }
}

/// Whether an estimator can be asked about every vertex and gives estimates of
/// one weight for one vertex.
pub open spec fn estimates<V, E: WeightedEdge, F: Estimator<V, E>>(estimator: Option<F>) -> bool {
    match estimator {
        Some(f) => {
            &&& forall|vertex: V| #[trigger] f.asked(vertex)
            &&& forall|vertex: V, a: E, b: E|
                #[trigger] f.answer(vertex, a) && #[trigger] f.answer(vertex, b) ==> a.weight()
                    == b.weight()
        },
        None => true,
    }
}

/// Whether an estimator has an answer for the vertex.
pub open spec fn has_answer<V, E: WeightedEdge, F: Estimator<V, E>>(estimator: F, vertex: V) -> bool {
    exists|edge: E| estimator.answer(vertex, edge)
}

/// An estimator that has an answer for every vertex, and only answers that
/// weigh nothing, estimates zero everywhere: with it, A* goes by cost alone.
pub proof fn lemma_zero_estimator<V, E: WeightedEdge, F: Estimator<V, E>>(estimator: F)
    requires
        forall|vertex: V| #[trigger] has_answer::<V, E, F>(estimator, vertex),
        forall|vertex: V, edge: E| #[trigger] estimator.answer(vertex, edge) ==> edge.weight() == 0,
    ensures
        forall|vertex: V| #[trigger] estimate(Some(estimator))(vertex) == 0,
        estimate(Some(estimator)) == (|vertex: V| 0nat),
{
    assert forall|vertex: V| #[trigger] estimate(Some(estimator))(vertex) == 0 by {
        assert(has_answer::<V, E, F>(estimator, vertex));
        let edge = choose|edge: E| estimator.answer(vertex, edge);
        assert(estimator.answer(vertex, edge));
    }
    assert(estimate(Some(estimator)) =~= (|vertex: V| 0nat));
}

/// A traverser that produces the vertices of a graph cheapest first: in the
/// order of the least cost at which they can be reached from the start vertex,
/// or, with an estimator, in the order of that cost and the estimate.
#[derive(Clone)]
#[verifier::reject_recursive_types(V)]
pub struct AstarVertexTrav<'a, G, V, E, F> {
    graph: &'a G,
    start: V,
    queue: AstarContainer<(V, E), E>,
    predecessor_map: HashMap<V, Option<V>>,
    min_edge_map: HashMap<V, E>,
    estimator: Option<F>,
    stamp: Ghost<Map<V, nat>>,
    clock: Ghost<nat>,
    settled: Ghost<Set<V>>,
}

/// The entries of a priority queue of vertices with their costs, taken by
/// their weights.
pub open spec fn ranked<V, E: WeightedEdge>(entries: Seq<((V, E), E)>) -> Seq<Ranked<V>> {
    entries.map_values(|entry: ((V, E), E)| (entry.0.0, entry.0.1.weight(), entry.1.weight()))
}

impl<'a, G, V, E, F> AstarVertexTrav<'a, G, V, E, F> where
    G: EdgedGraph<V, E>,
    V: Vertex,
    E: WeightedEdge,
    F: Estimator<V, E>,
 {
    /// Makes a traverser of `graph` that starts at `start` and goes by cost
    /// alone.
    pub fn new(graph: &'a G, start: V) -> (traverser: AstarVertexTrav<'a, G, V, E, F>)
        requires
            crate::vertex::vertex_laws::<V>(),
        ensures
            traverser.state() == AstarState::<G, V, E>::initial(*graph, start, |vertex: V| 0nat),
            Self::valid(traverser.state()),
    {
        let mut container = AstarContainer::new();
        container.push((copy_vertex(&start), zero()), zero());
        let mut predecessor_map = HashMap::new();
        predecessor_map.insert(copy_vertex(&start), None);
        let mut min_edge_map = HashMap::new();
        min_edge_map.insert(copy_vertex(&start), zero());
        let ghost stamp = Map::<V, nat>::empty().insert(start, 0nat);
        let traverser = AstarVertexTrav {
            graph,
            start,
            queue: container,
            predecessor_map,
            min_edge_map,
            estimator: None,
            stamp: Ghost(stamp),
            clock: Ghost(1nat),
            settled: Ghost(Set::empty()),
        };
        proof {
            let state = traverser.state();
            let initial = AstarState::<G, V, E>::initial(*graph, start, |vertex: V| 0nat);
            assert(state.queue =~= initial.queue);
            assert(state.pred =~= initial.pred);
            assert(state.best =~= initial.best);
            assert(state.stamp =~= initial.stamp);
            assert(state.heuristic =~= initial.heuristic);
            assert(estimates::<V, E, F>(None));
            AstarState::<G, V, E>::lemma_initial_valid(*graph, start, |vertex: V| 0nat);
        }
        traverser
    }

    /// Makes a traverser of `graph` that starts at `start` and goes by cost and
    /// the estimate of `estimator`.
    pub fn with_estimator(graph: &'a G, start: V, estimator: F) -> (traverser: AstarVertexTrav<
        'a,
        G,
        V,
        E,
        F,
    >)
        requires
            crate::vertex::vertex_laws::<V>(),
            estimates(Some(estimator)),
        ensures
            traverser.state() == AstarState::<G, V, E>::initial(
                *graph,
                start,
                estimate(Some(estimator)),
            ),
            Self::valid(traverser.state()),
    {
        let mut container = AstarContainer::new();
        container.push((copy_vertex(&start), zero()), zero());
        let mut predecessor_map = HashMap::new();
        predecessor_map.insert(copy_vertex(&start), None);
        let mut min_edge_map = HashMap::new();
        min_edge_map.insert(copy_vertex(&start), zero());
        let ghost stamp = Map::<V, nat>::empty().insert(start, 0nat);
        let traverser = AstarVertexTrav {
            graph,
            start,
            queue: container,
            predecessor_map,
            min_edge_map,
            estimator: Some(estimator),
            stamp: Ghost(stamp),
            clock: Ghost(1nat),
            settled: Ghost(Set::empty()),
        };
        proof {
            let state = traverser.state();
            let initial = AstarState::<G, V, E>::initial(*graph, start, estimate(Some(estimator)));
            assert(state.queue =~= initial.queue);
            assert(state.pred =~= initial.pred);
            assert(state.best =~= initial.best);
            assert(state.stamp =~= initial.stamp);
            AstarState::<G, V, E>::lemma_initial_valid(*graph, start, estimate(Some(estimator)));
        }
        traverser
    }
}

impl<'a, G, V, E, F> AstarVertexTrav<'a, G, V, E, F> where
    G: EdgedGraph<V, E>,
    V: Vertex,
    E: WeightedEdge,
    F: Estimator<V, E>,
 {
    /// The path to a target that `construct_path` returns after the target has
    /// been produced is a cheapest path, where the traverser had made no step
    /// before and its estimate is consistent: it is a route from the start
    /// vertex to the target, and no route that leads there costs less.
    pub proof fn lemma_constructed_path_is_cheapest(
        state: AstarState<G, V, E>,
        steps: nat,
        target: V,
        path: Seq<V>,
        route: Seq<V>,
    )
        requires
            crate::vertex::vertex_laws::<V>(),
            state == AstarState::<G, V, E>::initial(state.graph, state.start, state.heuristic),
            state.consistent(),
            Self::upcoming(Self::run(state, steps)) == Some(target),
            path == Self::trail(Self::run(state, steps + 1), target),
            state.leads(route, target),
        ensures
            state.leads(path, target),
            state.cost(path) <= state.cost(route),
    {
        let before = state.run(steps);
        let after = state.run(steps + 1);
        assert(Self::run(state, steps) == before);
        assert(Self::run(state, steps + 1) == after);
        assert(Self::upcoming(before) == before.upcoming());
        assert(Self::trail(after, target) == after.trail(target));
        AstarState::<G, V, E>::lemma_run_optimal(state.graph, state.start, state.heuristic, steps);
        AstarState::<G, V, E>::lemma_run_optimal(
            state.graph,
            state.start,
            state.heuristic,
            steps + 1,
        );
        assert(after == before.step());
        before.lemma_step_settles(target);
        state.lemma_same_graph(after, route);
        after.lemma_path_is_cheapest(target, route);
        state.lemma_same_graph(after, path);
    }

    /// A search from the initial state comes to an end, so that
    /// `construct_path` can be called: where the estimate is consistent and no
    /// more than `estimate`, the vertices lie in a finite region that no edge
    /// leaves, every vertex that can be reached is no farther than `distance`,
    /// no edge weighs more than `weight`, and the type of the edges can hold
    /// `distance`, two times `weight` and `estimate`.
    pub proof fn lemma_search_halts(
        state: AstarState<G, V, E>,
        region: Set<V>,
        distance: nat,
        weight: nat,
        estimate: nat,
        target: V,
    )
        requires
            crate::vertex::vertex_laws::<V>(),
            state == AstarState::<G, V, E>::initial(state.graph, state.start, state.heuristic),
            state.consistent(),
            region.finite(),
            region.contains(state.start),
            crate::graph::closed_under_neighbors(&state.graph, region),
            state.near(distance),
            state.light(region, weight),
            forall|vertex: V| #[trigger] (state.heuristic)(vertex) <= estimate,
            AstarState::<G, V, E>::roomy(distance + 2 * weight + estimate),
        ensures
            exists|steps: nat|
                {
                    &&& crate::vertex_traverser::ends(
                        Self::upcoming(#[trigger] Self::run(state, steps)),
                        target,
                    )
                    &&& forall|fewer: nat|
                        fewer <= steps ==> {
                            &&& Self::ready(#[trigger] Self::run(state, fewer))
                            &&& fewer < steps ==> !crate::vertex_traverser::ends(
                                Self::upcoming(Self::run(state, fewer)),
                                target,
                            )
                        }
                },
    {
        AstarState::<G, V, E>::lemma_run_optimal(state.graph, state.start, state.heuristic, 0);
        assert(state.run(0) == state);
        let limit = state.lemma_runs_out(region);
        assert(state.run(limit).upcoming().is_none());
        let steps = state.lemma_search_ends(target, limit);
        assert(Self::upcoming(Self::run(state, steps)) == state.run(steps).upcoming());
        assert forall|fewer: nat| fewer <= steps implies {
            &&& Self::ready(#[trigger] Self::run(state, fewer))
            &&& fewer < steps ==> !crate::vertex_traverser::ends(
                Self::upcoming(Self::run(state, fewer)),
                target,
            )
        } by {
            assert(Self::run(state, fewer) == state.run(fewer));
            assert(Self::upcoming(state.run(fewer)) == state.run(fewer).upcoming());
            AstarState::<G, V, E>::lemma_run_ready(
                state.graph,
                state.start,
                state.heuristic,
                region,
                distance,
                weight,
                estimate,
                fewer,
            );
            assert(Self::ready(state.run(fewer)) == state.run(fewer).ready());
        }
    }
}

impl<'a, G, V, E, F> VertexTraverser<V> for AstarVertexTrav<'a, G, V, E, F> where
    G: EdgedGraph<V, E>,
    V: Vertex,
    E: WeightedEdge,
    F: Estimator<V, E>,
 {
    type State = AstarState<G, V, E>;

    closed spec fn state(&self) -> AstarState<G, V, E> {
        AstarState {
            graph: *self.graph,
            edges: PhantomData,
            start: self.start,
            heuristic: estimate(self.estimator),
            queue: ranked(self.queue@),
            pred: self.predecessor_map@,
            best: self.min_edge_map@.map_values(|edge: E| edge.weight()),
            stamp: self.stamp@,
            clock: self.clock@,
            settled: self.settled@,
            answers: estimates(self.estimator),
        }
    }

    open spec fn valid(state: AstarState<G, V, E>) -> bool {
        state.valid()
    }

    open spec fn ready(state: AstarState<G, V, E>) -> bool {
        state.ready()
    }

    open spec fn origin(state: AstarState<G, V, E>) -> V {
        state.start
    }

    open spec fn upcoming(state: AstarState<G, V, E>) -> Option<V> {
        state.upcoming()
    }

    open spec fn exhausted(state: AstarState<G, V, E>) -> bool {
        state.queue.len() == 0
    }

    open spec fn step(state: AstarState<G, V, E>) -> AstarState<G, V, E> {
        state.step()
    }

    open spec fn run(state: AstarState<G, V, E>, steps: nat) -> AstarState<G, V, E> {
        state.run(steps)
    }

    open spec fn parent(state: AstarState<G, V, E>, vertex: V) -> Option<V> {
        state.parent(vertex)
    }

    open spec fn trail(state: AstarState<G, V, E>, vertex: V) -> Seq<V> {
        state.trail(vertex)
    }

    proof fn lemma_vertices(state: AstarState<G, V, E>) {
    }

    proof fn lemma_run(state: AstarState<G, V, E>, steps: nat) {
        assert((steps + 1 - 1) as nat == steps);
        assert(state.run(steps + 1) == state.run(steps).step());
        assert(Self::run(state, 0) == state.run(0));
        assert(Self::run(state, steps + 1) == state.run(steps + 1));
        assert(Self::run(state, steps) == state.run(steps));
        assert(Self::step(state.run(steps)) == state.run(steps).step());
    }

    proof fn lemma_step(state: AstarState<G, V, E>) {
        state.lemma_step_valid();
        assert(Self::step(state) == state.step());
        assert(Self::valid(state.step()) == state.step().valid());
        assert(Self::origin(state.step()) == state.step().start);
        assert(Self::origin(state) == state.start);
        assert(Self::exhausted(state) == (state.queue.len() == 0));
        assert(Self::exhausted(state.step()) == (state.step().queue.len() == 0));
        assert(Self::upcoming(state) == state.upcoming());
    }

    proof fn lemma_exhausted_ready(state: AstarState<G, V, E>) {
        assert(Self::ready(state) == state.ready());
    }

    proof fn lemma_trail(state: AstarState<G, V, E>, vertex: V) {
        state.lemma_trail(vertex);
        assert(Self::trail(state, vertex) == state.trail(vertex));
        assert(Self::parent(state, vertex) == state.parent(vertex));
        assert(Self::parent(state, Self::origin(state)) == state.parent(state.start));
    }

    fn first(&self) -> (start: V) {
        copy_vertex(&self.start)
    }

    fn next(&mut self) -> (vertex: Option<V>) {
        broadcast use vstd::std_specs::hash::group_hash_axioms;

        let ghost begin = self.state();
        proof {
            begin.lemma_step_valid();
            Self::lemma_step(begin);
            crate::edge::lemma_comparable::<E>();
            lemma_cheapest_weighs_least(crate::vertex_container::costs(self.queue@));
            assert(weighed(crate::vertex_container::costs(self.queue@)) =~= begin.scores());
            if begin.queue.len() > 0 {
                begin.lemma_popped();
            }
        }
        match self.queue.pop() {
            None => None,
            Some(((vertex, edge), _)) => {
                self.settled = Ghost(self.settled@.insert(vertex));
                let neighbors = self.graph.neighbors(&vertex);
                let ghost popped = self.state();
                let ghost cost = edge.weight();
                proof {
                    assert(popped.queue =~= begin.popped().queue);
                    assert(popped == begin.popped());
                }
                let mut i: usize = 0;
                while i < neighbors.len()
                    invariant
                        crate::vertex::vertex_laws::<V>(),
                        estimates(self.estimator),
                        i <= neighbors.len(),
                        cost == edge.weight(),
                        neighbors@ == popped.graph.adjacent(vertex),
                        self.state() == popped.expand(vertex, cost, neighbors@, i as nat),
                        forall|count: nat|
                            count < neighbors.len() ==> (#[trigger] popped.expand(
                                vertex,
                                cost,
                                neighbors@,
                                count,
                            )).relaxable(vertex, cost, neighbors[count as int]),
                        popped.growing(vertex, cost),
                    decreases neighbors.len() - i,
                {
                    let ghost here = self.state();
                    let neighbor = &neighbors[i];
                    proof {
                        popped.lemma_expand(vertex, cost, i as nat);
                        assert(here.relaxable(vertex, cost, *neighbor));
                    }
                    let parallel = self.graph.edges(&vertex, neighbor);
                    proof {
                        assert(weighed(parallel@) =~= here.weights(vertex, *neighbor)) by {
                            assert forall|k: int| 0 <= k < parallel.len() implies parallel[k].weight()
                                == here.graph.parallel(vertex, *neighbor)[k].weight() by {
                                E::lemma_clone(here.graph.parallel(vertex, *neighbor)[k], parallel[k]);
                            }
                        }
                    }
                    if let Some(outgoing_edge) = cheapest_edge(parallel) {
                        let new_edge = sum(&edge, &outgoing_edge);
                        let edge_shorter = match self.min_edge_map.get(neighbor) {
                            Some(min_edge) => lighter(&new_edge, min_edge),
                            None => true,
                        };
                        if edge_shorter {
                            self.min_edge_map.insert(copy_vertex(neighbor), copy_weight(&new_edge));
                            let score = match &self.estimator {
                                Some(estimator) => {
                                    let estimated = estimator.estimate(neighbor);
                                    sum(&new_edge, &estimated)
                                },
                                None => copy_weight(&new_edge),
                            };
                            self.queue.push((copy_vertex(neighbor), new_edge), score);
                            self.predecessor_map.insert(
                                copy_vertex(neighbor),
                                Some(copy_vertex(&vertex)),
                            );
                            self.stamp = Ghost(self.stamp@.insert(*neighbor, self.clock@));
                            self.clock = Ghost(self.clock@ + 1);
                            proof {
                                let expected = here.lowered(
                                    vertex,
                                    *neighbor,
                                    cost + here.link(vertex, *neighbor).unwrap(),
                                );
                                assert(self.state().queue =~= expected.queue);
                                assert(self.state().pred =~= expected.pred);
                                assert(self.state().best =~= expected.best);
                                assert(self.state().stamp =~= expected.stamp);
                            }
                        }
                    }
                    i += 1;
                }
                Some(vertex)
            },
        }
    }

    fn predecessor(&self, vertex: &V) -> (before: Option<V>) {
        broadcast use vstd::std_specs::hash::group_hash_axioms;

        match self.predecessor_map.get(vertex) {
            Some(before) => copy_optional_vertex(before),
            None => None,
        }
    }
}

} // verus!
