//! Depth-first traversal, with preorder and postorder events.

use crate::graph::Graph;
use crate::graph_adapters::PostIter;
use crate::graph_adapters::PrePostIter;
use crate::vertex::copy_optional_vertex;
use crate::vertex::copy_vertex;
use crate::vertex::Vertex;
use crate::vertex_container::DfsContainer;
use crate::vertex_container::VertexContainer;
use crate::vertex_traverser::VertexTraverser;
use std::collections::hash_map::Entry;
use std::collections::HashMap;
use vstd::prelude::*;

verus! {

/// An event of a depth-first traversal that tells preorder from postorder.
#[derive(Clone, Debug, Eq, PartialEq)]
pub enum PrePostItem<V> {
    /// The vertex is entered: it is produced before the vertices below it.
    PreorderItem(V),
    /// The vertex is left: it is produced after the vertices below it.
    PostorderItem(V),
}

/// An event of a depth-first traversal.
pub enum DfsInnerIterEvent<V> {
    /// The vertex is entered.
    PreorderItem(V),
    /// The vertex is left.
    PostorderItem(V),
    /// An edge leads to a vertex that was entered before.
    CycleEdge(V, V),
}

/// What a depth-first traverser holds.
#[verifier::reject_recursive_types(V)]
pub struct DfsState<G, V> {
    /// The graph that is walked.
    pub graph: G,
    /// The start vertex.
    pub start: V,
    /// The frontier, the item that comes next last: vertices yet to be entered
    /// or left, each with the vertex it was found from.
    pub stack: Seq<(V, Option<V>)>,
    /// For each vertex that has been entered, the vertex it was entered from
    /// and whether it has been left.
    pub seen: Map<V, (Option<V>, bool)>,
    /// For each vertex that has been entered, the number of edges on the
    /// recorded way to it.
    pub depth: Map<V, nat>,
}

impl<V: Vertex, G: Graph<V>> DfsState<G, V> {
    /// The state of a traverser that has made no step.
    pub open spec fn initial(graph: G, start: V) -> Self {
        DfsState {
            graph,
            start,
            stack: seq![(start, None::<V>)],
            seen: Map::empty(),
            depth: Map::empty(),
        }
    }

    /// The state without the item on top of the stack.
    pub open spec fn popped(self) -> Self {
        DfsState { stack: self.stack.drop_last(), ..self }
    }

    /// The state after `vertex` has been marked as left.
    pub open spec fn left(self, vertex: V) -> Self {
        DfsState { seen: self.seen.insert(vertex, (self.seen[vertex].0, true)), ..self }
    }

    /// The items that the neighbours of `from` put on the stack.
    pub open spec fn found(self, from: V) -> Seq<(V, Option<V>)> {
        self.graph.adjacent(from).map_values(|neighbor: V| (neighbor, Some(from)))
    }

    /// The state after the vertex on top of the stack has been entered: it is
    /// recorded, stays on the stack, and its neighbours are put on top of it.
    pub open spec fn entered(self) -> Self {
        let (vertex, from) = self.stack.last();
        DfsState {
            stack: self.stack + self.found(vertex),
            seen: self.seen.insert(vertex, (from, false)),
            depth: self.depth.insert(
                vertex,
                match from {
                    Some(from) => self.depth[from] + 1,
                    None => 0,
                },
            ),
            ..self
        }
    }

    /// The state after the next event, and the event: items of vertices that
    /// have been left are dropped from the top of the stack; then the vertex on
    /// top is left, if it has been entered, and entered, if it has not.
    pub open spec fn inner(self) -> (Self, Option<DfsInnerIterEvent<V>>)
        decreases self.stack.len(),
    {
        if self.stack.len() == 0 {
            (self, None)
        } else {
            let vertex = self.stack.last().0;
            if !self.seen.contains_key(vertex) {
                (self.entered(), Some(DfsInnerIterEvent::PreorderItem(vertex)))
            } else if self.seen[vertex].1 {
                self.popped().inner()
            } else {
                (self.popped().left(vertex), Some(DfsInnerIterEvent::PostorderItem(vertex)))
            }
        }
    }

    /// The state after a number of events.
    pub open spec fn after_events(self, count: nat) -> Self
        decreases count,
    {
        if count == 0 {
            self
        } else {
            self.after_events((count - 1) as nat).inner().0
        }
    }

    /// Every state that the events lead through is valid.
    pub proof fn lemma_after_events_valid(self, count: nat)
        requires
            self.valid(),
        ensures
            self.after_events(count).valid(),
        decreases count,
    {
        if count > 0 {
            self.lemma_after_events_valid((count - 1) as nat);
            self.after_events((count - 1) as nat).lemma_inner_valid();
        }
    }

    /// The state after the items of vertices that have been entered are taken
    /// from the top of the stack, each vertex being left on the way.
    pub open spec fn unwound(self) -> Self
        decreases self.stack.len(),
    {
        if self.stack.len() == 0 {
            self
        } else {
            let vertex = self.stack.last().0;
            if !self.seen.contains_key(vertex) {
                self
            } else if self.seen[vertex].1 {
                self.popped().unwound()
            } else {
                self.popped().left(vertex).unwound()
            }
        }
    }

    /// The vertex that the next step produces: the next to be entered.
    pub open spec fn upcoming(self) -> Option<V> {
        if self.unwound().stack.len() == 0 {
            None
        } else {
            Some(self.unwound().stack.last().0)
        }
    }

    /// The state after one step: the events up to and including the next
    /// preorder event have taken place.
    pub open spec fn step(self) -> Self {
        if self.unwound().stack.len() == 0 {
            self.unwound()
        } else {
            self.unwound().entered()
        }
    }

    /// The state after a number of steps.
    pub open spec fn run(self, steps: nat) -> Self
        decreases steps,
    {
        if steps == 0 {
            self
        } else {
            self.run((steps - 1) as nat).step()
        }
    }

    /// Every state that a run leads through is valid, over the same graph and
    /// with the same start vertex.
    pub proof fn lemma_run_valid(self, steps: nat)
        requires
            self.valid(),
        ensures
            self.run(steps).valid(),
            self.run(steps).graph == self.graph,
            self.run(steps).start == self.start,
        decreases steps,
    {
        if steps > 0 {
            self.lemma_run_valid((steps - 1) as nat);
            self.run((steps - 1) as nat).lemma_step_valid();
        }
    }

    /// The recorded predecessor of a vertex.
    pub open spec fn parent(self, vertex: V) -> Option<V> {
        if self.seen.contains_key(vertex) {
            self.seen[vertex].0
        } else {
            None
        }
    }

    /// The recorded predecessors.
    pub open spec fn pred(self) -> Map<V, Option<V>> {
        self.seen.map_values(|entry: (Option<V>, bool)| entry.0)
    }

    /// The ranks that order the recorded predecessors: the depths.
    pub open spec fn ranks(self) -> Map<V, (nat, nat)> {
        self.depth.map_values(|depth: nat| (depth, 0nat))
    }

    /// The recorded way to a vertex.
    pub open spec fn trail(self, vertex: V) -> Seq<V> {
        crate::vertex_traverser::chain(self.pred(), self.ranks(), vertex)
    }

    /// The invariant of the states that a traverser goes through: the recorded
    /// predecessors form a tree of edges of the graph below the start vertex, a
    /// depth is the depth in this tree, and every item on the stack names a
    /// vertex and a vertex that has been entered and has it as a neighbour.
    pub open spec fn valid(self) -> bool {
        &&& crate::vertex::vertex_laws::<V>()
        &&& self.seen.dom() == self.depth.dom()
        &&& !self.seen.contains_key(self.start) ==> self.stack == seq![(self.start, None::<V>)]
        &&& self.seen.contains_key(self.start) ==> self.seen[self.start].0.is_none()
        &&& forall|v: V| #[trigger]
            self.seen.contains_key(v) ==> match self.seen[v].0 {
                Some(p) => {
                    &&& self.seen.contains_key(p)
                    &&& self.depth[v] == self.depth[p] + 1
                    &&& self.graph.adjacent(p).contains(v)
                },
                None => v == self.start && self.depth[v] == 0,
            }
        &&& forall|i: int|
            0 <= i < self.stack.len() ==> match (#[trigger] self.stack[i]).1 {
                Some(p) => self.seen.contains_key(p) && self.graph.adjacent(p).contains(
                    self.stack[i].0,
                ),
                None => self.stack[i].0 == self.start,
            }
    }

    /// The initial state is valid.
    pub proof fn lemma_initial_valid(graph: G, start: V)
        requires
            crate::vertex::vertex_laws::<V>(),
        ensures
            Self::initial(graph, start).valid(),
    {
        let state = Self::initial(graph, start);
        assert(state.seen.dom() =~= state.depth.dom());
    }

    /// Entering the vertex on top of the stack keeps the invariant.
    pub proof fn lemma_entered_valid(self)
        requires
            self.valid(),
            self.stack.len() > 0,
            !self.seen.contains_key(self.stack.last().0),
        ensures
            self.entered().valid(),
    {
        let next = self.entered();
        let (vertex, from) = self.stack.last();
        assert(next.seen.dom() =~= next.depth.dom());
        assert(self.stack[self.stack.len() - 1] == (vertex, from));
        assert forall|i: int| 0 <= i < next.stack.len() implies match (#[trigger] next.stack[i]).1 {
            Some(p) => next.seen.contains_key(p) && next.graph.adjacent(p).contains(
                next.stack[i].0,
            ),
            None => next.stack[i].0 == next.start,
        } by {
            if i < self.stack.len() {
                assert(next.stack[i] == self.stack[i]);
            } else {
                let k = i - self.stack.len();
                assert(next.stack[i] == self.found(vertex)[k]);
                assert(self.graph.adjacent(vertex)[k] == next.stack[i].0);
            }
        }
        if !self.seen.contains_key(self.start) {
            assert(self.stack[0] == (self.start, None::<V>));
        }
    }

    /// Taking the top item of an entered vertex off the stack keeps the
    /// invariant, whether the vertex is marked as left or not.
    pub proof fn lemma_popped_valid(self)
        requires
            self.valid(),
            self.stack.len() > 0,
            self.seen.contains_key(self.stack.last().0),
        ensures
            self.popped().valid(),
            self.popped().left(self.stack.last().0).valid(),
    {
        let vertex = self.stack.last().0;
        let popped = self.popped();
        let left = popped.left(vertex);
        assert(self.seen.contains_key(self.start)) by {
            if !self.seen.contains_key(self.start) {
                assert(self.stack[0] == (self.start, None::<V>));
            }
        }
        assert forall|i: int| 0 <= i < popped.stack.len() implies popped.stack[i]
            == self.stack[i] by {}
        assert(left.seen.dom() =~= left.depth.dom());
        assert forall|v: V| #[trigger] left.seen.contains_key(v) implies match left.seen[v].0 {
            Some(p) => {
                &&& left.seen.contains_key(p)
                &&& left.depth[v] == left.depth[p] + 1
                &&& left.graph.adjacent(p).contains(v)
            },
            None => v == left.start && left.depth[v] == 0,
        } by {
            assert(self.seen.contains_key(v));
        }
    }

    /// The next event leaves a valid state behind, with the same graph and
    /// start vertex.
    pub proof fn lemma_inner_valid(self)
        requires
            self.valid(),
        ensures
            self.inner().0.valid(),
            self.inner().0.graph == self.graph,
            self.inner().0.start == self.start,
            !(self.inner().1 matches Some(DfsInnerIterEvent::CycleEdge(_, _))),
        decreases self.stack.len(),
    {
        if self.stack.len() > 0 {
            let vertex = self.stack.last().0;
            if !self.seen.contains_key(vertex) {
                self.lemma_entered_valid();
            } else {
                self.lemma_popped_valid();
                if self.seen[vertex].1 {
                    self.popped().lemma_inner_valid();
                }
            }
        }
    }

    /// Unwinding leaves a valid state behind whose stack is empty or has a
    /// vertex on top that has not been entered.
    pub proof fn lemma_unwound_valid(self)
        requires
            self.valid(),
        ensures
            self.unwound().valid(),
            self.unwound().graph == self.graph,
            self.unwound().start == self.start,
            self.unwound().stack.len() <= self.stack.len(),
            self.unwound().stack.len() > 0 ==> !self.unwound().seen.contains_key(
                self.unwound().stack.last().0,
            ),
            self.stack.len() == 0 ==> self.unwound() == self,
        decreases self.stack.len(),
    {
        if self.stack.len() > 0 {
            let vertex = self.stack.last().0;
            if self.seen.contains_key(vertex) {
                self.lemma_popped_valid();
                if self.seen[vertex].1 {
                    self.popped().lemma_unwound_valid();
                } else {
                    self.popped().left(vertex).lemma_unwound_valid();
                }
            }
        }
    }

    /// How one event relates to a step: a preorder event, or none, completes
    /// the step; a postorder event leaves the rest of the step to do, with a
    /// shorter stack.
    pub proof fn lemma_inner_step(self)
        ensures
            match self.inner().1 {
                Some(DfsInnerIterEvent::PreorderItem(vertex)) => {
                    &&& self.inner().0 == self.step()
                    &&& self.upcoming() == Some(vertex)
                },
                Some(DfsInnerIterEvent::PostorderItem(_)) => {
                    &&& self.inner().0.step() == self.step()
                    &&& self.inner().0.upcoming() == self.upcoming()
                    &&& self.inner().0.stack.len() < self.stack.len()
                },
                Some(DfsInnerIterEvent::CycleEdge(_, _)) => false,
                None => {
                    &&& self.inner().0 == self.step()
                    &&& self.upcoming().is_none()
                    &&& self.inner().0.stack.len() == 0
                },
            },
            self.inner().0.stack.len() <= self.stack.len() || self.inner().1 matches Some(
                DfsInnerIterEvent::PreorderItem(_),
            ),
        decreases self.stack.len(),
    {
        if self.stack.len() > 0 {
            let vertex = self.stack.last().0;
            if self.seen.contains_key(vertex) && self.seen[vertex].1 {
                self.popped().lemma_inner_step();
            }
        }
    }

    /// A step keeps the invariant.
    pub proof fn lemma_step_valid(self)
        requires
            self.valid(),
        ensures
            self.step().valid(),
            self.step().graph == self.graph,
            self.step().start == self.start,
            self.stack.len() == 0 ==> self.upcoming().is_none() && self.step() == self,
            self.upcoming().is_none() ==> self.step().stack.len() == 0,
    {
        self.lemma_unwound_valid();
        if self.unwound().stack.len() > 0 {
            self.unwound().lemma_entered_valid();
        }
    }

    /// The depths order the recorded predecessors.
    pub proof fn lemma_descends(self)
        requires
            self.valid(),
        ensures
            crate::vertex_traverser::descends(self.pred(), self.ranks()),
    {
        assert forall|v: V|
            #![trigger self.pred()[v]]
            self.pred().contains_key(v) && self.pred()[v].is_some() implies {
            let p = self.pred()[v].unwrap();
            self.ranks()[p].0 < self.ranks()[v].0
        } by {
            let p = self.pred()[v].unwrap();
            assert(self.seen.contains_key(v));
            assert(self.seen.contains_key(p));
            assert(self.depth.contains_key(p));
            assert(self.depth.contains_key(v));
        }
    }

    /// The recorded way to a vertex is the recorded way to its predecessor and
    /// then the vertex.
    pub proof fn lemma_trail(self, vertex: V)
        requires
            self.valid(),
        ensures
            self.trail(vertex) == match self.parent(vertex) {
                Some(before) => self.trail(before).push(vertex),
                None => seq![vertex],
            },
            self.parent(self.start).is_none(),
    {
        self.lemma_descends();
    }

    /// The recorded way to a vertex that has been entered is a walk from the
    /// start vertex to it.
    pub proof fn lemma_trail_is_walk(self, vertex: V)
        requires
            self.valid(),
            self.seen.contains_key(vertex),
        ensures
            crate::graph::connects(&self.graph, self.trail(vertex), self.start, vertex),
            self.trail(vertex).len() == self.depth[vertex] + 1,
        decreases self.depth[vertex],
    {
        self.lemma_trail(vertex);
        match self.seen[vertex].0 {
            Some(before) => {
                self.lemma_trail_is_walk(before);
                let way = self.trail(before);
                let longer = way.push(vertex);
                assert forall|i: int| 0 <= i < longer.len() - 1 implies self.graph.adjacent(
                    #[trigger] longer[i],
                ).contains(longer[i + 1]) by {
                    if i < way.len() - 1 {
                        assert(longer[i] == way[i]);
                        assert(longer[i + 1] == way[i + 1]);
                    }
                }
            },
            None => {},
        }
    }
}

impl<V: Vertex, G: Graph<V>> DfsState<G, V> {
    /// A run of one more step is a step and then the run.
    pub proof fn lemma_run_after_step(self, steps: nat)
        ensures
            self.run(steps + 1) == self.step().run(steps),
        decreases steps,
    {
        if steps > 0 {
            self.lemma_run_after_step((steps - 1) as nat);
            assert(self.run(steps + 1) == self.run(steps).step());
            assert(self.step().run(steps) == self.step().run((steps - 1) as nat).step());
        } else {
            assert(self.run(1) == self.run(0).step());
        }
    }

    /// Unwinding enters no vertex.
    pub proof fn lemma_unwound_seen(self)
        ensures
            self.unwound().seen.dom() == self.seen.dom(),
        decreases self.stack.len(),
    {
        if self.stack.len() > 0 {
            let vertex = self.stack.last().0;
            if self.seen.contains_key(vertex) {
                if self.seen[vertex].1 {
                    self.popped().lemma_unwound_seen();
                } else {
                    self.popped().left(vertex).lemma_unwound_seen();
                    assert(self.popped().left(vertex).seen.dom() =~= self.seen.dom());
                }
            }
        }
    }

    /// In a region that is finite, holds the start vertex and that no edge
    /// leaves, a traverser runs out of vertices after finitely many steps: each
    /// step enters a vertex of the region that was not entered before.
    pub proof fn lemma_runs_out(self, region: Set<V>) -> (steps: nat)
        requires
            self.valid(),
            region.finite(),
            region.contains(self.start),
            self.seen.dom().subset_of(region),
            crate::graph::closed_under_neighbors(&self.graph, region),
        ensures
            self.run(steps).upcoming().is_none(),
        decreases region.difference(self.seen.dom()).len(),
    {
        self.lemma_unwound_valid();
        self.lemma_unwound_seen();
        let ready = self.unwound();
        if ready.stack.len() == 0 {
            assert(self.run(0) == self);
            0
        } else {
            let next = self.step();
            let (vertex, from) = ready.stack.last();
            self.lemma_step_valid();
            assert(next == ready.entered());
            assert(ready.stack[ready.stack.len() - 1] == (vertex, from));
            assert(region.contains(vertex)) by {
                if from.is_some() {
                    assert(ready.seen.contains_key(from.unwrap()));
                    assert(ready.graph.adjacent(from.unwrap()).contains(vertex));
                }
            }
            assert(next.seen.dom() =~= self.seen.dom().insert(vertex));
            let left = region.difference(self.seen.dom());
            let fewer = region.difference(next.seen.dom());
            assert(left.contains(vertex));
            assert(fewer.subset_of(left.remove(vertex)));
            vstd::set_lib::lemma_len_subset(fewer, left.remove(vertex));
            let rest = next.lemma_runs_out(region);
            self.lemma_run_after_step(rest);
            rest + 1
        }
    }

    /// Where a step produces the target or nothing, there is a first such step.
    pub proof fn lemma_search_ends(self, target: V, limit: nat) -> (steps: nat)
        requires
            crate::vertex_traverser::ends(self.run(limit).upcoming(), target),
        ensures
            steps <= limit,
            crate::vertex_traverser::ends(self.run(steps).upcoming(), target),
            forall|fewer: nat|
                fewer < steps ==> !crate::vertex_traverser::ends(
                    #[trigger] self.run(fewer).upcoming(),
                    target,
                ),
        decreases limit,
    {
        if exists|fewer: nat|
            fewer < limit && crate::vertex_traverser::ends(
                #[trigger] self.run(fewer).upcoming(),
                target,
            ) {
            let fewer = choose|fewer: nat|
                fewer < limit && crate::vertex_traverser::ends(
                    #[trigger] self.run(fewer).upcoming(),
                    target,
                );
            self.lemma_search_ends(target, fewer)
        } else {
            limit
        }
    }
}

impl<V: Vertex, G: Graph<V>> DfsState<G, V> {
    /// Whether an item of `vertex` waits on the stack.
    pub open spec fn awaits(self, vertex: V) -> bool {
        exists|i: int| 0 <= i < self.stack.len() && (#[trigger] self.stack[i]).0 == vertex
    }

    /// Whether nothing is forgotten: every neighbour of a vertex that has been
    /// entered has been entered or waits on the stack, and every vertex that has
    /// been entered has been left or waits on the stack.
    pub open spec fn thorough(self) -> bool {
        &&& forall|v: V, n: V|
            self.seen.contains_key(v) && #[trigger] self.graph.adjacent(v).contains(n)
                ==> self.seen.contains_key(n) || self.awaits(n)
        &&& forall|v: V| #[trigger] self.seen.contains_key(v) ==> self.seen[v].1 || self.awaits(v)
    }

    /// The initial state forgets nothing.
    pub proof fn lemma_initial_thorough(graph: G, start: V)
        ensures
            Self::initial(graph, start).thorough(),
    {
    }

    /// Entering the vertex on top of the stack forgets nothing.
    pub proof fn lemma_entered_thorough(self)
        requires
            self.thorough(),
            self.stack.len() > 0,
            !self.seen.contains_key(self.stack.last().0),
        ensures
            self.entered().thorough(),
    {
        let next = self.entered();
        let (vertex, from) = self.stack.last();
        assert forall|n: V| self.awaits(n) implies next.awaits(n) by {
            let i = choose|i: int| 0 <= i < self.stack.len() && (#[trigger] self.stack[i]).0 == n;
            assert(next.stack[i] == self.stack[i]);
        }
        assert(next.awaits(vertex)) by {
            assert(next.stack[self.stack.len() - 1] == self.stack[self.stack.len() - 1]);
        }
        assert forall|v: V, n: V|
            next.seen.contains_key(v) && #[trigger] next.graph.adjacent(v).contains(
                n,
            ) implies next.seen.contains_key(n) || next.awaits(n) by {
            if v == vertex {
                let k = choose|k: int|
                    0 <= k < self.graph.adjacent(vertex).len() && self.graph.adjacent(vertex)[k]
                        == n;
                assert(next.stack[self.stack.len() + k] == self.found(vertex)[k]);
                assert(next.stack[self.stack.len() + k].0 == n);
            } else {
                assert(self.seen.contains_key(v));
                if !self.seen.contains_key(n) {
                    assert(self.awaits(n));
                }
            }
        }
        assert forall|v: V| #[trigger] next.seen.contains_key(v) implies next.seen[v].1
            || next.awaits(v) by {
            if v != vertex {
                assert(self.seen.contains_key(v));
                if !self.seen[v].1 {
                    assert(self.awaits(v));
                }
            }
        }
    }

    /// Taking the top item of an entered vertex off the stack forgets nothing,
    /// if the vertex has been left or is left now.
    pub proof fn lemma_popped_thorough(self)
        requires
            self.thorough(),
            self.stack.len() > 0,
            self.seen.contains_key(self.stack.last().0),
        ensures
            self.seen[self.stack.last().0].1 ==> self.popped().thorough(),
            self.popped().left(self.stack.last().0).thorough(),
    {
        let vertex = self.stack.last().0;
        let popped = self.popped();
        let left = popped.left(vertex);
        assert forall|n: V| self.awaits(n) && n != vertex implies popped.awaits(n) by {
            let i = choose|i: int| 0 <= i < self.stack.len() && (#[trigger] self.stack[i]).0 == n;
            assert(popped.stack[i] == self.stack[i]);
        }
        assert forall|n: V| popped.awaits(n) implies left.awaits(n) by {
            let i = choose|i: int|
                0 <= i < popped.stack.len() && (#[trigger] popped.stack[i]).0 == n;
            assert(left.stack[i] == popped.stack[i]);
        }
        assert forall|v: V, n: V|
            left.seen.contains_key(v) && #[trigger] left.graph.adjacent(v).contains(
                n,
            ) implies left.seen.contains_key(n) || left.awaits(n) by {
            assert(self.seen.contains_key(v));
            if !self.seen.contains_key(n) {
                assert(self.awaits(n));
            }
        }
        assert forall|v: V| #[trigger] left.seen.contains_key(v) implies left.seen[v].1
            || left.awaits(v) by {
            assert(self.seen.contains_key(v));
            if v != vertex && !self.seen[v].1 {
                assert(self.awaits(v));
            }
        }
        if self.seen[vertex].1 {
            assert forall|v: V, n: V|
                popped.seen.contains_key(v) && #[trigger] popped.graph.adjacent(v).contains(
                    n,
                ) implies popped.seen.contains_key(n) || popped.awaits(n) by {
                if !self.seen.contains_key(n) {
                    assert(self.awaits(n));
                }
            }
            assert forall|v: V| #[trigger] popped.seen.contains_key(v) implies popped.seen[v].1
                || popped.awaits(v) by {
                if v != vertex && !self.seen[v].1 {
                    assert(self.awaits(v));
                }
            }
        }
    }

    /// An event forgets nothing.
    pub proof fn lemma_inner_thorough(self)
        requires
            self.valid(),
            self.thorough(),
        ensures
            self.inner().0.thorough(),
        decreases self.stack.len(),
    {
        if self.stack.len() > 0 {
            let vertex = self.stack.last().0;
            if !self.seen.contains_key(vertex) {
                self.lemma_entered_thorough();
            } else {
                self.lemma_popped_thorough();
                self.lemma_popped_valid();
                if self.seen[vertex].1 {
                    self.popped().lemma_inner_thorough();
                }
            }
        }
    }

    /// Unwinding forgets nothing.
    pub proof fn lemma_unwound_thorough(self)
        requires
            self.valid(),
            self.thorough(),
        ensures
            self.unwound().thorough(),
        decreases self.stack.len(),
    {
        if self.stack.len() > 0 {
            let vertex = self.stack.last().0;
            if self.seen.contains_key(vertex) {
                self.lemma_popped_thorough();
                self.lemma_popped_valid();
                if self.seen[vertex].1 {
                    self.popped().lemma_unwound_thorough();
                } else {
                    self.popped().left(vertex).lemma_unwound_thorough();
                }
            }
        }
    }

    /// No state that a traverser goes through, step by step or event by event,
    /// forgets anything.
    pub proof fn lemma_run_thorough(graph: G, start: V, steps: nat, events: nat)
        requires
            crate::vertex::vertex_laws::<V>(),
        ensures
            Self::initial(graph, start).run(steps).valid(),
            Self::initial(graph, start).run(steps).thorough(),
            Self::initial(graph, start).after_events(events).valid(),
            Self::initial(graph, start).after_events(events).thorough(),
        decreases steps + events,
    {
        let initial = Self::initial(graph, start);
        Self::lemma_initial_valid(graph, start);
        Self::lemma_initial_thorough(graph, start);
        if steps > 0 {
            Self::lemma_run_thorough(graph, start, (steps - 1) as nat, 0);
            let before = initial.run((steps - 1) as nat);
            before.lemma_step_valid();
            before.lemma_unwound_valid();
            before.lemma_unwound_thorough();
            if before.unwound().stack.len() > 0 {
                before.unwound().lemma_entered_thorough();
            }
        }
        if events > 0 {
            Self::lemma_run_thorough(graph, start, 0, (events - 1) as nat);
            let before = initial.after_events((events - 1) as nat);
            before.lemma_inner_valid();
            before.lemma_inner_thorough();
        }
    }

    /// Along a walk from the start vertex, every vertex has been entered once
    /// the stack is empty.
    proof fn lemma_walk_seen(self, walk: Seq<V>, upto: int)
        requires
            self.valid(),
            self.thorough(),
            self.stack.len() == 0,
            crate::graph::is_walk(&self.graph, walk),
            walk[0] == self.start,
            0 <= upto < walk.len(),
        ensures
            self.seen.contains_key(walk[upto]),
        decreases upto,
    {
        if upto > 0 {
            self.lemma_walk_seen(walk, upto - 1);
            assert(self.graph.adjacent(walk[upto - 1]).contains(walk[upto]));
            assert(!self.awaits(walk[upto]));
        } else {
            assert(self.stack =~= Seq::<(V, Option<V>)>::empty());
        }
    }

    /// Once the stack is empty, every vertex that can be reached from the start
    /// vertex has been entered and left.
    pub proof fn lemma_exhausted_is_complete(self, target: V)
        requires
            self.valid(),
            self.thorough(),
            self.stack.len() == 0,
            crate::graph::reachable(&self.graph, self.start, target),
        ensures
            self.seen.contains_key(target),
            self.seen[target].1,
    {
        let walk = choose|walk: Seq<V>|
            crate::graph::connects(&self.graph, walk, self.start, target);
        self.lemma_walk_seen(walk, walk.len() - 1);
        assert(!self.awaits(target));
    }

    /// A vertex is entered once and left once: it is entered only if it has not
    /// been entered, left only if it has been entered and not left, and what
    /// has been entered or left stays so.
    pub proof fn lemma_once(self, vertex: V)
        requires
            self.valid(),
        ensures
            match self.inner().1 {
                Some(DfsInnerIterEvent::PreorderItem(entered)) => {
                    &&& !self.seen.contains_key(entered)
                    &&& self.inner().0.seen.contains_key(entered)
                    &&& !self.inner().0.seen[entered].1
                },
                Some(DfsInnerIterEvent::PostorderItem(left)) => {
                    &&& self.seen.contains_key(left)
                    &&& !self.seen[left].1
                    &&& self.inner().0.seen[left].1
                },
                Some(DfsInnerIterEvent::CycleEdge(_, _)) => false,
                None => true,
            },
            self.seen.contains_key(vertex) ==> self.inner().0.seen.contains_key(vertex),
            self.seen.contains_key(vertex) && self.seen[vertex].1 ==> self.inner().0.seen[vertex].1,
        decreases self.stack.len(),
    {
        if self.stack.len() > 0 {
            let top = self.stack.last().0;
            if self.seen.contains_key(top) && self.seen[top].1 {
                self.lemma_popped_valid();
                self.popped().lemma_once(vertex);
            }
        }
    }
}

impl<V: Vertex, G: Graph<V>> DfsState<G, V> {
    /// The state after one move: the item on top of the stack is dropped, if
    /// its vertex has been left; else its vertex is left, if it has been
    /// entered, and entered, if it has not.
    pub open spec fn moved(self) -> Self {
        if self.stack.len() == 0 {
            self
        } else {
            let vertex = self.stack.last().0;
            if !self.seen.contains_key(vertex) {
                self.entered()
            } else if self.seen[vertex].1 {
                self.popped()
            } else {
                self.popped().left(vertex)
            }
        }
    }

    /// The state after a number of moves.
    pub open spec fn after_moves(self, count: nat) -> Self
        decreases count,
    {
        if count == 0 {
            self
        } else {
            self.after_moves((count - 1) as nat).moved()
        }
    }

    /// Whether the vertex on top of the stack is about to be entered and has a
    /// neighbour that has been entered before, or is its own neighbour.
    pub open spec fn revisits(self) -> bool {
        &&& self.stack.len() > 0
        &&& !self.seen.contains_key(self.stack.last().0)
        &&& exists|n: V|
            #[trigger] self.graph.adjacent(self.stack.last().0).contains(n) && (n
                == self.stack.last().0 || self.seen.contains_key(n))
    }

    /// Every state that the moves lead through is valid, and once the stack is
    /// empty nothing moves any more.
    pub proof fn lemma_after_moves(self, count: nat, more: nat)
        requires
            self.valid(),
        ensures
            self.after_moves(count).valid(),
            self.after_moves(count).graph == self.graph,
            self.after_moves(count).stack.len() == 0 ==> self.after_moves(count + more)
                == self.after_moves(count),
        decreases count + more,
    {
        if count > 0 {
            let before = self.after_moves((count - 1) as nat);
            self.lemma_after_moves((count - 1) as nat, 0);
            if before.stack.len() > 0 {
                if !before.seen.contains_key(before.stack.last().0) {
                    before.lemma_entered_valid();
                } else {
                    before.lemma_popped_valid();
                }
            }
        }
        if more > 0 {
            self.lemma_after_moves(count, (more - 1) as nat);
            assert(self.after_moves(count + more) == self.after_moves(
                (count + more - 1) as nat,
            ).moved());
        }
    }
}

/// A traverser that produces the vertices of a graph depth first. It can also
/// tell when a vertex is entered and when it is left.
#[derive(Clone)]
#[verifier::reject_recursive_types(V)]
pub struct DfsVertexTrav<'a, G, V> {
    graph: &'a G,
    start: V,
    queue: DfsContainer<(V, Option<V>)>,
    predecessor_finished_map: HashMap<V, (Option<V>, bool)>,
    depth: Ghost<Map<V, nat>>,
}

impl<'a, G: Graph<V>, V: Vertex> DfsVertexTrav<'a, G, V> {
    /// Makes a traverser of `graph` that starts at `start`.
    pub fn new(graph: &'a G, start: V) -> (traverser: DfsVertexTrav<'a, G, V>)
        requires
            crate::vertex::vertex_laws::<V>(),
        ensures
            traverser.state() == DfsState::initial(*graph, start),
            Self::valid(traverser.state()),
    {
        let mut container = DfsContainer::new();
        container.push((copy_vertex(&start), None));
        let ghost depth = Map::<V, nat>::empty();
        let traverser = DfsVertexTrav {
            graph,
            start,
            queue: container,
            predecessor_finished_map: HashMap::new(),
            depth: Ghost(depth),
        };
        proof {
            let state = traverser.state();
            let initial = DfsState::initial(*graph, start);
            assert(state.stack =~= initial.stack);
            assert(state.seen =~= initial.seen);
            assert(state.depth =~= initial.depth);
            DfsState::lemma_initial_valid(*graph, start);
        }
        traverser
    }

    /// Whether the vertex on top of the stack has been entered, and if so,
    /// whether it has been left; `None` where the stack is empty.
    fn top(&self) -> (top: Option<Option<bool>>)
        requires
            crate::vertex::vertex_laws::<V>(),
        ensures
            match top {
                None => self.state().stack.len() == 0,
                Some(None) => self.state().stack.len() > 0 && !self.state().seen.contains_key(
                    self.state().stack.last().0,
                ),
                Some(Some(finished)) => {
                    &&& self.state().stack.len() > 0
                    &&& self.state().seen.contains_key(self.state().stack.last().0)
                    &&& finished == self.state().seen[self.state().stack.last().0].1
                },
            },
    {
        broadcast use vstd::std_specs::hash::group_hash_axioms;

        match self.queue.peek() {
            None => None,
            Some(item) => match self.predecessor_finished_map.get(&item.0) {
                Some(entry) => Some(Some(entry.1)),
                None => Some(None),
            },
        }
    }

    /// Makes the next event happen and returns it; `None` when the stack is
    /// empty.
    pub fn next_inner(&mut self) -> (event: Option<DfsInnerIterEvent<V>>)
        requires
            Self::valid(old(self).state()),
        ensures
            Self::valid(final(self).state()),
            final(self).state() == old(self).state().inner().0,
            event == old(self).state().inner().1,
    {
        broadcast use vstd::std_specs::hash::group_hash_axioms;

        let ghost begin = self.state();
        proof {
            begin.lemma_inner_valid();
        }
        let mut entered: Option<V> = None;
        loop
            invariant_except_break
                self.state().valid(),
                self.state().inner() == begin.inner(),
                entered.is_none(),
            invariant
                crate::vertex::vertex_laws::<V>(),
                begin.inner().0.valid(),
                begin == old(self).state(),
            ensures
                entered.is_some(),
                begin.inner().1 == Some(DfsInnerIterEvent::PreorderItem(entered.unwrap())),
                self.state().stack.len() > 0,
                (DfsState {
                    stack: self.state().stack + self.state().found(entered.unwrap()),
                    ..self.state()
                }) == begin.inner().0,
            decreases self.queue.items().len(),
        {
            let ghost here = self.state();
            match self.top() {
                None => {
                    proof {
                        assert(here.inner() == (here, None::<DfsInnerIterEvent<V>>));
                    }
                    return None;
                },
                Some(Some(finished)) => {
                    proof {
                        here.lemma_popped_valid();
                    }
                    let item = self.queue.pop().unwrap();
                    proof {
                        assert(item == here.stack.last());
                        assert(self.state().stack =~= here.popped().stack);
                        assert(self.state() == here.popped());
                        if finished {
                            assert(here.inner() == here.popped().inner());
                        } else {
                            assert(here.inner() == (
                                here.popped().left(item.0),
                                Some(DfsInnerIterEvent::PostorderItem(item.0)),
                            ));
                        }
                    }
                    if !finished {
                        match self.predecessor_finished_map.entry(copy_vertex(&item.0)) {
                            Entry::Occupied(occupied) => {
                                let entry = occupied.into_mut();
                                entry.1 = true;
                            },
                            Entry::Vacant(_) => {},
                        }
                        proof {
                            assert(self.state().seen =~= here.popped().left(item.0).seen);
                            assert(self.state() == here.popped().left(item.0));
                        }
                        return Some(DfsInnerIterEvent::PostorderItem(item.0));
                    }
                },
                Some(None) => {
                    let item = self.queue.peek().unwrap();
                    let vertex = copy_vertex(&item.0);
                    let from = copy_optional_vertex(&item.1);
                    let ghost depth = if from.is_some() {
                        self.depth@[from.unwrap()] + 1
                    } else {
                        0nat
                    };
                    self.predecessor_finished_map.insert(copy_vertex(&vertex), (from, false));
                    self.depth = Ghost(self.depth@.insert(vertex, depth));
                    entered = Some(vertex);
                    proof {
                        assert(here.inner() == (
                            here.entered(),
                            Some(DfsInnerIterEvent::PreorderItem(vertex)),
                        ));
                        let expected = here.entered();
                        let now = DfsState {
                            stack: self.state().stack + self.state().found(vertex),
                            ..self.state()
                        };
                        assert(now.seen =~= expected.seen);
                        assert(now.depth =~= expected.depth);
                        assert(now.stack =~= expected.stack);
                    }
                    break ;
                },
            }
        }
        let vertex = entered.unwrap();
        let ghost recorded = self.state();
        let neighbors = self.graph.neighbors(&vertex);
        let mut i: usize = 0;
        while i < neighbors.len()
            invariant
                crate::vertex::vertex_laws::<V>(),
                i <= neighbors.len(),
                self.state() == (DfsState {
                    stack: recorded.stack + recorded.found(vertex).take(i as int),
                    ..recorded
                }),
                neighbors@ == recorded.graph.adjacent(vertex),
            decreases neighbors.len() - i,
        {
            self.queue.push((copy_vertex(&neighbors[i]), Some(copy_vertex(&vertex))));
            proof {
                let found = recorded.found(vertex);
                assert(found.take(i + 1) =~= found.take(i as int).push(found[i as int]));
                assert(self.state().stack =~= recorded.stack + found.take(i + 1));
            }
            i += 1;
        }
        proof {
            let found = recorded.found(vertex);
            assert(found.take(i as int) =~= found);
        }
        Some(DfsInnerIterEvent::PreorderItem(vertex))
    }

    /// Returns a handle that pulls the preorder and postorder items out of this
    /// traverser.
    pub fn pre_post_iter(&mut self) -> (iter: PrePostIter<'_, 'a, G, V>)
        ensures
            *iter.0 == *old(self),
            *final(iter.0) == *final(self),
    {
        PrePostIter::new(self)
    }

    /// Returns a handle that pulls the vertices out of this traverser in
    /// postorder.
    pub fn post_iter(&mut self) -> (iter: PostIter<'_, 'a, G, V>)
        ensures
            *iter.0 == *old(self),
            *final(iter.0) == *final(self),
    {
        PostIter::new(self)
    }

    /// Whether the vertex on top of the stack, which has not been entered, has
    /// a neighbour that has been entered before, or is its own neighbour.
    fn sees_again(&self) -> (again: bool)
        requires
            self.state().valid(),
            self.state().stack.len() > 0,
            !self.state().seen.contains_key(self.state().stack.last().0),
        ensures
            again == self.state().revisits(),
    {
        broadcast use vstd::std_specs::hash::group_hash_axioms;

        let item = self.queue.peek().unwrap();
        let neighbors = self.graph.neighbors(&item.0);
        let ghost vertex = item.0;
        let mut again = false;
        let mut i: usize = 0;
        while i < neighbors.len()
            invariant
                crate::vertex::vertex_laws::<V>(),
                i <= neighbors.len(),
                vertex == item.0,
                neighbors@ == self.state().graph.adjacent(vertex),
                again <==> exists|k: int|
                    0 <= k < i && ((#[trigger] neighbors[k]) == vertex
                        || self.state().seen.contains_key(neighbors[k])),
            decreases neighbors.len() - i,
        {
            if crate::vertex::same_vertex(&neighbors[i], &item.0)
                || self.predecessor_finished_map.contains_key(&neighbors[i]) {
                again = true;
            }
            i += 1;
        }
        proof {
            let state = self.state();
            if again {
                let k = choose|k: int|
                    0 <= k < neighbors.len() && ((#[trigger] neighbors[k]) == vertex
                        || state.seen.contains_key(neighbors[k]));
                assert(state.graph.adjacent(vertex).contains(neighbors[k]));
            }
            if state.revisits() {
                let n = choose|n: V|
                    #[trigger] state.graph.adjacent(vertex).contains(n) && (n == vertex
                        || state.seen.contains_key(n));
                let k = choose|k: int| 0 <= k < neighbors.len() && neighbors[k] == n;
                assert(neighbors[k] == vertex || state.seen.contains_key(neighbors[k]));
            }
        }
        again
    }

    /// Drains the traverser and tells whether a vertex was found again: whether,
    /// when some vertex was entered, one of its neighbours had been entered
    /// before, or was the vertex itself. In a graph without cycles this happens
    /// where two ways lead to one vertex. The traversal must come to an end.
    pub fn is_cyclic(self) -> (cyclic: bool)
        requires
            self.state().valid(),
            exists|count: nat| (#[trigger] self.state().after_moves(count)).stack.len() == 0,
        ensures
            cyclic == exists|count: nat| (#[trigger] self.state().after_moves(count)).revisits(),
    {
        broadcast use vstd::std_specs::hash::group_hash_axioms;

        let mut traverser = self;
        let ghost begin = traverser.state();
        let ghost total = choose|count: nat| (#[trigger] begin.after_moves(count)).stack.len() == 0;
        let ghost mut done: nat = 0;
        let mut cyclic = false;
        loop
            invariant_except_break
                done <= total,
            invariant
                begin == self.state(),
                begin.valid(),
                begin.after_moves(total).stack.len() == 0,
                traverser.state() == begin.after_moves(done),
                traverser.state().valid(),
                cyclic <==> exists|count: nat|
                    count < done && (#[trigger] begin.after_moves(count)).revisits(),
            ensures
                traverser.state().stack.len() == 0,
            decreases total - done,
        {
            let ghost here = traverser.state();
            proof {
                begin.lemma_after_moves(done + 1, 0);
                begin.lemma_after_moves(done, (total - done) as nat);
                assert(begin.after_moves(done + 1) == here.moved());
            }
            match traverser.top() {
                None => {
                    break ;
                },
                Some(None) => {
                    if traverser.sees_again() {
                        cyclic = true;
                    }
                    proof {
                        assert(here.inner() == (
                            here.entered(),
                            Some(DfsInnerIterEvent::PreorderItem(here.stack.last().0)),
                        ));
                        assert(DfsVertexTrav::<G, V>::valid(here) == here.valid());
                    }
                    traverser.next_inner();
                },
                Some(Some(finished)) => {
                    if finished {
                        proof {
                            here.lemma_popped_valid();
                        }
                        traverser.queue.pop();
                        proof {
                            assert(traverser.state().stack =~= here.popped().stack);
                        }
                    } else {
                        proof {
                            assert(here.inner() == (
                                here.popped().left(here.stack.last().0),
                                Some(DfsInnerIterEvent::PostorderItem(here.stack.last().0)),
                            ));
                            assert(DfsVertexTrav::<G, V>::valid(here) == here.valid());
                        }
                        traverser.next_inner();
                    }
                },
            }
            proof {
                assert(DfsVertexTrav::<G, V>::valid(traverser.state())
                    == traverser.state().valid());
                assert forall|count: nat|
                    count < done + 1 && (#[trigger] begin.after_moves(count)).revisits() implies (
                exists|fewer: nat| fewer < done && (#[trigger] begin.after_moves(fewer)).revisits())
                    || here.revisits() by {
                    if count == done {
                    }
                }
                if here.revisits() {
                    assert(begin.after_moves(done).revisits());
                }
                done = done + 1;
            }
        }
        proof {
            assert forall|count: nat| (#[trigger] begin.after_moves(count)).revisits() implies count
                < done by {
                if count >= done {
                    begin.lemma_after_moves(done, (count - done) as nat);
                    assert(begin.after_moves(count) == begin.after_moves(done));
                }
            }
        }
        cyclic
    }

    /// Makes the next event happen and returns it, as a preorder or a
    /// postorder item; `None` when the stack is empty.
    pub fn next_pre_post(&mut self) -> (item: Option<PrePostItem<V>>)
        requires
            Self::valid(old(self).state()),
        ensures
            Self::valid(final(self).state()),
            final(self).state() == old(self).state().inner().0,
            item == match old(self).state().inner().1 {
                Some(DfsInnerIterEvent::PreorderItem(vertex)) => Some(
                    PrePostItem::PreorderItem(vertex),
                ),
                Some(DfsInnerIterEvent::PostorderItem(vertex)) => Some(
                    PrePostItem::PostorderItem(vertex),
                ),
                _ => None,
            },
    {
        proof {
            old(self).state().lemma_inner_valid();
        }
        match self.next_inner() {
            Some(DfsInnerIterEvent::PreorderItem(vertex)) => Some(PrePostItem::PreorderItem(vertex)),
            Some(DfsInnerIterEvent::PostorderItem(vertex)) => Some(
                PrePostItem::PostorderItem(vertex),
            ),
            _ => None,
        }
    }
}

impl<'a, G: Graph<V>, V: Vertex> DfsVertexTrav<'a, G, V> {
    /// In a region that is finite, holds the start vertex and that no edge
    /// leaves, a search for any target comes to an end, so that
    /// `construct_path` can be called.
    pub proof fn lemma_search_halts(state: DfsState<G, V>, region: Set<V>, target: V)
        requires
            state.valid(),
            region.finite(),
            region.contains(state.start),
            state.seen.dom().subset_of(region),
            crate::graph::closed_under_neighbors(&state.graph, region),
        ensures
            exists|steps: nat|
                {
                    &&& crate::vertex_traverser::ends(
                        Self::upcoming(#[trigger] Self::run(state, steps)),
                        target,
                    )
                    &&& forall|fewer: nat|
                        fewer <= steps ==> {
                            &&& Self::ready(#[trigger] Self::run(state, fewer))
                            &&& fewer < steps ==> !crate::vertex_traverser::ends(
                                Self::upcoming(Self::run(state, fewer)),
                                target,
                            )
                        }
                },
    {
        let limit = state.lemma_runs_out(region);
        let steps = state.lemma_search_ends(target, limit);
        assert(Self::upcoming(Self::run(state, steps)) == state.run(steps).upcoming());
        assert forall|fewer: nat| fewer <= steps implies {
            &&& Self::ready(#[trigger] Self::run(state, fewer))
            &&& fewer < steps ==> !crate::vertex_traverser::ends(
                Self::upcoming(Self::run(state, fewer)),
                target,
            )
        } by {
            assert(Self::run(state, fewer) == state.run(fewer));
            assert(Self::upcoming(state.run(fewer)) == state.run(fewer).upcoming());
            assert(Self::ready(state.run(fewer)));
        }
    }
}

impl<'a, G: Graph<V>, V: Vertex> VertexTraverser<V> for DfsVertexTrav<'a, G, V> {
    type State = DfsState<G, V>;

    closed spec fn state(&self) -> DfsState<G, V> {
        DfsState {
            graph: *self.graph,
            start: self.start,
            stack: self.queue.items(),
            seen: self.predecessor_finished_map@,
            depth: self.depth@,
        }
    }

    open spec fn valid(state: DfsState<G, V>) -> bool {
        state.valid()
    }

    open spec fn ready(state: DfsState<G, V>) -> bool {
        true
    }

    open spec fn origin(state: DfsState<G, V>) -> V {
        state.start
    }

    open spec fn upcoming(state: DfsState<G, V>) -> Option<V> {
        state.upcoming()
    }

    open spec fn exhausted(state: DfsState<G, V>) -> bool {
        state.stack.len() == 0
    }

    open spec fn step(state: DfsState<G, V>) -> DfsState<G, V> {
        state.step()
    }

    open spec fn run(state: DfsState<G, V>, steps: nat) -> DfsState<G, V> {
        state.run(steps)
    }

    open spec fn parent(state: DfsState<G, V>, vertex: V) -> Option<V> {
        state.parent(vertex)
    }

    open spec fn trail(state: DfsState<G, V>, vertex: V) -> Seq<V> {
        state.trail(vertex)
    }

    proof fn lemma_vertices(state: DfsState<G, V>) {
    }

    proof fn lemma_run(state: DfsState<G, V>, steps: nat) {
        assert((steps + 1 - 1) as nat == steps);
        assert(state.run(steps + 1) == state.run(steps).step());
        assert(Self::run(state, 0) == state.run(0));
        assert(Self::run(state, steps + 1) == state.run(steps + 1));
        assert(Self::run(state, steps) == state.run(steps));
        assert(Self::step(state.run(steps)) == state.run(steps).step());
    }

    proof fn lemma_step(state: DfsState<G, V>) {
        state.lemma_step_valid();
        assert(Self::step(state) == state.step());
        assert(Self::valid(state.step()) == state.step().valid());
        assert(Self::origin(state.step()) == state.step().start);
        assert(Self::origin(state) == state.start);
        assert(Self::exhausted(state) == (state.stack.len() == 0));
        assert(Self::exhausted(state.step()) == (state.step().stack.len() == 0));
        assert(Self::upcoming(state) == state.upcoming());
    }

    proof fn lemma_exhausted_ready(state: DfsState<G, V>) {
    }

    proof fn lemma_trail(state: DfsState<G, V>, vertex: V) {
        state.lemma_trail(vertex);
        assert(Self::trail(state, vertex) == state.trail(vertex));
        assert(Self::parent(state, vertex) == state.parent(vertex));
        assert(Self::parent(state, Self::origin(state)) == state.parent(state.start));
    }

    fn first(&self) -> (start: V) {
        copy_vertex(&self.start)
    }

    fn next(&mut self) -> (vertex: Option<V>) {
        let ghost begin = self.state();
        loop
            invariant
                begin == old(self).state(),
                begin.valid(),
                self.state().valid(),
                self.state().step() == begin.step(),
                self.state().upcoming() == begin.upcoming(),
            decreases self.queue.items().len(),
        {
            proof {
                self.state().lemma_inner_step();
                self.state().lemma_inner_valid();
                assert(Self::valid(begin) == begin.valid());
                Self::lemma_step(begin);
                assert(Self::upcoming(begin) == begin.upcoming());
                assert(Self::step(begin) == begin.step());
                assert(Self::valid(begin.step()) == begin.step().valid());
            }
            match self.next_inner() {
                Some(DfsInnerIterEvent::PreorderItem(vertex)) => {
                    return Some(vertex);
                },
                Some(_) => {},
                None => {
                    return None;
                },
            }
        }
    }

    fn predecessor(&self, vertex: &V) -> (before: Option<V>) {
        broadcast use vstd::std_specs::hash::group_hash_axioms;

        match self.predecessor_finished_map.get(vertex) {
            Some(entry) => copy_optional_vertex(&entry.0),
            None => None,
        }
    }
}

} // verus!
