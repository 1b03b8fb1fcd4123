//! Traversers: resumable walks over a graph that produce one vertex per call and
//! record, for each vertex they reach, the vertex they reached it from.

pub mod astar;
pub mod bfs;
pub mod dfs;
pub mod dijkstra;

use crate::graph_adapters::Iter;
use crate::graph_adapters::PredecessorIter;
use crate::vertex::copy_vertex;
use crate::vertex::same_vertex;
use crate::vertex::Vertex;
use std::marker::PhantomData;
use vstd::prelude::*;

verus! {

/// Whether the ranks order the recorded predecessors: the predecessor of a vertex
/// has a lower rank than the vertex. Ranks are pairs, ordered by their first
/// parts and, where these are equal, by their second parts.
pub open spec fn descends<V>(pred: Map<V, Option<V>>, rank: Map<V, (nat, nat)>) -> bool {
    forall|v: V|
        #![trigger pred[v]]
        pred.contains_key(v) && pred[v].is_some() ==> {
            let p = pred[v].unwrap();
            rank[p].0 < rank[v].0 || (rank[p].0 == rank[v].0 && rank[p].1 < rank[v].1)
        }
}

/// The vertices from the first one without a recorded predecessor down to
/// `vertex`, each the recorded predecessor of the next.
pub open spec fn chain<V>(pred: Map<V, Option<V>>, rank: Map<V, (nat, nat)>, vertex: V) -> Seq<V>
    decreases rank[vertex].0, rank[vertex].1,
    when descends(pred, rank)
{
    if pred.contains_key(vertex) && pred[vertex].is_some() {
        chain(pred, rank, pred[vertex].unwrap()).push(vertex)
    } else {
        seq![vertex]
    }
}

/// Turns a list around.
pub fn reversed<T>(list: Vec<T>) -> (turned: Vec<T>)
    ensures
        turned@ == list@.reverse(),
{
    let mut list = list;
    let mut turned: Vec<T> = Vec::new();
    let ghost whole = list@;
    while list.len() > 0
        invariant
            list@ == whole.take(list.len() as int),
            turned.len() + list.len() == whole.len(),
            forall|i: int| 0 <= i < turned.len() ==> turned[i] == whole[whole.len() - 1 - i],
        decreases list.len(),
    {
        let item = list.pop().unwrap();
        turned.push(item);
        proof {
            assert(list@ =~= whole.take(list.len() as int));
        }
    }
    proof {
        assert(turned@ =~= whole.reverse());
    }
    turned
}

/// Whether a search for `target` ends with what a step produces: with `target`,
/// or with nothing.
pub open spec fn ends<V>(produced: Option<V>, target: V) -> bool {
    produced.is_none() || produced == Some(target)
}

/// An interface for dealing with vertex traversers over a graph.
///
/// A traverser is a state machine. Its state says which vertex comes next and
/// what follows; `next` makes one step. The start vertex is fixed for the
/// traverser's lifetime. A traverser whose frontier is empty is exhausted, and
/// stays so.
pub trait VertexTraverser<V: Vertex>: Sized {
    /// What a traverser holds: the graph it walks, its frontier, and what it
    /// has recorded.
    type State;

    /// What this traverser holds.
    spec fn state(&self) -> Self::State;

    /// The invariant of the states that a traverser goes through.
    spec fn valid(state: Self::State) -> bool;

    /// Whether a step can be made from the state. A step that would add up costs
    /// beyond what their type can hold cannot be made.
    spec fn ready(state: Self::State) -> bool;

    /// The start vertex.
    spec fn origin(state: Self::State) -> V;

    /// The vertex that the next step produces; `None` where no vertex is left.
    spec fn upcoming(state: Self::State) -> Option<V>;

    /// Whether the frontier is empty.
    spec fn exhausted(state: Self::State) -> bool;

    /// The state after one step.
    spec fn step(state: Self::State) -> Self::State;

    /// The state after a number of steps.
    spec fn run(state: Self::State, steps: nat) -> Self::State;

    /// The recorded predecessor of a vertex; `None` for the start vertex and for
    /// a vertex that has not been reached.
    spec fn parent(state: Self::State, vertex: V) -> Option<V>;

    /// The recorded way to a vertex: from a vertex without a recorded
    /// predecessor down to `vertex`, each vertex the recorded predecessor of the
    /// next.
    spec fn trail(state: Self::State, vertex: V) -> Seq<V>;

    /// Vertices of a valid traverser obey the laws of vertices.
    proof fn lemma_vertices(state: Self::State)
        requires
            Self::valid(state),
        ensures
            crate::vertex::vertex_laws::<V>(),
    ;

    /// A run of no steps changes nothing, and a run of one more step ends with
    /// that step.
    proof fn lemma_run(state: Self::State, steps: nat)
        ensures
            Self::run(state, 0) == state,
            Self::run(state, steps + 1) == Self::step(Self::run(state, steps)),
    ;

    /// A step keeps the invariant and the start vertex. Once the frontier is
    /// empty, no vertex comes and a step changes nothing; and where no vertex
    /// comes, the step leaves the frontier empty.
    proof fn lemma_step(state: Self::State)
        requires
            Self::valid(state),
            Self::ready(state),
        ensures
            Self::valid(Self::step(state)),
            Self::origin(Self::step(state)) == Self::origin(state),
            Self::exhausted(state) ==> Self::upcoming(state).is_none() && Self::step(state)
                == state,
            Self::upcoming(state).is_none() ==> Self::exhausted(Self::step(state)),
    ;

    /// An exhausted traverser is ready: its steps do nothing.
    proof fn lemma_exhausted_ready(state: Self::State)
        requires
            Self::valid(state),
            Self::exhausted(state),
        ensures
            Self::ready(state),
    ;

    /// The recorded way to a vertex is the recorded way to its predecessor and
    /// then the vertex; the way to a vertex without predecessor is the vertex.
    /// The start vertex has no predecessor.
    proof fn lemma_trail(state: Self::State, vertex: V)
        requires
            Self::valid(state),
        ensures
            Self::trail(state, vertex) == match Self::parent(state, vertex) {
                Some(before) => Self::trail(state, before).push(vertex),
                None => seq![vertex],
            },
            Self::parent(state, Self::origin(state)).is_none(),
    ;

    /// Returns start vertex.
    fn first(&self) -> (start: V)
        requires
            Self::valid(self.state()),
        ensures
            start == Self::origin(self.state()),
    ;

    /// Advances the traverser and returns the next value; `None` when the
    /// frontier is empty, and then the traverser does not change.
    fn next(&mut self) -> (vertex: Option<V>)
        requires
            Self::valid(old(self).state()),
            Self::ready(old(self).state()),
        ensures
            Self::valid(final(self).state()),
            vertex == Self::upcoming(old(self).state()),
            final(self).state() == Self::step(old(self).state()),
            Self::exhausted(old(self).state()) ==> vertex.is_none() && final(self).state() == old(
                self,
            ).state(),
    ;

    /// Returns the predecessor vertex of the given vertex
    /// or `None` if `vertex` is the start vertex or has not been reached yet.
    fn predecessor(&self, vertex: &V) -> (before: Option<V>)
        requires
            Self::valid(self.state()),
        ensures
            before == Self::parent(self.state(), *vertex),
    ;

    /// Returns a handle that lets you pull the vertices out of the traverser.
    fn iter(&mut self) -> (iter: Iter<'_, V, Self>)
        ensures
            *iter.0 == *old(self),
            *final(iter.0) == *final(self),
    {
        Iter(self, PhantomData)
    }

    /// Returns a handle that lets you walk back along the recorded predecessors,
    /// beginning at a given `vertex`.
    fn predecessor_iter(&self, vertex: &V) -> (iter: PredecessorIter<'_, V, Self>)
        requires
            Self::valid(self.state()),
        ensures
            *iter.0 == *self,
            iter.1 == Some(*vertex),
    {
        proof {
            Self::lemma_vertices(self.state());
        }
        PredecessorIter(self, Some(copy_vertex(vertex)))
    }

    /// Traverses through the graph until we reach `target` and returns a path
    /// from start vertex to `target`, or `None` if the `target` vertex cannot be
    /// reached.
    ///
    /// Where `target` has a recorded predecessor, the traverser stays as it is.
    /// Else it is advanced up to and including the first step that produces
    /// `target` or nothing; this must happen after finitely many steps, each of
    /// which can be made. The path is then the recorded way to `target`, if that
    /// has more than one vertex or `target` is the start vertex.
    fn construct_path(&mut self, target: &V) -> (path: Option<Vec<V>>)
        requires
            Self::valid(old(self).state()),
            Self::parent(old(self).state(), *target).is_none() ==> exists|steps: nat|
                {
                    &&& ends(Self::upcoming(#[trigger] Self::run(old(self).state(), steps)), *target)
                    &&& forall|fewer: nat|
                        fewer <= steps ==> {
                            &&& Self::ready(#[trigger] Self::run(old(self).state(), fewer))
                            &&& fewer < steps ==> !ends(
                                Self::upcoming(Self::run(old(self).state(), fewer)),
                                *target,
                            )
                        }
                },
        ensures
            Self::valid(final(self).state()),
            Self::origin(final(self).state()) == Self::origin(old(self).state()),
            Self::parent(old(self).state(), *target).is_some() ==> final(self).state() == old(
                self,
            ).state(),
            Self::parent(old(self).state(), *target).is_none() ==> exists|steps: nat|
                {
                    &&& final(self).state() == #[trigger] Self::run(old(self).state(), steps + 1)
                    &&& ends(Self::upcoming(Self::run(old(self).state(), steps)), *target)
                    &&& forall|fewer: nat|
                        fewer < steps ==> !ends(
                            Self::upcoming(#[trigger] Self::run(old(self).state(), fewer)),
                            *target,
                        )
                },
            match path {
                Some(path) => {
                    &&& path@ == Self::trail(final(self).state(), *target)
                    &&& path@.len() > 1 || *target == Self::origin(final(self).state())
                },
                None => {
                    &&& Self::trail(final(self).state(), *target).len() <= 1
                    &&& *target != Self::origin(final(self).state())
                },
            },
            *target == Self::origin(old(self).state()) ==> path.is_some() && path.unwrap()@
                == seq![*target],
    {
        let ghost begin = self.state();
        proof {
            Self::lemma_vertices(begin);
            Self::lemma_run(begin, 0);
        }
        if self.predecessor(target).is_none() {
            let ghost total = choose|steps: nat|
                {
                    &&& ends(Self::upcoming(#[trigger] Self::run(begin, steps)), *target)
                    &&& forall|fewer: nat|
                        fewer <= steps ==> {
                            &&& Self::ready(#[trigger] Self::run(begin, fewer))
                            &&& fewer < steps ==> !ends(
                                Self::upcoming(Self::run(begin, fewer)),
                                *target,
                            )
                        }
                };
            let ghost mut done: nat = 0;
            loop
                invariant_except_break
                    Self::valid(self.state()),
                    self.state() == Self::run(begin, done),
                    done <= total,
                invariant
                    crate::vertex::vertex_laws::<V>(),
                    ends(Self::upcoming(Self::run(begin, total)), *target),
                    forall|fewer: nat|
                        fewer <= total ==> {
                            &&& Self::ready(#[trigger] Self::run(begin, fewer))
                            &&& fewer < total ==> !ends(
                                Self::upcoming(Self::run(begin, fewer)),
                                *target,
                            )
                        },
                    Self::origin(begin) == Self::origin(self.state()),
                ensures
                    Self::valid(self.state()),
                    self.state() == Self::run(begin, total + 1),
                decreases total - done,
            {
                let ghost here = self.state();
                proof {
                    Self::lemma_run(begin, done);
                    Self::lemma_step(here);
                    assert(Self::ready(Self::run(begin, done)));
                }
                let produced = self.next();
                let found = match &produced {
                    None => true,
                    Some(vertex) => same_vertex(vertex, target),
                };
                proof {
                    assert(Self::upcoming(Self::run(begin, done)) == produced);
                    assert(found == ends(produced, *target));
                }
                if found {
                    break ;
                }
                proof {
                    done = done + 1;
                }
            }
        }
        let ghost end = self.state();
        proof {
            Self::lemma_trail(end, *target);
            assert(Self::origin(end) == Self::origin(begin));
        }
        let mut path: Vec<V> = Vec::new();
        let mut current: Option<V> = Some(copy_vertex(target));
        while current.is_some()
            invariant
                self.state() == end,
                Self::valid(end),
                crate::vertex::vertex_laws::<V>(),
                match current {
                    Some(vertex) => Self::trail(end, *target) == Self::trail(end, vertex)
                        + path@.reverse(),
                    None => Self::trail(end, *target) == path@.reverse(),
                },
            decreases
                    (match current {
                        Some(vertex) => Self::trail(end, vertex).len(),
                        None => 0,
                    }),
        {
            let vertex = current.unwrap();
            let before = self.predecessor(&vertex);
            proof {
                Self::lemma_trail(end, vertex);
                let longer = path@.push(vertex);
                assert(longer.reverse() =~= seq![vertex] + path@.reverse());
                if before.is_some() {
                    let b = before.unwrap();
                    assert(Self::trail(end, b).push(vertex) + path@.reverse() =~= Self::trail(
                        end,
                        b,
                    ) + longer.reverse());
                }
            }
            path.push(vertex);
            current = before;
        }
        let path = reversed(path);
        let start = self.first();
        proof {
            assert(path@ =~= Self::trail(end, *target));
        }
        if path.len() > 1 || same_vertex(target, &start) {
            Some(path)
        } else {
            None
        }
    }
}

} // verus!
