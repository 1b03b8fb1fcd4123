//! Adapters: a graph seen with its edges reversed, and handles that pull
//! vertices or events out of a traverser one at a time.

use crate::edge::Edge;
use crate::graph::EdgedGraph;
use crate::graph::Graph;
use crate::graph::ReversableGraph;
use crate::vertex::copy_optional_vertex;
use crate::vertex::Vertex;
use crate::vertex_traverser::dfs::DfsInnerIterEvent;
use crate::vertex_traverser::dfs::DfsVertexTrav;
use crate::vertex_traverser::dfs::PrePostItem;
use crate::vertex_traverser::VertexTraverser;
use std::marker::PhantomData;
use vstd::prelude::*;

verus! {

/// A graph with all edges reversed. It holds no data of its own: it asks the
/// graph it was made from.
#[derive(Clone)]
pub struct Reversed<'a, T> {
    graph: &'a T,
}

impl<'a, T> Reversed<'a, T> {
    /// The graph whose edges are reversed.
    pub closed spec fn base(&self) -> T {
        *self.graph
    }

    /// Reverses the edges of `graph`.
    pub fn new(graph: &'a T) -> (reversed: Reversed<'a, T>)
        ensures
            reversed.base() == *graph,
    {
        Reversed { graph }
    }
}

impl<'a, V: Vertex, T: ReversableGraph<V>> Graph<V> for Reversed<'a, T> {
    open spec fn adjacent(&self, vertex: V) -> Seq<V> {
        self.base().incoming(vertex)
    }

    fn neighbors(&self, vertex: &V) -> (list: Vec<V>) {
        self.graph.reverse_neighbors(vertex)
    }
}

impl<'a, V: Vertex, T: ReversableGraph<V>> ReversableGraph<V> for Reversed<'a, T> {
    open spec fn incoming(&self, vertex: V) -> Seq<V> {
        self.base().adjacent(vertex)
    }

    fn reverse_neighbors(&self, vertex: &V) -> (list: Vec<V>) {
        self.graph.neighbors(vertex)
    }
}

impl<'a, V: Vertex, E: Edge, T> EdgedGraph<V, E> for Reversed<'a, T> where
    T: ReversableGraph<V> + EdgedGraph<V, E>,
 {
    open spec fn parallel(&self, vertex: V, other: V) -> Seq<E> {
        self.base().parallel(other, vertex)
    }

    fn edges(&self, vertex: &V, other: &V) -> (list: Vec<E>) {
        self.graph.edges(other, vertex)
    }
}

/// A handle that pulls the vertices out of a traverser, one per call.
pub struct Iter<'a, V, T>(pub &'a mut T, pub PhantomData<&'a V>);

impl<'a, V: Vertex, T: VertexTraverser<V>> Iter<'a, V, T> {
    /// Makes a handle on `traverser`.
    pub fn new(traverser: &'a mut T) -> (iter: Iter<'a, V, T>)
        ensures
            *iter.0 == *old(traverser),
            *final(iter.0) == *final(traverser),
    {
        Iter(traverser, PhantomData)
    }

    /// Advances the traverser and returns the next vertex.
    pub fn next(&mut self) -> (vertex: Option<V>)
        requires
            T::valid(old(self).0.state()),
            T::ready(old(self).0.state()),
        ensures
            T::valid(final(self).0.state()),
            vertex == T::upcoming(old(self).0.state()),
            final(self).0.state() == T::step(old(self).0.state()),
            *final(final(self).0) == *final(old(self).0),
    {
        self.0.next()
    }
}

/// A handle that walks back along the recorded predecessors of a traverser,
/// one vertex per call.
pub struct PredecessorIter<'a, V, T>(pub &'a T, pub Option<V>);

impl<'a, V: Vertex, T: VertexTraverser<V>> PredecessorIter<'a, V, T> {
    /// Makes a handle on `traverser` that begins at `vertex`.
    pub fn new(traverser: &'a T, vertex: V) -> (iter: PredecessorIter<'a, V, T>)
        ensures
            *iter.0 == *traverser,
            iter.1 == Some(vertex),
    {
        PredecessorIter(traverser, Some(vertex))
    }

    /// Returns the vertex at which the handle stands and moves on to its
    /// recorded predecessor; `None` once a vertex without predecessor has been
    /// returned.
    pub fn next(&mut self) -> (vertex: Option<V>)
        requires
            T::valid(old(self).0.state()),
        ensures
            vertex == old(self).1,
            final(self).0 == old(self).0,
            final(self).1 == match old(self).1 {
                Some(vertex) => T::parent(old(self).0.state(), vertex),
                None => None,
            },
    {
        proof {
            T::lemma_vertices(self.0.state());
        }
        let vertex = copy_optional_vertex(&self.1);
        match vertex {
            Some(vertex) => {
                let predecessor = self.0.predecessor(&vertex);
                self.1 = predecessor;
                Some(vertex)
            },
            None => None,
        }
    }
}

/// A handle that pulls the preorder and postorder items out of a depth-first
/// traverser, one per call.
#[verifier::reject_recursive_types(V)]
pub struct PrePostIter<'a, 'b, G, V>(pub &'a mut DfsVertexTrav<'b, G, V>);

impl<'a, 'b, G: Graph<V>, V: Vertex> PrePostIter<'a, 'b, G, V> {
    /// Makes a handle on `traverser`.
    pub fn new(traverser: &'a mut DfsVertexTrav<'b, G, V>) -> (iter: PrePostIter<'a, 'b, G, V>)
        ensures
            *iter.0 == *old(traverser),
            *final(iter.0) == *final(traverser),
    {
        PrePostIter(traverser)
    }

    /// Makes the next event happen and returns it; `None` when the stack is
    /// empty.
    pub fn next(&mut self) -> (item: Option<PrePostItem<V>>)
        requires
            old(self).0.state().valid(),
        ensures
            final(self).0.state().valid(),
            final(self).0.state() == old(self).0.state().inner().0,
            item == match old(self).0.state().inner().1 {
                Some(DfsInnerIterEvent::PreorderItem(vertex)) => Some(
                    PrePostItem::PreorderItem(vertex),
                ),
                Some(DfsInnerIterEvent::PostorderItem(vertex)) => Some(
                    PrePostItem::PostorderItem(vertex),
                ),
                _ => None,
            },
            *final(final(self).0) == *final(old(self).0),
    {
        proof {
            assert(DfsVertexTrav::<G, V>::valid(self.0.state()) == self.0.state().valid());
        }
        let item = self.0.next_pre_post();
        proof {
            assert(DfsVertexTrav::<G, V>::valid(self.0.state()) == self.0.state().valid());
        }
        item
    }
}

/// A handle that pulls the vertices out of a depth-first traverser in
/// postorder: each vertex when it is left.
#[verifier::reject_recursive_types(V)]
pub struct PostIter<'a, 'b, G, V>(pub &'a mut DfsVertexTrav<'b, G, V>);

impl<'a, 'b, G: Graph<V>, V: Vertex> PostIter<'a, 'b, G, V> {
    /// Makes a handle on `traverser`.
    pub fn new(traverser: &'a mut DfsVertexTrav<'b, G, V>) -> (iter: PostIter<'a, 'b, G, V>)
        ensures
            *iter.0 == *old(traverser),
            *final(iter.0) == *final(traverser),
    {
        PostIter(traverser)
    }

    /// Makes events happen up to and including the next postorder event, and
    /// returns the vertex that is left; `None` when the stack runs empty first.
    /// Only finitely many vertices may be entered before that.
    pub fn next(&mut self) -> (vertex: Option<V>)
        requires
            old(self).0.state().valid(),
            exists|count: nat|
                !(#[trigger] old(self).0.state().after_events(count).inner().1 matches Some(
                    DfsInnerIterEvent::PreorderItem(_),
                )),
        ensures
            final(self).0.state().valid(),
            exists|count: nat|
                {
                    &&& final(self).0.state() == #[trigger] old(self).0.state().after_events(
                        count + 1,
                    )
                    &&& match old(self).0.state().after_events(count).inner().1 {
                        Some(DfsInnerIterEvent::PostorderItem(left)) => vertex == Some(left),
                        Some(_) => false,
                        None => vertex.is_none(),
                    }
                    &&& forall|fewer: nat|
                        fewer < count ==> (#[trigger] old(self).0.state().after_events(
                            fewer,
                        )).inner().1 matches Some(DfsInnerIterEvent::PreorderItem(_))
                },
            *final(final(self).0) == *final(old(self).0),
    {
        let ghost begin = self.0.state();
        let ghost total = choose|count: nat|
            !(#[trigger] begin.after_events(count).inner().1 matches Some(
                DfsInnerIterEvent::PreorderItem(_),
            ));
        let ghost mut done: nat = 0;
        loop
            invariant
                begin == old(self).0.state(),
                begin.valid(),
                self.0.state() == begin.after_events(done),
                done <= total,
                !(begin.after_events(total).inner().1 matches Some(
                    DfsInnerIterEvent::PreorderItem(_),
                )),
                forall|fewer: nat|
                    fewer < done ==> (#[trigger] begin.after_events(fewer)).inner().1 matches Some(
                        DfsInnerIterEvent::PreorderItem(_),
                    ),
                *final(self.0) == *final(old(self).0),
            decreases total - done,
        {
            proof {
                begin.lemma_after_events_valid(done);
                begin.after_events(done).lemma_inner_valid();
                assert(begin.after_events(done + 1) == begin.after_events(done).inner().0);
                assert(DfsVertexTrav::<G, V>::valid(self.0.state()) == self.0.state().valid());
            }
            match self.0.next_pre_post() {
                Some(PrePostItem::PostorderItem(vertex)) => {
                    proof {
                        assert(DfsVertexTrav::<G, V>::valid(self.0.state())
                            == self.0.state().valid());
                    }
                    return Some(vertex);
                },
                Some(_) => {
                    proof {
                        done = done + 1;
                    }
                },
                None => {
                    proof {
                        assert(DfsVertexTrav::<G, V>::valid(self.0.state())
                            == self.0.state().valid());
                    }
                    return None;
                },
            }
        }
    }
}

} // verus!
