use crate::edge::Edge;
use crate::edge::WeightedEdge;
use crate::graph_adapters::Reversed;
use crate::vertex::copy_vertex;
use crate::vertex::Vertex;
use crate::vertex_traverser::astar::AstarState;
use crate::vertex_traverser::astar::AstarVertexTrav;
use crate::vertex_traverser::astar::Estimator;
use crate::vertex_traverser::astar::NoEstimate;
use crate::vertex_traverser::bfs::BfsState;
use crate::vertex_traverser::bfs::BfsVertexTrav;
use crate::vertex_traverser::dfs::DfsState;
use crate::vertex_traverser::dfs::DfsVertexTrav;
use crate::vertex_traverser::VertexTraverser;
use vstd::prelude::*;

verus! {

/// Represents a directed, potentially infinite, graph.
///
/// A graph is a relation, not a container: it computes the neighbours of a
/// vertex on demand, and asking twice gives the same answer. An unknown vertex
/// simply has no neighbours.
pub trait Graph<V: Vertex>: Sized {
    /// The vertices that can be reached from `vertex` by traveling along an edge,
    /// in the order in which `neighbors` lists them. A graph says here what its
    /// `neighbors` computes; a graph that does not, leaves it unspecified.
    open spec fn adjacent(&self, vertex: V) -> Seq<V> {
        arbitrary()
    }

    /// Generates a list of adjacent vertices that can be reached from `vertex` by
    /// traveling along an edge.
    fn neighbors(&self, vertex: &V) -> (list: Vec<V>)
        ensures
            list@ == self.adjacent(*vertex),
    ;
}

/// A graph that is able to travel vertices along edges backwards.
pub trait ReversableGraph<V: Vertex>: Graph<V> {
    /// The vertices from which `vertex` can be reached by traveling along an
    /// edge, in the order in which `reverse_neighbors` lists them. A graph that
    /// does not say what they are leaves them unspecified.
    open spec fn incoming(&self, vertex: V) -> Seq<V> {
        arbitrary()
    }

    /// Generates a list of adjacent vertices that can be reached from `vertex` by
    /// traveling along an edge backwards.
    fn reverse_neighbors(&self, vertex: &V) -> (list: Vec<V>)
        ensures
            list@ == self.incoming(*vertex),
    ;
}

/// Represents a directed, potentially infinite, multigraph, where edges contain
/// certain data.
pub trait EdgedGraph<V: Vertex, E: Edge>: Graph<V> {
    /// The edges that lead from `vertex` to `other`, in the order in which
    /// `edges` lists them. A graph that does not say what they are leaves them
    /// unspecified.
    open spec fn parallel(&self, vertex: V, other: V) -> Seq<E> {
        arbitrary()
    }

    /// Generates a list of edges that connect `vertex` with `other`. The list
    /// holds a clone of each such edge.
    fn edges(&self, vertex: &V, other: &V) -> (list: Vec<E>)
        ensures
            list.len() == self.parallel(*vertex, *other).len(),
            forall|i: int|
                0 <= i < list.len() ==> cloned(
                    #[trigger] self.parallel(*vertex, *other)[i],
                    list[i],
                ),
    ;
}

/// Whether `path` is a walk in `graph`: it holds a vertex, and each further
/// vertex is a neighbour of the one before it.
pub open spec fn is_walk<V: Vertex, G: Graph<V>>(graph: &G, path: Seq<V>) -> bool {
    &&& path.len() > 0
    &&& forall|i: int|
        0 <= i < path.len() - 1 ==> graph.adjacent(#[trigger] path[i]).contains(path[i + 1])
}

/// Whether `path` is a walk in `graph` that leads from `from` to `to`.
pub open spec fn connects<V: Vertex, G: Graph<V>>(graph: &G, path: Seq<V>, from: V, to: V) -> bool {
    &&& is_walk(graph, path)
    &&& path.first() == from
    &&& path.last() == to
}

/// Whether no edge of `graph` leads out of `region`.
pub open spec fn closed_under_neighbors<V: Vertex, G: Graph<V>>(graph: &G, region: Set<V>) -> bool {
    forall|v: V, n: V|
        region.contains(v) && #[trigger] graph.adjacent(v).contains(n) ==> region.contains(n)
}

/// Whether `to` can be reached from `from` along the edges of `graph`.
pub open spec fn reachable<V: Vertex, G: Graph<V>>(graph: &G, from: V, to: V) -> bool {
    exists|path: Seq<V>| connects(graph, path, from, to)
}

/// The traversals that every graph offers.
pub trait GraphTraversal<V: Vertex>: Graph<V> {
    /// Returns a traverser that iterates the graph vertices in a breadth-first
    /// manner.
    fn bfs(&self, start: &V) -> (traverser: BfsVertexTrav<'_, Self, V>)
        requires
            crate::vertex::vertex_laws::<V>(),
        ensures
            traverser.state() == BfsState::initial(*self, *start),
            traverser.state().valid(),
    ;

    /// Returns a traverser that iterates the graph vertices in a depth-first
    /// manner.
    fn dfs(&self, start: &V) -> (traverser: DfsVertexTrav<'_, Self, V>)
        requires
            crate::vertex::vertex_laws::<V>(),
        ensures
            traverser.state() == DfsState::initial(*self, *start),
            traverser.state().valid(),
    ;

    /// Returns a graph by reversing all edges.
    fn rev(&self) -> (reversed: Reversed<'_, Self>) where Self: ReversableGraph<V>
        ensures
            reversed.base() == *self,
    ;
}

impl<V: Vertex, G: Graph<V>> GraphTraversal<V> for G {
    fn bfs(&self, start: &V) -> (traverser: BfsVertexTrav<'_, Self, V>) {
        let traverser = BfsVertexTrav::new(self, copy_vertex(start));
        proof {
            assert(BfsVertexTrav::<G, V>::valid(traverser.state()) == traverser.state().valid());
        }
        traverser
    }

    fn dfs(&self, start: &V) -> (traverser: DfsVertexTrav<'_, Self, V>) {
        let traverser = DfsVertexTrav::new(self, copy_vertex(start));
        proof {
            assert(DfsVertexTrav::<G, V>::valid(traverser.state()) == traverser.state().valid());
        }
        traverser
    }

    fn rev(&self) -> (reversed: Reversed<'_, Self>) where Self: ReversableGraph<V> {
        Reversed::new(self)
    }
}

/// The traversals that a graph with weighted edges offers.
///
/// Dijkstra's algorithm only supports weights that are not negative and sums
/// that are never less than their parts, which is what a [`WeightedEdge`]
/// promises.
pub trait WeightedGraphTraversal<V: Vertex, E: WeightedEdge>: EdgedGraph<V, E> {
    /// Returns a traverser that iterates the graph vertices in a
    /// smallest-weight-sum-first manner.
    fn dijkstra(&self, start: &V) -> (traverser: AstarVertexTrav<'_, Self, V, E, NoEstimate>)
        requires
            crate::vertex::vertex_laws::<V>(),
        ensures
            traverser.state() == AstarState::<Self, V, E>::initial(
                *self,
                *start,
                |vertex: V| 0nat,
            ),
            traverser.state().valid(),
    ;

    /// Returns a traverser that iterates the graph vertices in a
    /// smallest-estimated-weight-sum-first manner using a custom estimator
    /// function. The estimator function estimates the cost that is still to pay
    /// from its vertex argument.
    fn astar<F>(&self, start: &V, estimator: F) -> (traverser: AstarVertexTrav<
        '_,
        Self,
        V,
        E,
        F,
    >) where F: Fn(&V) -> E
        requires
            crate::vertex::vertex_laws::<V>(),
            crate::vertex_traverser::astar::estimates(Some(estimator)),
        ensures
            traverser.state() == AstarState::<Self, V, E>::initial(
                *self,
                *start,
                crate::vertex_traverser::astar::estimate(Some(estimator)),
            ),
            traverser.state().valid(),
    ;
}

impl<V: Vertex, E: WeightedEdge, G: EdgedGraph<V, E>> WeightedGraphTraversal<V, E> for G {
    fn dijkstra(&self, start: &V) -> (traverser: AstarVertexTrav<'_, Self, V, E, NoEstimate>) {
        let traverser = AstarVertexTrav::new(self, copy_vertex(start));
        proof {
            assert(AstarVertexTrav::<G, V, E, NoEstimate>::valid(traverser.state())
                == traverser.state().valid());
        }
        traverser
    }

    fn astar<F>(&self, start: &V, estimator: F) -> (traverser: AstarVertexTrav<
        '_,
        Self,
        V,
        E,
        F,
    >) where F: Fn(&V) -> E {
        let traverser = AstarVertexTrav::with_estimator(self, copy_vertex(start), estimator);
        proof {
            assert(AstarVertexTrav::<G, V, E, F>::valid(traverser.state())
                == traverser.state().valid());
        }
        traverser
    }
}

} // verus!
