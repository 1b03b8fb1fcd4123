//! Lazy traversals of directed, possibly infinite graphs, and a finite graph store.
//!
//! A graph is anything that can list the neighbours of a vertex ([`Graph`]). The
//! traversers of [`vertex_traverser`] walk such a graph breadth first, depth first
//! or cheapest first, one vertex per call, and reconstruct paths from the
//! predecessors they record. [`FiniteGraph`] is a mutable directed multigraph that
//! can be traversed in this way.

pub mod vertex;
pub mod edge;
pub mod graph;
pub mod lists;
pub mod finite_graph;
pub mod vertex_container;
pub mod vertex_traverser;
pub mod graph_adapters;
pub mod weights;

pub use crate::edge::Edge;
pub use crate::edge::WeightedEdge;
pub use crate::graph::EdgedGraph;
pub use crate::graph::Graph;
pub use crate::graph::GraphTraversal;
pub use crate::graph::WeightedGraphTraversal;
pub use crate::graph::ReversableGraph;
pub use crate::vertex::Vertex;
pub use crate::finite_graph::FiniteGraph;
pub use crate::finite_graph::Id;
