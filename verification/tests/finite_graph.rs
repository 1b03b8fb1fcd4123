use graph_iter::vertex_traverser::VertexTraverser;
use graph_iter::EdgedGraph;
use graph_iter::FiniteGraph;
use graph_iter::Graph;
use graph_iter::GraphTraversal;
use graph_iter::ReversableGraph;

type Position = (i32, i32);

#[test]
fn insert_and_remove_vertices_and_edges() {
    let mut graph = FiniteGraph::<Position, usize>::new();

    let a = graph.insert_vertex((0, 0));
    let b = graph.insert_vertex((0, 1));
    let c = graph.insert_vertex((1, 1));
    let d = graph.insert_vertex((1, 0));

    let e1 = graph.insert_edge(a, b, 1).unwrap();
    let e2 = graph.insert_edge(a, c, 2).unwrap();
    let e3 = graph.insert_edge(a, d, 3).unwrap();
    let e4 = graph.insert_edge(b, c, 4).unwrap();
    let e5 = graph.insert_edge(d, c, 5).unwrap();

    assert_eq!(graph.len(), (4, 5));
    assert_eq!(graph.all_vertices().into_iter().count(), 4);
    assert_eq!(graph.all_edges().into_iter().count(), 5);

    assert_eq!(graph.get_vertex(a).unwrap(), &(0, 0));
    assert_eq!(graph.get_vertex(b).unwrap(), &(0, 1));
    assert_eq!(graph.get_vertex(c).unwrap(), &(1, 1));
    assert_eq!(graph.get_vertex(d).unwrap(), &(1, 0));

    assert_eq!(graph.get_edge(e1), Some(&1));
    assert_eq!(graph.get_edge(e2), Some(&2));
    assert_eq!(graph.get_edge(e3), Some(&3));
    assert_eq!(graph.get_edge(e4), Some(&4));
    assert_eq!(graph.get_edge(e5), Some(&5));

    assert_eq!(graph.neighbors(&a), vec![b, c, d]);
    assert_eq!(graph.neighbors(&b), vec![c]);
    assert_eq!(graph.neighbors(&c), vec![]);
    assert_eq!(graph.neighbors(&d), vec![c]);

    let edge_data = graph.remove_edge(e3);

    assert_eq!(edge_data, Some(3));
    assert_eq!(graph.get_edge(e3), None);
    assert_eq!(graph.all_vertices().into_iter().count(), 4);
    assert_eq!(graph.all_edges().into_iter().count(), 4);
    assert_eq!(graph.neighbors(&a), vec![b, c]);
    assert_eq!(graph.neighbors(&d), vec![c]);

    let vertex_data = graph.remove_vertex(b);

    assert_eq!(vertex_data, Some((0, 1)));
    assert_eq!(graph.get_vertex(b), None);
    assert_eq!(graph.all_vertices().into_iter().count(), 3);
    assert_eq!(graph.all_edges().into_iter().count(), 2);
    assert_eq!(graph.neighbors(&a), vec![c]);
}

#[test]
fn insert_and_remove_bi_edges() {
    let mut graph = FiniteGraph::<Position, usize>::new();

    let a = graph.insert_vertex((0, 0));
    let b = graph.insert_vertex((0, 1));
    let c = graph.insert_vertex((1, 1));
    let d = graph.insert_vertex((1, 0));

    let e1 = graph.insert_bi_edge(a, b, 1).unwrap();
    graph.insert_bi_edge(b, c, 2).unwrap();
    graph.insert_bi_edge(c, d, 3).unwrap();
    graph.insert_bi_edge(d, a, 4).unwrap();

    assert_eq!(graph.all_edges().into_iter().count(), 4);
    assert_eq!(graph.edges(&a, &b), vec![1]);
    assert_eq!(graph.edges(&b, &a), vec![1]);
    assert_eq!(graph.edges(&a, &d), vec![4]);
    assert_eq!(graph.edges(&d, &a), vec![4]);
    assert_eq!(graph.edges(&b, &d), vec![]);
    assert_eq!(graph.edges(&d, &b), vec![]);

    graph.remove_edge(e1);

    assert_eq!(graph.edges(&a, &b), vec![]);
    assert_eq!(graph.edges(&b, &a), vec![]);
}

#[test]
fn counts_follow_edge_and_vertex_removal() {
    let mut graph = FiniteGraph::<Position, usize>::new();
    let a = graph.insert_vertex((0, 0));
    let b = graph.insert_vertex((0, 1));
    let c = graph.insert_vertex((1, 1));
    let d = graph.insert_vertex((1, 0));
    graph.insert_edge(a, b, 1).unwrap();
    graph.insert_edge(a, c, 2).unwrap();
    let e3 = graph.insert_edge(a, d, 3).unwrap();
    graph.insert_edge(b, c, 4).unwrap();
    graph.insert_edge(d, c, 5).unwrap();
    assert_eq!(graph.len(), (4, 5));

    graph.remove_edge(e3);
    assert_eq!(graph.len(), (4, 4));

    graph.remove_vertex(b);
    assert_eq!(graph.len(), (3, 2));
    assert_eq!(graph.neighbors(&a), vec![c]);
    assert_eq!(graph.neighbors(&c), vec![]);
    assert_eq!(graph.neighbors(&d), vec![c]);
    assert_eq!(graph.reverse_neighbors(&c), vec![a, d]);
    assert_eq!(graph.neighbors(&b), vec![]);
    assert_eq!(graph.reverse_neighbors(&b), vec![]);
}

#[test]
fn handles_grow_and_are_not_reused() {
    let mut graph = FiniteGraph::<u8, u8>::new();
    let a = graph.insert_vertex(1);
    let b = graph.insert_vertex(2);
    let e = graph.insert_edge(a, b, 7).unwrap();
    assert_ne!(a, b);
    assert_ne!(a, e);
    assert_ne!(b, e);
    graph.remove_vertex(b);
    let c = graph.insert_vertex(3);
    assert_ne!(c, a);
    assert_ne!(c, b);
    assert_ne!(c, e);
    assert!(!graph.contains_vertex(b));
    assert!(!graph.contains_edge(e));
    assert!(graph.contains_vertex(c));
}

#[test]
fn edge_to_unknown_vertex_is_refused() {
    let mut graph = FiniteGraph::<u8, u8>::new();
    let a = graph.insert_vertex(1);
    let b = graph.insert_vertex(2);
    graph.remove_vertex(b);
    assert_eq!(graph.insert_edge(a, b, 1), None);
    assert_eq!(graph.insert_edge(b, a, 1), None);
    assert_eq!(graph.insert_bi_edge(a, b, 1), None);
    assert_eq!(graph.len(), (1, 0));
    assert_eq!(graph.neighbors(&a), vec![]);
    assert_eq!(graph.reverse_neighbors(&a), vec![]);
}

#[test]
fn unknown_handles_give_nothing() {
    let mut graph = FiniteGraph::<u8, u8>::new();
    let a = graph.insert_vertex(1);
    let b = graph.insert_vertex(2);
    let e = graph.insert_edge(a, b, 9).unwrap();
    assert_eq!(graph.remove_edge(e), Some(9));
    assert_eq!(graph.remove_edge(e), None);
    assert_eq!(graph.remove_vertex(b), Some(2));
    assert_eq!(graph.remove_vertex(b), None);
    assert_eq!(graph.get_vertex(b), None);
    assert_eq!(graph.get_edge(e), None);
    assert!(graph.get_vertex_mut(b).is_none());
    assert!(graph.get_edge_mut(e).is_none());
    assert_eq!(graph.edges(&a, &b), vec![]);
    assert_eq!(graph.len(), (1, 0));
}

#[test]
fn parallel_edges_keep_their_order() {
    let mut graph = FiniteGraph::<u8, u8>::new();
    let a = graph.insert_vertex(1);
    let b = graph.insert_vertex(2);
    let first = graph.insert_edge(a, b, 5).unwrap();
    graph.insert_edge(a, b, 3).unwrap();
    graph.insert_edge(a, b, 4).unwrap();
    assert_eq!(graph.edges(&a, &b), vec![5, 3, 4]);
    assert_eq!(graph.neighbors(&a), vec![b, b, b]);
    assert_eq!(graph.reverse_neighbors(&b), vec![a, a, a]);
    graph.remove_edge(first);
    assert_eq!(graph.edges(&a, &b), vec![3, 4]);
    assert_eq!(graph.neighbors(&a), vec![b, b]);
}

#[test]
fn bi_edge_on_one_vertex_is_removed_whole() {
    let mut graph = FiniteGraph::<u8, u8>::new();
    let a = graph.insert_vertex(1);
    let e = graph.insert_bi_edge(a, a, 6).unwrap();
    assert_eq!(graph.neighbors(&a), vec![a, a]);
    assert_eq!(graph.reverse_neighbors(&a), vec![a, a]);
    assert_eq!(graph.edges(&a, &a), vec![6, 6]);
    assert_eq!(graph.len(), (1, 1));
    assert_eq!(graph.remove_edge(e), Some(6));
    assert_eq!(graph.neighbors(&a), vec![]);
    assert_eq!(graph.reverse_neighbors(&a), vec![]);
    assert_eq!(graph.len(), (1, 0));
}

#[test]
fn removing_a_vertex_removes_bi_edges_once() {
    let mut graph = FiniteGraph::<u8, u8>::new();
    let a = graph.insert_vertex(1);
    let b = graph.insert_vertex(2);
    let c = graph.insert_vertex(3);
    graph.insert_bi_edge(a, b, 1).unwrap();
    graph.insert_edge(c, a, 2).unwrap();
    graph.insert_edge(b, c, 3).unwrap();
    assert_eq!(graph.remove_vertex(a), Some(1));
    assert_eq!(graph.len(), (2, 1));
    assert_eq!(graph.neighbors(&b), vec![c]);
    assert_eq!(graph.reverse_neighbors(&b), vec![]);
    assert_eq!(graph.neighbors(&c), vec![]);
    assert_eq!(graph.reverse_neighbors(&c), vec![b]);
}

#[test]
fn values_can_be_rewritten_in_place() {
    let mut graph = FiniteGraph::<u8, u8>::new();
    let a = graph.insert_vertex(1);
    let b = graph.insert_vertex(2);
    let e = graph.insert_edge(a, b, 9).unwrap();
    *graph.get_vertex_mut(a).unwrap() = 10;
    *graph.get_edge_mut(e).unwrap() = 90;
    assert_eq!(graph.get_vertex(a), Some(&10));
    assert_eq!(graph.get_vertex(b), Some(&2));
    assert_eq!(graph.get_edge(e), Some(&90));
    assert_eq!(graph.edges(&a, &b), vec![90]);
    assert_eq!(graph.neighbors(&a), vec![b]);
}

#[test]
fn listings_hold_every_item_once() {
    let mut graph = FiniteGraph::<u8, u8>::with_capacity(4, 4);
    let a = graph.insert_vertex(1);
    let b = graph.insert_vertex(2);
    let e = graph.insert_edge(a, b, 9).unwrap();
    let vertices = graph.all_vertices();
    assert_eq!(vertices.len(), 2);
    assert!(vertices.contains(&(a, &1)));
    assert!(vertices.contains(&(b, &2)));
    assert_eq!(graph.all_edges(), vec![(e, &9)]);
    let (vertex_capacity, edge_capacity) = graph.capacity();
    assert!(vertex_capacity >= 2);
    assert!(edge_capacity >= 1);
}

#[test]
fn store_can_be_traversed() {
    let mut graph = FiniteGraph::<u8, u8>::new();
    let a = graph.insert_vertex(1);
    let b = graph.insert_vertex(2);
    let c = graph.insert_vertex(3);
    let d = graph.insert_vertex(4);
    graph.insert_edge(a, b, 1).unwrap();
    graph.insert_edge(b, c, 1).unwrap();
    graph.insert_edge(a, c, 1).unwrap();
    assert_eq!(graph.bfs(&a).construct_path(&c), Some(vec![a, c]));
    assert_eq!(graph.bfs(&a).construct_path(&d), None);
    assert_eq!(graph.rev().bfs(&c).construct_path(&a), Some(vec![c, a]));
    assert_eq!(graph.rev().neighbors(&c), vec![b, a]);
    assert_eq!(graph.rev().reverse_neighbors(&a), vec![b, c]);
    assert_eq!(graph.rev().edges(&c, &a), vec![1]);
}

#[test]
fn all_values_can_be_rewritten_in_place() {
    let mut graph = FiniteGraph::<u8, u8>::new();
    let a = graph.insert_vertex(1);
    let b = graph.insert_vertex(2);
    let e = graph.insert_edge(a, b, 9).unwrap();
    let f = graph.insert_edge(b, a, 4).unwrap();
    {
        let vertices = graph.all_vertices_mut();
        assert_eq!(vertices.len(), 2);
        for (id, value) in vertices {
            assert!(id == a || id == b);
            *value += 10;
        }
    }
    {
        let edges = graph.all_edges_mut();
        assert_eq!(edges.len(), 2);
        for (id, value) in edges {
            assert!(id == e || id == f);
            *value *= 2;
        }
    }
    assert_eq!(graph.get_vertex(a), Some(&11));
    assert_eq!(graph.get_vertex(b), Some(&12));
    assert_eq!(graph.get_edge(e), Some(&18));
    assert_eq!(graph.get_edge(f), Some(&8));
    assert_eq!(graph.neighbors(&a), vec![b]);
    assert_eq!(graph.neighbors(&b), vec![a]);
    assert_eq!(graph.len(), (2, 2));
}

#[test]
fn a_clone_is_a_graph_of_its_own() {
    let mut graph = FiniteGraph::<u8, u8>::new();
    let a = graph.insert_vertex(1);
    let b = graph.insert_vertex(2);
    let e = graph.insert_edge(a, b, 9).unwrap();
    let copy = graph.clone();
    graph.remove_vertex(b);
    assert_eq!(graph.len(), (1, 0));
    assert_eq!(copy.len(), (2, 1));
    assert_eq!(copy.neighbors(&a), vec![b]);
    assert_eq!(copy.get_edge(e), Some(&9));
}

fn assert_adjacency_is_live(graph: &FiniteGraph<u8, u8>) {
    for (vertex, _) in graph.all_vertices() {
        for neighbor in graph.neighbors(&vertex) {
            assert!(graph.contains_vertex(neighbor));
            assert!(!graph.edges(&vertex, &neighbor).is_empty());
            assert!(graph.reverse_neighbors(&neighbor).contains(&vertex));
        }
        for neighbor in graph.reverse_neighbors(&vertex) {
            assert!(graph.contains_vertex(neighbor));
            assert!(graph.neighbors(&neighbor).contains(&vertex));
        }
    }
}

#[test]
fn adjacency_names_only_live_items() {
    let mut graph = FiniteGraph::<u8, u8>::new();
    let mut vertices = Vec::new();
    for value in 0..6 {
        vertices.push(graph.insert_vertex(value));
    }
    let mut edges = Vec::new();
    for i in 0..6 {
        for j in 0..6 {
            if (i + 2 * j) % 3 == 0 {
                edges.push(graph.insert_edge(vertices[i], vertices[j], 1).unwrap());
            }
            if (i * j) % 4 == 1 {
                edges.push(graph.insert_bi_edge(vertices[i], vertices[j], 2).unwrap());
            }
        }
    }
    assert_adjacency_is_live(&graph);
    for (count, edge) in edges.iter().enumerate() {
        if count % 3 == 0 {
            assert!(graph.remove_edge(*edge).is_some());
            assert_adjacency_is_live(&graph);
        }
    }
    for vertex in [vertices[1], vertices[4], vertices[0]] {
        assert!(graph.remove_vertex(vertex).is_some());
        assert!(graph.neighbors(&vertex).is_empty());
        assert!(graph.reverse_neighbors(&vertex).is_empty());
        assert_adjacency_is_live(&graph);
        for (other, _) in graph.all_vertices() {
            assert!(!graph.neighbors(&other).contains(&vertex));
            assert!(!graph.reverse_neighbors(&other).contains(&vertex));
        }
    }
    let live = graph.all_edges().len();
    assert_eq!(graph.len(), (3, live));
    for edge in edges {
        graph.remove_edge(edge);
    }
    assert_eq!(graph.len(), (3, 0));
    for (vertex, _) in graph.all_vertices() {
        assert!(graph.neighbors(&vertex).is_empty());
        assert!(graph.reverse_neighbors(&vertex).is_empty());
    }
}
