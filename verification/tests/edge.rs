use graph_iter::edge::lighter;
use graph_iter::edge::sum;
use graph_iter::edge::zero;
use graph_iter::vertex::copy_vertex;
use graph_iter::vertex::same_vertex;
use graph_iter::vertex_traverser::astar::cheapest_edge;
use graph_iter::vertex_traverser::reversed;

#[test]
fn weights_add_and_compare() {
    assert_eq!(zero::<u32>(), 0);
    assert_eq!(sum(&3u32, &4u32), 7);
    assert_eq!(sum(&0u32, &u32::MAX), u32::MAX);
    assert!(lighter(&3u32, &4u32));
    assert!(!lighter(&4u32, &4u32));
    assert!(!lighter(&5u32, &4u32));
}

#[test]
fn cheapest_edge_is_the_first_least() {
    assert_eq!(cheapest_edge::<u32>(vec![]), None);
    assert_eq!(cheapest_edge(vec![4u32]), Some(4));
    assert_eq!(cheapest_edge(vec![4u32, 2, 9, 2]), Some(2));
}

#[test]
fn vertices_copy_and_compare() {
    assert_eq!(copy_vertex(&(1, 2)), (1, 2));
    assert!(same_vertex(&(1, 2), &(1, 2)));
    assert!(!same_vertex(&(1, 2), &(2, 1)));
}

#[test]
fn lists_turn_around() {
    assert_eq!(reversed(vec![1, 2, 3]), vec![3, 2, 1]);
    assert_eq!(reversed(Vec::<u8>::new()), Vec::<u8>::new());
}
