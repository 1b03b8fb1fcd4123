use graph_iter::vertex_container::AstarContainer;
use graph_iter::vertex_container::BfsContainer;
use graph_iter::vertex_container::DfsContainer;
use graph_iter::vertex_container::VertexContainer;

#[derive(Hash, Eq, PartialEq, Debug)]
struct AstarKey(usize);

#[test]
fn astar_container() {
    let mut container = AstarContainer::new();

    container.push(AstarKey(1), 5);
    container.push(AstarKey(2), 8);
    container.push(AstarKey(3), 2);
    container.push(AstarKey(4), 1);
    container.push(AstarKey(5), 10);

    assert_eq!(container.pop(), Some((AstarKey(4), 1)));
    assert_eq!(container.pop(), Some((AstarKey(3), 2)));
    assert_eq!(container.pop(), Some((AstarKey(1), 5)));

    container.push(AstarKey(1), 3);
    container.push(AstarKey(6), 9);

    assert_eq!(container.pop(), Some((AstarKey(1), 3)));
    assert_eq!(container.pop(), Some((AstarKey(2), 8)));
    assert_eq!(container.pop(), Some((AstarKey(6), 9)));
    assert_eq!(container.pop(), Some((AstarKey(5), 10)));
    assert_eq!(container.pop(), None);
}

#[test]
fn astar_container_breaks_ties_by_age() {
    let mut container = AstarContainer::new();
    container.push("b", 2);
    container.push("a", 1);
    container.push("c", 1);
    container.push("d", 2);
    container.push("e", 1);
    assert_eq!(container.peek(), Some((&"a", &1)));
    assert_eq!(container.pop(), Some(("a", 1)));
    assert_eq!(container.pop(), Some(("c", 1)));
    assert_eq!(container.pop(), Some(("e", 1)));
    assert_eq!(container.pop(), Some(("b", 2)));
    assert_eq!(container.peek(), Some((&"d", &2)));
    assert_eq!(container.pop(), Some(("d", 2)));
    assert_eq!(container.peek(), None);
    assert_eq!(container.pop(), None);
}

#[test]
fn astar_container_holds_a_value_twice() {
    let mut container = AstarContainer::new();
    container.push(7, 4);
    container.push(7, 3);
    assert_eq!(container.pop(), Some((7, 3)));
    assert_eq!(container.pop(), Some((7, 4)));
    assert_eq!(container.pop(), None);
}

#[test]
fn stack_hands_out_the_newest() {
    let mut container = DfsContainer::new();
    assert_eq!(container.peek(), None);
    assert_eq!(container.pop(), None);
    container.push(1);
    container.push(2);
    container.push(3);
    assert_eq!(container.peek(), Some(&3));
    assert_eq!(container.pop(), Some(3));
    container.push(4);
    assert_eq!(container.pop(), Some(4));
    assert_eq!(container.pop(), Some(2));
    assert_eq!(container.pop(), Some(1));
    assert_eq!(container.pop(), None);
}

#[test]
fn queue_hands_out_the_oldest() {
    let mut container = BfsContainer::new();
    assert_eq!(container.peek(), None);
    assert_eq!(container.pop(), None);
    container.push(1);
    container.push(2);
    container.push(3);
    assert_eq!(container.peek(), Some(&1));
    assert_eq!(container.pop(), Some(1));
    container.push(4);
    assert_eq!(container.pop(), Some(2));
    assert_eq!(container.pop(), Some(3));
    assert_eq!(container.pop(), Some(4));
    assert_eq!(container.pop(), None);
}
