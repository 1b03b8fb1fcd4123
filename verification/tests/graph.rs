use graph_iter::graph_adapters::Iter;
use graph_iter::graph_adapters::PredecessorIter;
use graph_iter::vertex_traverser::dfs::PrePostItem;
use graph_iter::vertex_traverser::VertexTraverser;
use graph_iter::EdgedGraph;
use graph_iter::Graph;
use graph_iter::GraphTraversal;
use graph_iter::WeightedGraphTraversal;

type Position = (i32, i32);

struct LatticeGraph {
    blocked: Vec<Position>,
}

impl Graph<Position> for LatticeGraph {
    fn neighbors(&self, &(x, y): &Position) -> Vec<Position> {
        [(x - 1, y), (x + 1, y), (x, y - 1), (x, y + 1)]
            .iter()
            .cloned()
            .filter(|v| !self.blocked.contains(v))
            .collect()
    }
}

struct NumberGraph {
    max: usize,
}

impl Graph<usize> for NumberGraph {
    fn neighbors(&self, &vertex: &usize) -> Vec<usize> {
        (2..self.max).map(|i| vertex * i).take_while(|&v| v <= self.max).collect()
    }
}

struct FullyConnectedGraph {
    vertices: Vec<Position>,
}

impl Graph<Position> for FullyConnectedGraph {
    fn neighbors(&self, _vertex: &Position) -> Vec<Position> {
        self.vertices.clone()
    }
}

impl EdgedGraph<Position, u32> for FullyConnectedGraph {
    fn edges(&self, &(x1, y1): &Position, &(x2, y2): &Position) -> Vec<u32> {
        vec![(x2 - x1).abs() as u32 + (y2 - y1).pow(2) as u32]
    }
}

/// A graph given by the list of its edges, each with a weight.
struct ListGraph {
    edges: Vec<(u8, u8, u32)>,
}

impl Graph<u8> for ListGraph {
    fn neighbors(&self, vertex: &u8) -> Vec<u8> {
        self.edges.iter().filter(|e| e.0 == *vertex).map(|e| e.1).collect()
    }
}

impl EdgedGraph<u8, u32> for ListGraph {
    fn edges(&self, vertex: &u8, other: &u8) -> Vec<u32> {
        self.edges.iter().filter(|e| e.0 == *vertex && e.1 == *other).map(|e| e.2).collect()
    }
}

#[test]
fn test_simple_lattice_graph() {
    let graph = LatticeGraph { blocked: vec![(0, 1)] };

    let mut bfs_traverser = graph.bfs(&(0, 0));
    let path = bfs_traverser.construct_path(&(0, 5)).unwrap();

    assert_eq!(path[0], (0, 0));
    assert_eq!(path.len(), 8);
    assert_eq!(path[7], (0, 5));
}

#[test]
fn test_dijkstra_astar_algorithm() {
    let graph = FullyConnectedGraph {
        vertices: vec![(0, 0), (0, 10), (2, 5), (4, 7), (10, 0), (10, 10)],
    };

    let mut dijkstra_traverser = graph.dijkstra(&(0, 0));
    let path = dijkstra_traverser.construct_path(&(10, 10)).unwrap();

    assert_eq!(path, [(0, 0), (2, 5), (4, 7), (10, 10)]);

    let mut astar_traverser = graph.astar(&(0, 0), |v| graph.edges(&(0, 0), v)[0]);

    let astar_path = astar_traverser.construct_path(&(10, 10)).unwrap();

    assert_eq!(astar_path, path);
}

#[test]
fn test_dfs_postordering() {
    let graph = NumberGraph { max: 10 };

    let mut traverser = graph.dfs(&1);
    let mut post_iter = traverser.post_iter();
    let mut topological_order = Vec::new();
    while let Some(vertex) = post_iter.next() {
        topological_order.push(vertex);
    }
    topological_order.reverse();
}

#[test]
fn lattice_path_is_a_shortest_walk() {
    let graph = LatticeGraph { blocked: vec![(0, 1)] };
    let path = graph.bfs(&(0, 0)).construct_path(&(0, 5)).unwrap();
    assert_eq!(path.len(), 8);
    for pair in path.windows(2) {
        assert!(graph.neighbors(&pair[0]).contains(&pair[1]));
    }
    assert!(!path.contains(&(0, 1)));
}

#[test]
fn path_to_the_start_is_the_start() {
    let lattice = LatticeGraph { blocked: vec![] };
    assert_eq!(lattice.bfs(&(3, 4)).construct_path(&(3, 4)), Some(vec![(3, 4)]));
    let numbers = NumberGraph { max: 10 };
    assert_eq!(numbers.dfs(&1).construct_path(&1), Some(vec![1]));
    let list = ListGraph { edges: vec![(1, 2, 5), (2, 1, 5)] };
    assert_eq!(list.dijkstra(&1).construct_path(&1), Some(vec![1]));
    assert_eq!(list.bfs(&7).construct_path(&7), Some(vec![7]));
    let mut traverser = list.bfs(&1);
    assert_eq!(traverser.next(), Some(1));
    assert_eq!(traverser.next(), Some(2));
    assert_eq!(traverser.construct_path(&1), Some(vec![1]));
}

#[test]
fn next_after_exhaustion_stays_none() {
    let list = ListGraph { edges: vec![(1, 2, 5), (2, 3, 1)] };
    let mut bfs = list.bfs(&1);
    assert_eq!(bfs.next(), Some(1));
    assert_eq!(bfs.next(), Some(2));
    assert_eq!(bfs.next(), Some(3));
    for _ in 0..3 {
        assert_eq!(bfs.next(), None);
        assert_eq!(bfs.predecessor(&3), Some(2));
        assert_eq!(bfs.predecessor(&2), Some(1));
        assert_eq!(bfs.predecessor(&1), None);
        assert_eq!(bfs.first(), 1);
    }
    let mut dfs = list.dfs(&1);
    assert_eq!(dfs.next(), Some(1));
    assert_eq!(dfs.next(), Some(2));
    assert_eq!(dfs.next(), Some(3));
    for _ in 0..3 {
        assert_eq!(dfs.next(), None);
        assert_eq!(dfs.predecessor(&3), Some(2));
    }
    let mut dijkstra = list.dijkstra(&1);
    assert_eq!(dijkstra.next(), Some(1));
    assert_eq!(dijkstra.next(), Some(2));
    assert_eq!(dijkstra.next(), Some(3));
    for _ in 0..3 {
        assert_eq!(dijkstra.next(), None);
        assert_eq!(dijkstra.predecessor(&3), Some(2));
    }
}

#[test]
fn unreachable_target_gives_no_path() {
    let list = ListGraph { edges: vec![(1, 2, 5), (3, 1, 1)] };
    assert_eq!(list.bfs(&1).construct_path(&3), None);
    assert_eq!(list.dfs(&1).construct_path(&3), None);
    assert_eq!(list.dijkstra(&1).construct_path(&3), None);
    assert_eq!(list.bfs(&1).construct_path(&9), None);
    let mut traverser = list.bfs(&1);
    assert_eq!(traverser.construct_path(&3), None);
    assert_eq!(traverser.next(), None);
    assert_eq!(traverser.construct_path(&2), Some(vec![1, 2]));
}

#[test]
fn bfs_takes_the_way_with_fewest_edges() {
    let list = ListGraph {
        edges: vec![(1, 2, 1), (2, 3, 1), (3, 4, 1), (1, 5, 9), (5, 4, 9), (4, 6, 1)],
    };
    assert_eq!(list.bfs(&1).construct_path(&4), Some(vec![1, 5, 4]));
    assert_eq!(list.bfs(&1).construct_path(&6), Some(vec![1, 5, 4, 6]));
    let mut traverser = list.bfs(&1);
    let mut order = Vec::new();
    while let Some(vertex) = traverser.next() {
        order.push(vertex);
    }
    assert_eq!(order, vec![1, 2, 5, 3, 4, 6]);
}

#[test]
fn dijkstra_takes_the_cheapest_way() {
    let list = ListGraph {
        edges: vec![(1, 2, 1), (2, 3, 1), (3, 4, 1), (1, 5, 9), (5, 4, 9), (4, 6, 1), (1, 4, 4)],
    };
    assert_eq!(list.dijkstra(&1).construct_path(&4), Some(vec![1, 2, 3, 4]));
    assert_eq!(list.dijkstra(&1).construct_path(&6), Some(vec![1, 2, 3, 4, 6]));
    assert_eq!(list.dijkstra(&1).construct_path(&5), Some(vec![1, 5]));
    let mut traverser = list.dijkstra(&1);
    let mut order = Vec::new();
    while let Some(vertex) = traverser.next() {
        order.push(vertex);
    }
    assert_eq!(order, vec![1, 2, 3, 4, 4, 6, 5]);
}

#[test]
fn dijkstra_takes_the_cheapest_of_parallel_edges() {
    let list = ListGraph { edges: vec![(1, 2, 7), (1, 2, 2), (1, 2, 5), (2, 3, 1), (1, 3, 4)] };
    assert_eq!(list.dijkstra(&1).construct_path(&3), Some(vec![1, 2, 3]));
    let heavy = ListGraph { edges: vec![(1, 2, 7), (1, 2, 5), (2, 3, 1), (1, 3, 4)] };
    assert_eq!(heavy.dijkstra(&1).construct_path(&3), Some(vec![1, 3]));
}

#[test]
fn dijkstra_lowers_a_cost_that_it_recorded() {
    let list = ListGraph { edges: vec![(1, 2, 10), (1, 3, 1), (3, 2, 2), (2, 4, 1)] };
    let mut traverser = list.dijkstra(&1);
    assert_eq!(traverser.next(), Some(1));
    assert_eq!(traverser.predecessor(&2), Some(1));
    assert_eq!(traverser.next(), Some(3));
    assert_eq!(traverser.predecessor(&2), Some(3));
    assert_eq!(traverser.next(), Some(2));
    assert_eq!(traverser.next(), Some(4));
    assert_eq!(traverser.next(), Some(2));
    assert_eq!(traverser.next(), None);
    assert_eq!(traverser.construct_path(&4), Some(vec![1, 3, 2, 4]));
}

#[test]
fn astar_with_zero_estimate_is_dijkstra() {
    let graph = FullyConnectedGraph {
        vertices: vec![(0, 0), (0, 10), (2, 5), (4, 7), (10, 0), (10, 10)],
    };
    let mut dijkstra = graph.dijkstra(&(0, 0));
    let mut astar = graph.astar(&(0, 0), |_v| 0);
    loop {
        let expected = dijkstra.next();
        assert_eq!(astar.next(), expected);
        for vertex in graph.vertices.iter() {
            assert_eq!(astar.predecessor(vertex), dijkstra.predecessor(vertex));
        }
        if expected.is_none() {
            break;
        }
    }
    for vertex in graph.vertices.iter() {
        assert_eq!(astar.construct_path(vertex), dijkstra.construct_path(vertex));
    }
}

#[test]
fn astar_follows_its_estimate() {
    let list = ListGraph { edges: vec![(1, 2, 1), (1, 3, 2), (2, 4, 5), (3, 4, 1)] };
    let mut plain = list.dijkstra(&1);
    assert_eq!(plain.next(), Some(1));
    assert_eq!(plain.next(), Some(2));
    let mut guided = list.astar(&1, |v: &u8| if *v == 2 { 10 } else { 0 });
    assert_eq!(guided.next(), Some(1));
    assert_eq!(guided.next(), Some(3));
    assert_eq!(guided.next(), Some(4));
    assert_eq!(guided.next(), Some(2));
    assert_eq!(guided.next(), None);
    assert_eq!(guided.construct_path(&4), Some(vec![1, 3, 4]));
}

#[test]
fn dfs_goes_deep_first() {
    let list = ListGraph { edges: vec![(1, 2, 1), (1, 3, 1), (2, 4, 1), (3, 5, 1), (4, 5, 1)] };
    let mut traverser = list.dfs(&1);
    let mut order = Vec::new();
    while let Some(vertex) = traverser.next() {
        order.push(vertex);
    }
    assert_eq!(order, vec![1, 3, 5, 2, 4]);
    assert_eq!(traverser.predecessor(&5), Some(3));
    assert_eq!(traverser.predecessor(&4), Some(2));
    assert_eq!(traverser.predecessor(&1), None);
    assert_eq!(traverser.construct_path(&4), Some(vec![1, 2, 4]));
}

#[test]
fn dfs_reports_entering_and_leaving() {
    let list = ListGraph { edges: vec![(1, 2, 1), (1, 3, 1), (3, 2, 1)] };
    let mut traverser = list.dfs(&1);
    let mut events = Vec::new();
    let mut iter = traverser.pre_post_iter();
    while let Some(event) = iter.next() {
        events.push(event);
    }
    assert_eq!(
        events,
        vec![
            PrePostItem::PreorderItem(1),
            PrePostItem::PreorderItem(3),
            PrePostItem::PreorderItem(2),
            PrePostItem::PostorderItem(2),
            PrePostItem::PostorderItem(3),
            PrePostItem::PostorderItem(1),
        ]
    );
    assert_eq!(traverser.next(), None);
}

#[test]
fn dfs_postorder_of_the_multiples() {
    let graph = NumberGraph { max: 10 };
    let mut traverser = graph.dfs(&1);
    let mut post_iter = traverser.post_iter();
    let mut order = Vec::new();
    while let Some(vertex) = post_iter.next() {
        order.push(vertex);
    }
    assert_eq!(order, vec![9, 8, 7, 6, 10, 5, 4, 3, 2, 1]);
}

#[test]
fn dfs_leaves_each_vertex_of_a_cycle_once() {
    let list = ListGraph { edges: vec![(1, 2, 1), (2, 1, 1)] };
    let mut traverser = list.dfs(&1);
    let mut events = Vec::new();
    while let Some(event) = traverser.next_pre_post() {
        events.push(event);
    }
    assert_eq!(
        events,
        vec![
            PrePostItem::PreorderItem(1),
            PrePostItem::PreorderItem(2),
            PrePostItem::PostorderItem(1),
            PrePostItem::PostorderItem(2),
        ]
    );
}

#[test]
fn handles_pull_vertices_and_predecessors() {
    let list = ListGraph { edges: vec![(1, 2, 1), (2, 3, 1)] };
    let mut traverser = list.bfs(&1);
    {
        let mut iter = traverser.iter();
        assert_eq!(iter.next(), Some(1));
        assert_eq!(iter.next(), Some(2));
    }
    {
        let mut iter = Iter::new(&mut traverser);
        assert_eq!(iter.next(), Some(3));
        assert_eq!(iter.next(), None);
    }
    let mut back = traverser.predecessor_iter(&3);
    assert_eq!(back.next(), Some(3));
    assert_eq!(back.next(), Some(2));
    assert_eq!(back.next(), Some(1));
    assert_eq!(back.next(), None);
    assert_eq!(back.next(), None);
    let mut other = PredecessorIter::new(&traverser, 9);
    assert_eq!(other.next(), Some(9));
    assert_eq!(other.next(), None);
}

#[test]
fn cycles_are_found() {
    let line = ListGraph { edges: vec![(1, 2, 1), (2, 3, 1)] };
    assert!(!line.dfs(&1).is_cyclic());
    let ring = ListGraph { edges: vec![(1, 2, 1), (2, 3, 1), (3, 1, 1)] };
    assert!(ring.dfs(&1).is_cyclic());
    let own = ListGraph { edges: vec![(1, 1, 1)] };
    assert!(own.dfs(&1).is_cyclic());
    let lonely = ListGraph { edges: vec![] };
    assert!(!lonely.dfs(&1).is_cyclic());
    let tree = ListGraph { edges: vec![(1, 2, 1), (1, 3, 1), (2, 4, 1), (2, 5, 1)] };
    assert!(!tree.dfs(&1).is_cyclic());
}

#[test]
fn two_ways_to_one_vertex_count_as_a_cycle() {
    let diamond = ListGraph { edges: vec![(1, 2, 1), (1, 3, 1), (2, 4, 1), (3, 4, 1)] };
    assert!(diamond.dfs(&1).is_cyclic());
    let mut started = diamond.dfs(&1);
    assert_eq!(started.next(), Some(1));
    assert_eq!(started.next(), Some(3));
    assert_eq!(started.next(), Some(4));
    assert!(started.is_cyclic());
}
