use dining_philosophers::BipartiteGraph;

fn sorted(mut v: Vec<usize>) -> Vec<usize> {
    v.sort();
    v
}

#[test]
fn new_graph_is_empty() {
    let g = BipartiteGraph::new();
    assert_eq!(g.num_a_nodes(), 0);
    assert_eq!(g.num_b_nodes(), 0);
    assert_eq!(g.num_nonisolated_b_nodes(), 0);
    assert!(g.all_a_nodes_sorted().is_empty());
    assert!(!g.contains_edge(&0, &0));
}

#[test]
fn add_a_counts_each_node_once() {
    let mut g = BipartiteGraph::new();
    g.add_a(7);
    g.add_a(3);
    g.add_a(7);
    assert_eq!(g.num_a_nodes(), 2);
    assert_eq!(g.num_b_nodes(), 0);
    assert!(g.contains_a(&3));
    assert!(g.contains_a(&7));
    assert!(!g.contains_a(&5));
    assert_eq!(g.all_a_nodes_sorted(), vec![3, 7]);
}

#[test]
fn add_b_counts_each_node_once() {
    let mut g = BipartiteGraph::new();
    g.add_b(1);
    g.add_b(1);
    g.add_b(2);
    assert_eq!(g.num_b_nodes(), 2);
    assert_eq!(g.num_a_nodes(), 0);
    // nodes without edges are isolated
    assert_eq!(g.num_nonisolated_b_nodes(), 0);
}

#[test]
fn add_edge_adds_missing_nodes() {
    let mut g = BipartiteGraph::new();
    g.add_edge(10, 20);
    assert_eq!(g.num_a_nodes(), 1);
    assert_eq!(g.num_b_nodes(), 1);
    assert!(g.contains_a(&10));
    assert!(g.contains_edge(&10, &20));
    assert!(!g.contains_edge(&20, &10));
    // adding the same edge again changes nothing
    g.add_edge(10, 20);
    assert_eq!(g.count_neighbors_a(&10), 1);
    assert_eq!(g.neighbors_b(&20), vec![10]);
}

#[test]
fn contains_edge_is_directional() {
    let mut g = BipartiteGraph::new();
    g.add_a(1);
    g.add_b(2);
    assert!(!g.contains_edge(&1, &2));
    g.add_edge(1, 2);
    assert!(g.contains_edge(&1, &2));
    assert!(!g.contains_edge(&2, &1));
    assert!(!g.contains_edge(&1, &1));
}

#[test]
fn neighbors_of_both_sides() {
    let mut g = BipartiteGraph::new();
    g.add_edge(0, 5);
    g.add_edge(0, 6);
    g.add_edge(1, 6);
    g.add_edge(0, 5);
    assert_eq!(sorted(g.neighbors_a(&0)), vec![5, 6]);
    assert_eq!(sorted(g.neighbors_a(&1)), vec![6]);
    assert!(g.neighbors_a(&2).is_empty());
    assert_eq!(sorted(g.neighbors_b(&6)), vec![0, 1]);
    assert_eq!(sorted(g.neighbors_b(&5)), vec![0]);
    assert!(g.neighbors_b(&7).is_empty());
    assert_eq!(g.count_neighbors_a(&0), 2);
    assert_eq!(g.count_neighbors_a(&1), 1);
    assert_eq!(g.count_neighbors_a(&9), 0);
}

#[test]
fn nonisolated_b_nodes_are_counted() {
    let mut g = BipartiteGraph::new();
    for b in 0..4 {
        g.add_b(b);
    }
    g.add_a(100);
    g.add_edge(100, 1);
    g.add_edge(100, 3);
    g.add_edge(101, 3);
    assert_eq!(g.num_b_nodes(), 4);
    assert_eq!(g.num_nonisolated_b_nodes(), 2);
    assert_eq!(g.num_a_nodes(), 2);
}

#[test]
fn all_a_nodes_sorted_is_increasing() {
    let mut g = BipartiteGraph::new();
    for a in [9, 2, 5, 2, 0] {
        g.add_a(a);
    }
    assert_eq!(g.all_a_nodes_sorted(), vec![0, 2, 5, 9]);
}
