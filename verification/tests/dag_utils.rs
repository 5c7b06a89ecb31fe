use dining_philosophers::{DagError, MyDAG};
use petgraph::stable_graph::StableGraph;
use petgraph::Directed;
use std::collections::HashMap;

type TaskGraph = StableGraph<(), (), Directed, u32>;

/// A graph with `n` nodes and the given edges, and data `names[i]` at node `i`.
fn graph_with(names: &[&'static str], edges: &[(usize, usize)]) -> (TaskGraph, HashMap<usize, &'static str>) {
    let mut g = TaskGraph::with_capacity(0, 0);
    let mut data = HashMap::new();
    for name in names {
        let i = g.add_node(()).index();
        data.insert(i, *name);
    }
    for (a, b) in edges {
        g.add_edge((*a as u32).into(), (*b as u32).into(), ());
    }
    (g, data)
}

fn dag_of(names: &[&'static str], edges: &[(usize, usize)]) -> MyDAG<&'static str> {
    let (g, data) = graph_with(names, edges);
    match MyDAG::try_from_graph(g, data) {
        Ok(d) => d,
        Err(_) => panic!("the graph is a DAG"),
    }
}

fn all_layers(mut d: MyDAG<&'static str>) -> Vec<Vec<&'static str>> {
    let mut layers = vec![];
    while !d.is_empty() {
        layers.push(d.peel_front());
    }
    layers
}

#[test]
fn new_dag_is_empty() {
    let mut d: MyDAG<u8> = MyDAG::new();
    assert!(d.is_empty());
    assert!(d.peel_front().is_empty());
    assert!(d.is_empty());
}

#[test]
fn all_parallel_is_one_layer() {
    let mut d = MyDAG::all_parallel(vec!["a", "b", "c"]);
    assert!(!d.is_empty());
    assert_eq!(d.peel_front(), vec!["a", "b", "c"]);
    assert!(d.is_empty());
    assert!(MyDAG::<u8>::all_parallel(vec![]).is_empty());
}

#[test]
fn peel_front_respects_edges_to_lower_indices() {
    // 2 -> 1 -> 0: each node waits for the one before it
    let d = dag_of(&["x", "y", "z"], &[(2, 1), (1, 0)]);
    assert_eq!(all_layers(d), vec![vec!["z"], vec!["y"], vec!["x"]]);
}

#[test]
fn peel_front_keeps_dependents_for_later_layers() {
    // 0 -> 1 -> 2: taking out node 0 does not let node 1 into the same layer
    let d = dag_of(&["x", "y", "z"], &[(0, 1), (1, 2)]);
    assert_eq!(all_layers(d), vec![vec!["x"], vec!["y"], vec!["z"]]);
}

#[test]
fn peel_front_diamond() {
    // 3 -> 1, 3 -> 2, 1 -> 0, 2 -> 0
    let d = dag_of(&["bottom", "left", "right", "top"], &[(3, 1), (3, 2), (1, 0), (2, 0)]);
    assert_eq!(
        all_layers(d),
        vec![vec!["top"], vec!["left", "right"], vec!["bottom"]]
    );
}

#[test]
fn try_from_graph_refuses_cycles() {
    let (g, data) = graph_with(&["a", "b", "c"], &[(0, 1), (1, 0)]);
    match MyDAG::try_from_graph(g, data) {
        Err(DagError::Cycle(node)) => assert!(node == 0 || node == 1),
        _ => panic!("a cycle is refused"),
    }
    let (g, data) = graph_with(&["a"], &[(0, 0)]);
    assert!(matches!(MyDAG::try_from_graph(g, data), Err(DagError::Cycle(0))));
}

#[test]
fn try_from_graph_refuses_missing_data() {
    let (g, mut data) = graph_with(&["a", "b"], &[(0, 1)]);
    data.remove(&1);
    assert!(matches!(MyDAG::try_from_graph(g, data), Err(DagError::DataMismatch)));
    let (g, mut data) = graph_with(&["a", "b"], &[(0, 1)]);
    data.insert(5, "extra");
    assert!(matches!(MyDAG::try_from_graph(g, data), Err(DagError::DataMismatch)));
}

#[test]
fn post_compose_runs_other_after_self() {
    let mut first = MyDAG::all_parallel(vec!["a", "b"]);
    let second = MyDAG::all_parallel(vec!["c", "d"]);
    first.post_compose(second);
    assert_eq!(all_layers(first), vec![vec!["a", "b"], vec!["c", "d"]]);
}

#[test]
fn post_compose_links_ends_to_starts() {
    // first: 1 -> 0, so only "p" (node 0) ends it; second: 1 -> 0, so only "s" (node 1) starts it
    let mut first = dag_of(&["p", "q"], &[(1, 0)]);
    let second = dag_of(&["r", "s"], &[(1, 0)]);
    first.post_compose(second);
    assert_eq!(
        all_layers(first),
        vec![vec!["q"], vec!["p"], vec!["s"], vec!["r"]]
    );
}

#[test]
fn post_compose_onto_empty() {
    let mut first: MyDAG<&'static str> = MyDAG::new();
    first.post_compose(MyDAG::all_parallel(vec!["a"]));
    assert_eq!(all_layers(first), vec![vec!["a"]]);
}

#[test]
fn coproduct_runs_side_by_side() {
    let mut left = dag_of(&["l0", "l1"], &[(1, 0)]);
    let right = dag_of(&["r0", "r1"], &[(1, 0)]);
    left.coproduct(right);
    assert_eq!(
        all_layers(left),
        vec![vec!["l1", "r1"], vec!["l0", "r0"]]
    );
}

#[test]
fn counts_of_nodes_and_edges() {
    let d = dag_of(&["a", "b", "c"], &[(0, 1), (0, 2), (0, 1)]);
    assert_eq!(d.node_count(), 3);
    assert_eq!(d.edge_count(), 3);
    let mut first = MyDAG::all_parallel(vec!["a", "b"]);
    first.post_compose(MyDAG::all_parallel(vec!["c", "d", "e"]));
    assert_eq!(first.node_count(), 5);
    assert_eq!(first.edge_count(), 6);
}
