use cp_library::graph::FunctionalGraph;

#[test]
fn extracts_multiple_cycles_without_incoming_trees() {
    let graph = FunctionalGraph::new(vec![1, 2, 1, 4, 3, 4, 6, 0, 0]);
    let expected = vec![vec![1, 2], vec![3, 4], vec![6]];
    assert_eq!(graph.cycles(), expected);
    assert_eq!(graph.cycles(), expected);
    assert_eq!(graph.len(), 9);
    assert!(!graph.is_empty());
    assert_eq!(graph.next(7), 0);
}

#[test]
fn preserves_edge_order() {
    let graph = FunctionalGraph::new(vec![2, 0, 1]);
    assert_eq!(graph.cycles(), vec![vec![0, 2, 1]]);
}

#[test]
fn functional_graph_empty_graph() {
    let graph = FunctionalGraph::new(vec![]);
    assert!(graph.is_empty());
    assert_eq!(graph.len(), 0);
    assert!(graph.cycles().is_empty());
}

#[test]
fn self_loops() {
    assert_eq!(FunctionalGraph::new(vec![0]).cycles(), vec![vec![0]]);
    assert_eq!(
        FunctionalGraph::new(vec![0, 1, 2]).cycles(),
        vec![vec![0], vec![1], vec![2]]
    );
}

#[test]
fn long_chain_is_iterative() {
    let n = 100_000;
    let mut next: Vec<_> = (1..=n).collect();
    next[n - 1] = n - 1;
    assert_eq!(FunctionalGraph::new(next).cycles(), vec![vec![n - 1]]);
}

#[test]
fn functional_graph_readme_example() {
    let graph = FunctionalGraph::new(vec![1, 2, 1, 4, 3, 4, 6]);
    assert_eq!(graph.cycles(), vec![vec![1, 2], vec![3, 4], vec![6]]);
    assert_eq!(graph.next(0), 1);
}

#[test]
fn cycle_starts_at_its_smallest_vertex() {
    let graph = FunctionalGraph::new(vec![3, 0, 1, 2, 4]);
    assert_eq!(graph.cycles(), vec![vec![0, 3, 2, 1], vec![4]]);
}
