use cp_library::graph::dijkstra;

#[test]
fn shortest_paths_with_repeated_updates() {
    let graph = vec![
        vec![(1, 10), (2, 1)],
        vec![(3, 2)],
        vec![(1, 2), (3, 8)],
        vec![],
        vec![],
    ];
    assert_eq!(dijkstra(&graph, 0), vec![0, 3, 1, 5, usize::MAX]);
}

#[test]
fn zero_cost_cycles_parallel_edges_and_nonzero_start() {
    let graph = vec![vec![(1, 0)], vec![(0, 0), (1, 0), (2, 8), (2, 3)], vec![]];
    assert_eq!(dijkstra(&graph, 1), vec![0, 0, 3]);
    assert_eq!(dijkstra(&graph, 2), vec![usize::MAX, usize::MAX, 0]);
}

#[test]
fn single_vertex() {
    assert_eq!(dijkstra(&[vec![]], 0), vec![0]);
}

#[test]
fn large_costs_do_not_wrap() {
    let graph = vec![
        vec![(1, usize::MAX - 1), (2, 5), (3, usize::MAX)],
        vec![(2, 10), (3, 1)],
        vec![],
        vec![],
    ];
    assert_eq!(dijkstra(&graph, 0), vec![0, usize::MAX - 1, 5, usize::MAX]);
}

#[test]
fn dijkstra_readme_example() {
    let graph = vec![vec![(1, 4), (2, 1)], vec![], vec![(1, 2)], vec![]];
    assert_eq!(dijkstra(&graph, 0), vec![0, 3, 1, usize::MAX]);
}
