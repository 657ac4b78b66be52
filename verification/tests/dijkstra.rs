use classic_algos::shortest_path::{dijkstra, graph_is_well_formed, try_shortest_paths, GraphError};

#[test]
fn test_simple_graph() {
    // 0 --1-- 1 --2-- 2
    let graph = vec![vec![(1, 1)], vec![(0, 1), (2, 2)], vec![(1, 2)]];
    assert_eq!(dijkstra(&graph, 0), vec![0, 1, 3]);
}

#[test]
fn test_single_node() {
    let graph = vec![vec![]];
    assert_eq!(dijkstra(&graph, 0), vec![0]);
}

#[test]
fn test_disconnected() {
    // 0 -- 1    2 (disconnected)
    let graph = vec![vec![(1, 1)], vec![(0, 1)], vec![]];
    assert_eq!(dijkstra(&graph, 0), vec![0, 1, usize::MAX]);
}

#[test]
fn test_shortest_of_multiple_paths() {
    // 0 --10-- 2
    // |        |
    // 1        1
    // |        |
    // 1 --1--- 2
    // Path 0->2 direct = 10, path 0->1->2 = 2
    let graph = vec![
        vec![(1, 1), (2, 10)],
        vec![(0, 1), (2, 1)],
        vec![(0, 10), (1, 1)],
    ];
    assert_eq!(dijkstra(&graph, 0), vec![0, 1, 2]);
}

#[test]
fn test_from_different_start() {
    let graph = vec![vec![(1, 5)], vec![(0, 5), (2, 3)], vec![(1, 3)]];
    assert_eq!(dijkstra(&graph, 2), vec![8, 3, 0]);
}

#[test]
fn test_graph_with_cycle() {
    // 0 -> 1 -> 2 -> 0 (cycle)
    let graph = vec![vec![(1, 1)], vec![(2, 1)], vec![(0, 1)]];
    assert_eq!(dijkstra(&graph, 0), vec![0, 1, 2]);
}

#[test]
fn test_square_with_cross_edges() {
    //     1
    //   0 --- 1
    //   |     |
    // 4 |     | 2
    //   |     |
    //   2 --- 3
    //     1
    let graph = vec![
        vec![(1, 1), (2, 4)],
        vec![(0, 1), (3, 2)],
        vec![(0, 4), (3, 1)],
        vec![(1, 2), (2, 1)],
    ];
    assert_eq!(dijkstra(&graph, 0), vec![0, 1, 4, 3]);
}

#[test]
fn test_identical_graphs_same_table() {
    // Two structurally identical instances give identical tables.
    let g1 = vec![vec![(1, 2), (2, 7)], vec![(2, 3)], vec![]];
    let g2 = vec![vec![(1, 2), (2, 7)], vec![(2, 3)], vec![]];
    assert_eq!(dijkstra(&g1, 0), dijkstra(&g2, 0));
}

#[test]
fn test_parallel_edges() {
    // The cheaper of two parallel edges wins.
    let graph = vec![vec![(1, 9), (1, 2)], vec![]];
    assert_eq!(dijkstra(&graph, 0), vec![0, 2]);
}

#[test]
fn test_well_formedness_check() {
    let good = vec![vec![(1, 1)], vec![]];
    assert!(graph_is_well_formed(&good));
    let bad = vec![vec![(2, 1)], vec![]];
    assert!(!graph_is_well_formed(&bad));
}

#[test]
fn test_try_shortest_paths_ok() {
    let graph = vec![vec![(1, 1)], vec![(0, 1), (2, 2)], vec![(1, 2)]];
    assert_eq!(try_shortest_paths(&graph, 0), Ok(vec![0, 1, 3]));
}

#[test]
fn test_try_shortest_paths_invalid_source() {
    let graph = vec![vec![(1, 1)], vec![]];
    assert_eq!(try_shortest_paths(&graph, 2), Err(GraphError::InvalidSource));
}

#[test]
fn test_try_shortest_paths_invalid_edge_target() {
    let graph = vec![vec![(5, 1)], vec![]];
    assert_eq!(try_shortest_paths(&graph, 0), Err(GraphError::InvalidEdgeTarget));
}
