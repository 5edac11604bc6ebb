use algorithms::adjacency_list::{dfs, GraphEdge, WeightedAdjacencyList};
use algorithms::adjacency_matrix::{bfs, WeightedAdjacencyMatrix};
use algorithms::dijkstra_list::dijkstra_list;
use algorithms::paths::reversed;

#[test]
fn tets_dfs() {
    //     >(1)<--->(4) ---->(5)
    //    /          |       /|
    // (0)     ------|------- |
    //    \   v      v        v
    //     >(2) --> (3) <----(6)
    let list = WeightedAdjacencyList {
        list: vec![
            vec![
                GraphEdge { to: 1, weight: 3 },
                GraphEdge { to: 2, weight: 1 },
            ],
            vec![GraphEdge { to: 4, weight: 1 }],
            vec![GraphEdge { to: 3, weight: 7 }],
            vec![],
            vec![
                GraphEdge { to: 1, weight: 1 },
                GraphEdge { to: 3, weight: 5 },
                GraphEdge { to: 5, weight: 2 },
            ],
            vec![
                GraphEdge { to: 2, weight: 18 },
                GraphEdge { to: 6, weight: 1 },
            ],
            vec![GraphEdge { to: 3, weight: 1 }],
        ],
    };

    assert_eq!(dfs(list.clone(), 0, 6), vec![0, 1, 4, 5, 6]);
    assert_eq!(dfs(list, 6, 0), vec![]);
}

#[test]
fn adjacency_matrix_test_bfs() {
    let graph = WeightedAdjacencyMatrix {
        matrix: vec![
            vec![None, Some(1), Some(2), None, None, None],
            vec![Some(1), None, None, Some(3), None, None],
            vec![Some(2), None, None, Some(4), Some(5), None],
            vec![None, Some(3), Some(4), None, Some(6), Some(7)],
            vec![None, None, Some(5), Some(6), None, Some(8)],
            vec![None, None, None, Some(7), Some(8), None],
        ],
    };
    assert_eq!(bfs(graph.clone(), 0, 4), vec![0, 2, 4]);
    assert_eq!(bfs(graph, 0, 9), vec![]);

    let graph = WeightedAdjacencyMatrix {
        matrix: vec![
            vec![None, Some(3), Some(1), None, None, None, None],
            vec![None, None, None, None, Some(1), None, None],
            vec![None, None, Some(7), None, None, None, None],
            vec![None, None, None, None, None, None, None],
            vec![None, Some(1), None, Some(5), None, Some(2), None],
            vec![None, None, Some(18), None, None, None, Some(1)],
            vec![None, None, None, Some(1), None, None, Some(1)],
        ],
    };

    assert_eq!(bfs(graph.clone(), 0, 6), vec![0, 1, 4, 5, 6]);
    assert_eq!(bfs(graph, 6, 0), vec![])
}

#[test]
fn dijkstra_list_test() {
    //      (1) --- (4) ---- (5)
    //    /  |       |       /|
    // (0)   | ------|------- |
    //    \  |/      |        |
    //      (2) --- (3) ---- (6)
    let list = WeightedAdjacencyList {
        list: vec![
            vec![
                GraphEdge { to: 1, weight: 3 },
                GraphEdge { to: 2, weight: 1 },
            ],
            vec![
                GraphEdge { to: 0, weight: 3 },
                GraphEdge { to: 2, weight: 4 },
                GraphEdge { to: 4, weight: 1 },
            ],
            vec![
                GraphEdge { to: 1, weight: 4 },
                GraphEdge { to: 3, weight: 7 },
                GraphEdge { to: 0, weight: 1 },
            ],
            vec![
                GraphEdge { to: 2, weight: 7 },
                GraphEdge { to: 4, weight: 5 },
                GraphEdge { to: 6, weight: 1 },
            ],
            vec![
                GraphEdge { to: 1, weight: 1 },
                GraphEdge { to: 3, weight: 5 },
                GraphEdge { to: 5, weight: 2 },
            ],
            vec![
                GraphEdge { to: 6, weight: 1 },
                GraphEdge { to: 4, weight: 2 },
                GraphEdge { to: 2, weight: 18 },
            ],
            vec![
                GraphEdge { to: 3, weight: 1 },
                GraphEdge { to: 5, weight: 1 },
            ],
        ],
    };

    assert_eq!(dijkstra_list(0, 6, list), vec![0, 1, 4, 5, 6])
}

#[test]
fn dfs_from_a_node_to_itself() {
    let list = WeightedAdjacencyList {
        list: vec![vec![GraphEdge { to: 1, weight: 1 }], vec![]],
    };
    assert_eq!(dfs(list.clone(), 0, 0), vec![0]);
    assert_eq!(dfs(list.clone(), 0, 1), vec![0, 1]);
    assert_eq!(dfs(list, 1, 0), vec![]);
}

#[test]
fn bfs_takes_the_way_of_fewest_edges() {
    // 0 -> 1 -> 2 -> 3 and 0 -> 3
    let graph = WeightedAdjacencyMatrix {
        matrix: vec![
            vec![None, Some(1), None, Some(9)],
            vec![None, None, Some(1), None],
            vec![None, None, None, Some(1)],
            vec![None, None, None, None],
        ],
    };
    assert_eq!(bfs(graph.clone(), 0, 3), vec![0, 3]);
    assert_eq!(bfs(graph.clone(), 0, 2), vec![0, 1, 2]);
    // from a node to itself nothing is found
    assert_eq!(bfs(graph.clone(), 0, 0), vec![]);
    assert_eq!(bfs(graph, 3, 0), vec![]);
}

#[test]
fn dijkstra_takes_the_way_of_least_weight() {
    // 0 -> 1 -> 2 -> 3 weighs 3, 0 -> 3 weighs 9
    let list = WeightedAdjacencyList {
        list: vec![
            vec![
                GraphEdge { to: 3, weight: 9 },
                GraphEdge { to: 1, weight: 1 },
            ],
            vec![GraphEdge { to: 2, weight: 1 }],
            vec![GraphEdge { to: 3, weight: 1 }],
            vec![],
        ],
    };
    assert_eq!(dijkstra_list(0, 3, list.clone()), vec![0, 1, 2, 3]);
    assert_eq!(dijkstra_list(3, 0, list.clone()), vec![]);
    assert_eq!(dijkstra_list(0, 0, list.clone()), vec![]);
    assert_eq!(dijkstra_list(0, 7, list), vec![]);
}

#[test]
fn reversed_turns_the_order_round() {
    assert_eq!(reversed(vec![1, 2, 3]), vec![3, 2, 1]);
    assert_eq!(reversed(vec![]), vec![]);
    assert_eq!(reversed(vec![7]), vec![7]);
}

#[test]
fn dijkstra_takes_a_heavy_edge_where_the_weights_fit() {
    // one edge weighs almost all that a usize can hold
    let list = WeightedAdjacencyList {
        list: vec![
            vec![GraphEdge { to: 1, weight: usize::MAX - 10 }],
            vec![GraphEdge { to: 2, weight: 5 }],
            vec![],
        ],
    };
    assert_eq!(dijkstra_list(0, 2, list.clone()), vec![0, 1, 2]);
    assert_eq!(dijkstra_list(0, 1, list), vec![0, 1]);
}

#[test]
fn dijkstra_takes_the_lighter_of_two_edges_between_two_nodes() {
    let list = WeightedAdjacencyList {
        list: vec![
            vec![
                GraphEdge { to: 1, weight: 9 },
                GraphEdge { to: 2, weight: 3 },
                GraphEdge { to: 1, weight: 2 },
            ],
            vec![GraphEdge { to: 3, weight: 2 }],
            vec![GraphEdge { to: 3, weight: 2 }],
            vec![],
        ],
    };
    // over 1 the way weighs 4, over 2 it weighs 5
    assert_eq!(dijkstra_list(0, 3, list), vec![0, 1, 3]);
}

#[test]
fn dfs_takes_the_first_way_in_the_order_of_the_edges() {
    // 0 -> 1 -> 3 and 0 -> 2 -> 3; from 1 an edge leads back to 0
    let list = WeightedAdjacencyList {
        list: vec![
            vec![
                GraphEdge { to: 1, weight: 1 },
                GraphEdge { to: 2, weight: 1 },
            ],
            vec![
                GraphEdge { to: 0, weight: 1 },
                GraphEdge { to: 3, weight: 1 },
            ],
            vec![GraphEdge { to: 3, weight: 1 }],
            vec![],
        ],
    };
    assert_eq!(dfs(list, 0, 3), vec![0, 1, 3]);
    // a dead end is left again: 0 -> 1 ends, 0 -> 2 -> 3 is found
    let list = WeightedAdjacencyList {
        list: vec![
            vec![
                GraphEdge { to: 1, weight: 1 },
                GraphEdge { to: 2, weight: 1 },
            ],
            vec![],
            vec![GraphEdge { to: 3, weight: 1 }],
            vec![],
        ],
    };
    assert_eq!(dfs(list, 0, 3), vec![0, 2, 3]);
}
