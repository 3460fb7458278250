use git_hierarchy::graph::topology_sort::{topological_sort, topological_sort_dfs};
use git_hierarchy::graph::Graph;

fn is_valid_topological_order(graph: &[Vec<usize>], order: &[usize]) -> bool {
    let mut position = vec![0; graph.len()];
    for (i, &vertex) in order.iter().enumerate() {
        position[vertex] = i;
    }

    for u in 0..graph.len() {
        for &v in &graph[u] {
            if v < graph.len() && position[u] >= position[v] {
                return false;
            }
        }
    }
    true
}

#[test]
fn test_graph_new_and_default() {
    let g1 = Graph::new();
    assert_eq!(g1.vertices(), 0);

    let g2 = Graph::default();
    assert_eq!(g2.vertices(), 0);
}

#[test]
fn test_graph_toposort() {
    let mut g = Graph::new();
    g.add_vertices(2); // indices 0, 1, 2
    g.add_edge(0, 1);
    g.add_edge(1, 2);

    let order = g.toposort();
    assert_eq!(order, vec![0, 1, 2]);
}

#[test]
fn test_simple_dag() {
    // Graph: 0 -> 1 -> 2
    //        0 -> 2
    let graph = vec![
        vec![1, 2], // 0 points to 1 and 2
        vec![2],    // 1 points to 2
        vec![],     // 2 points to nothing
    ];

    let result = topological_sort(&graph).unwrap();
    assert_eq!(result, vec![0, 1, 2]);

    let result_dfs = topological_sort_dfs(&graph).unwrap();
    assert!(is_valid_topological_order(&graph, &result_dfs));
}

#[test]
fn test_cycle_detection() {
    // Graph with cycle: 0 -> 1 -> 2 -> 0
    let graph = vec![
        vec![1], // 0 -> 1
        vec![2], // 1 -> 2
        vec![0], // 2 -> 0 (creates cycle)
    ];

    assert!(topological_sort(&graph).is_none());
    assert!(topological_sort_dfs(&graph).is_none());
}

#[test]
fn test_disconnected_components() {
    // Two disconnected components: 0->1 and 2->3
    let graph = vec![
        vec![1], // 0 -> 1
        vec![],  // 1 -> nothing
        vec![3], // 2 -> 3
        vec![],  // 3 -> nothing
    ];

    let result = topological_sort(&graph).unwrap();
    assert!(is_valid_topological_order(&graph, &result));
}

#[test]
fn self_loop_is_a_cycle() {
    let graph = vec![vec![0]];
    assert!(topological_sort(&graph).is_none());
    assert!(topological_sort_dfs(&graph).is_none());
}

#[test]
fn targets_outside_the_graph_are_ignored() {
    let graph = vec![vec![7, 1], vec![5]];
    assert_eq!(topological_sort(&graph).unwrap(), vec![0, 1]);
    assert_eq!(topological_sort_dfs(&graph).unwrap(), vec![0, 1]);
}

#[test]
fn kahn_emits_vertices_in_the_order_they_become_ready() {
    // 2 and 0 are ready first, then 1 once 0 is out
    let graph = vec![vec![1], vec![], vec![]];
    assert_eq!(topological_sort(&graph).unwrap(), vec![0, 2, 1]);
    let dfs = topological_sort_dfs(&graph).unwrap();
    assert!(is_valid_topological_order(&graph, &dfs));
    assert_eq!(dfs.len(), 3);
}

#[test]
fn parallel_edges_count_twice_and_still_sort() {
    let graph = vec![vec![1, 1], vec![]];
    assert_eq!(topological_sort(&graph).unwrap(), vec![0, 1]);
}

#[test]
fn empty_graph_sorts_to_nothing() {
    let graph: Vec<Vec<usize>> = vec![];
    assert_eq!(topological_sort(&graph).unwrap(), Vec::<usize>::new());
    assert_eq!(topological_sort_dfs(&graph).unwrap(), Vec::<usize>::new());
}

#[test]
fn add_vertices_keeps_existing_lists_and_the_largest_count() {
    let mut g = Graph::new();
    g.add_vertices(3);
    g.add_edge(3, 0);
    g.add_vertices(1);
    assert_eq!(g.vertices(), 3);
    assert_eq!(g.adjacency().len(), 4);
    assert_eq!(g.adjacency()[3], vec![0]);
    assert_eq!(g.toposort(), vec![1, 2, 3, 0]);
}

#[test]
fn a_new_graph_takes_edges_once_its_vertices_are_announced() {
    let mut g = Graph::default();
    assert_eq!(g.vertices(), 0);
    assert!(g.adjacency().is_empty());
    g.add_vertices(3);
    g.add_vertices(1);
    assert_eq!(g.vertices(), 3);
    assert_eq!(g.adjacency().len(), 4);
    g.add_edge(3, 0);
    assert_eq!(g.adjacency().len(), 4);
    assert_eq!(g.toposort(), vec![1, 2, 3, 0]);
}
