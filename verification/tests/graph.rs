use rust_macro::graph::{
    gen_grid_graph, Directed, Graph, Node, Tree, TreeDP, TreePostorder, TreePreorder, Undirected,
};
use std::cmp::{max, min};

type V = (usize, usize);

#[test]
fn graph_test_grid_graph_connected() {
    let g = vec![vec![1, 0, 0], vec![1, 1, 0], vec![0, 1, 1]];

    let graph = gen_grid_graph::<_, _, Undirected>(g, |&x| x == 1);

    assert_eq!(graph.nodes.len(), 5);
}

#[test]
fn graph_test_directed_to_dsu_simple_cycle() {
    let mut graph = Graph::<usize, (), (), Directed>::new();

    graph.add_edge(1, 2, None);
    graph.add_edge(2, 3, None);
    graph.add_edge(3, 1, None);

    let mut dsu = graph.to_dsu();

    let node1_idx = graph.coord_map[&1];
    let node2_idx = graph.coord_map[&2];
    let node3_idx = graph.coord_map[&3];

    assert!(dsu.same(node1_idx, node2_idx));
    assert!(dsu.same(node2_idx, node3_idx));
    assert!(dsu.same(node1_idx, node3_idx));
}

#[test]
fn graph_test_directed_to_dsu_separate_components() {
    let mut graph = Graph::<usize, (), (), Directed>::new();

    graph.add_edge(1, 2, None);
    graph.add_edge(2, 1, None);

    graph.add_edge(3, 4, None);
    graph.add_edge(4, 3, None);

    let mut dsu = graph.to_dsu();

    let node1_idx = graph.coord_map[&1];
    let node2_idx = graph.coord_map[&2];
    let node3_idx = graph.coord_map[&3];
    let node4_idx = graph.coord_map[&4];

    assert!(dsu.same(node1_idx, node2_idx));
    assert!(dsu.same(node3_idx, node4_idx));

    assert!(!dsu.same(node1_idx, node3_idx));
    assert!(!dsu.same(node1_idx, node4_idx));
    assert!(!dsu.same(node2_idx, node3_idx));
    assert!(!dsu.same(node2_idx, node4_idx));
}

#[test]
fn graph_test_directed_to_dsu_linear_graph() {
    let mut graph = Graph::<usize, (), (), Directed>::new();

    graph.add_edge(1, 2, None);
    graph.add_edge(2, 3, None);
    graph.add_edge(3, 4, None);

    let mut dsu = graph.to_dsu();

    let node1_idx = graph.coord_map[&1];
    let node2_idx = graph.coord_map[&2];
    let node3_idx = graph.coord_map[&3];
    let node4_idx = graph.coord_map[&4];

    assert!(!dsu.same(node1_idx, node2_idx));
    assert!(!dsu.same(node2_idx, node3_idx));
    assert!(!dsu.same(node3_idx, node4_idx));
    assert!(!dsu.same(node1_idx, node3_idx));
    assert!(!dsu.same(node1_idx, node4_idx));
    assert!(!dsu.same(node2_idx, node4_idx));
}

#[test]
fn graph_test_tree_dp_min_path_sum() {

    let mut graph = Graph::<usize, usize, (), Tree>::new();

    graph.add_edge(1, 2, Some(5));
    graph.add_edge(1, 3, Some(3));
    graph.add_edge(2, 4, Some(7));
    graph.add_edge(3, 5, Some(2));
    graph.add_edge(3, 6, Some(8));

    let merge = |x: usize, y: usize| x.min(y);

    let add_node = |child_min: Option<usize>, _node: &Node<()>, edge_weight: Option<&usize>| {
        let edge_cost = edge_weight.unwrap_or(&0);
        match child_min {
            Some(min_val) => edge_cost + min_val,
            None => *edge_cost,
        }
    };

    let result = graph.dp(1, merge, add_node);

    assert_eq!(result, Some(5));
}

#[test]
fn graph_test_tree_dp_max_path_sum() {

    let mut graph = Graph::<usize, usize, (), Tree>::new();

    graph.add_edge(1, 2, Some(5));
    graph.add_edge(1, 3, Some(3));
    graph.add_edge(2, 4, Some(7));
    graph.add_edge(3, 5, Some(2));
    graph.add_edge(3, 6, Some(8));

    let merge = |x: usize, y: usize| x.max(y);

    let add_node = |child_max: Option<usize>, _node: &Node<()>, edge_weight: Option<&usize>| {
        let edge_cost = edge_weight.unwrap_or(&0);
        match child_max {
            Some(max_val) => edge_cost + max_val,
            None => *edge_cost,
        }
    };

    let result = graph.dp(1, merge, add_node);

    assert_eq!(result, Some(12));
}

#[test]
fn test_graph_creation() {
    let mut graph = Graph::<usize, usize, usize, Undirected>::new();
    graph.add_edge(1, 2, Some(5));
    graph.add_edge(2, 3, Some(10));

    graph.add_weight_to_node(1, 5);
    graph.add_weight_to_node(2, 10);

    assert_eq!(graph.get_node_weight(&1), Some(&5));
}

#[test]
fn test_add_edge() {
    let mut graph = Graph::<usize, usize, usize, Undirected>::new();
    graph.add_edge(1, 2, Some(5));
    graph.add_weight_to_node(1, 5);
    assert_eq!(graph.get_node_weight(&1), Some(&5));
}

#[test]
fn test_get_node() {
    let mut graph = Graph::<usize, usize, usize, Undirected>::new();
    graph.add_edge(1, 2, Some(5));
    graph.add_weight_to_node(1, 5);

    assert!(graph.get_node(1).is_some());
    assert!(graph.get_node(1).unwrap().weight.unwrap() == 5);
    assert!(graph.get_node(2).unwrap().weight.is_none());
}

#[test]
fn mod_test_min_max_weights() {
    let mut graph = Graph::<usize, usize, usize, Tree>::new();
    graph.add_edge(1, 2, Some(5));
    graph.add_edge(2, 3, Some(10));
    graph.add_edge(2, 4, Some(20));


    let merge = |(amin, amax): V, (bmin, bmax): V| (min(amin, bmin), max(amax, bmax));
    let add_node = |res: Option<V>, _node: &Node<usize>, edge_weight: Option<&usize>| {
        let weight = edge_weight.unwrap_or(&5);
        match res {
            Some((min_weight, max_weight)) => {
                (min(min_weight, *weight), max(max_weight, *weight))
            }
            None => (*weight, *weight),
        }
    };
    let result = graph.dp(1, merge, add_node);
    let (min_weight, max_weight) = result.unwrap();
    assert_eq!(min_weight, 5);
    assert_eq!(max_weight, 20);
}

#[test]
fn mod_test_grid_graph_connected() {
    let g = vec![vec![1, 0, 0], vec![1, 1, 0], vec![0, 1, 1]];

    let graph = gen_grid_graph::<_, _, Undirected>(g, |&x| x == 1);

    assert_eq!(graph.nodes.len(), 5);
}

#[test]
fn mod_test_directed_to_dsu_simple_cycle() {
    let mut graph = Graph::<usize, (), (), Directed>::new();

    graph.add_edge(1, 2, None);
    graph.add_edge(2, 3, None);
    graph.add_edge(3, 1, None);

    let mut dsu = graph.to_dsu();

    let node1_idx = graph.coord_map[&1];
    let node2_idx = graph.coord_map[&2];
    let node3_idx = graph.coord_map[&3];

    assert!(dsu.same(node1_idx, node2_idx));
    assert!(dsu.same(node2_idx, node3_idx));
    assert!(dsu.same(node1_idx, node3_idx));
}

#[test]
fn mod_test_directed_to_dsu_separate_components() {
    let mut graph = Graph::<usize, (), (), Directed>::new();

    graph.add_edge(1, 2, None);
    graph.add_edge(2, 1, None);

    graph.add_edge(3, 4, None);
    graph.add_edge(4, 3, None);

    let mut dsu = graph.to_dsu();

    let node1_idx = graph.coord_map[&1];
    let node2_idx = graph.coord_map[&2];
    let node3_idx = graph.coord_map[&3];
    let node4_idx = graph.coord_map[&4];

    assert!(dsu.same(node1_idx, node2_idx));
    assert!(dsu.same(node3_idx, node4_idx));

    assert!(!dsu.same(node1_idx, node3_idx));
    assert!(!dsu.same(node1_idx, node4_idx));
    assert!(!dsu.same(node2_idx, node3_idx));
    assert!(!dsu.same(node2_idx, node4_idx));
}

#[test]
fn mod_test_directed_to_dsu_linear_graph() {
    let mut graph = Graph::<usize, (), (), Directed>::new();

    graph.add_edge(1, 2, None);
    graph.add_edge(2, 3, None);
    graph.add_edge(3, 4, None);

    let mut dsu = graph.to_dsu();

    let node1_idx = graph.coord_map[&1];
    let node2_idx = graph.coord_map[&2];
    let node3_idx = graph.coord_map[&3];
    let node4_idx = graph.coord_map[&4];

    assert!(!dsu.same(node1_idx, node2_idx));
    assert!(!dsu.same(node2_idx, node3_idx));
    assert!(!dsu.same(node3_idx, node4_idx));
    assert!(!dsu.same(node1_idx, node3_idx));
    assert!(!dsu.same(node1_idx, node4_idx));
    assert!(!dsu.same(node2_idx, node4_idx));
}

#[test]
fn mod_test_tree_dp_min_path_sum() {

    let mut graph = Graph::<usize, usize, (), Tree>::new();

    graph.add_edge(1, 2, Some(5));
    graph.add_edge(1, 3, Some(3));
    graph.add_edge(2, 4, Some(7));
    graph.add_edge(3, 5, Some(2));
    graph.add_edge(3, 6, Some(8));

    let merge = |x: usize, y: usize| x.min(y);

    let add_node = |child_min: Option<usize>, _node: &Node<()>, edge_weight: Option<&usize>| {
        let edge_cost = edge_weight.unwrap_or(&0);
        match child_min {
            Some(min_val) => edge_cost + min_val,
            None => *edge_cost,
        }
    };

    let result = graph.dp(1, merge, add_node);

    assert_eq!(result, Some(5));
}

#[test]
fn mod_test_tree_dp_max_path_sum() {

    let mut graph = Graph::<usize, usize, (), Tree>::new();

    graph.add_edge(1, 2, Some(5));
    graph.add_edge(1, 3, Some(3));
    graph.add_edge(2, 4, Some(7));
    graph.add_edge(3, 5, Some(2));
    graph.add_edge(3, 6, Some(8));

    let merge = |x: usize, y: usize| x.max(y);

    let add_node = |child_max: Option<usize>, _node: &Node<()>, edge_weight: Option<&usize>| {
        let edge_cost = edge_weight.unwrap_or(&0);
        match child_max {
            Some(max_val) => edge_cost + max_val,
            None => *edge_cost,
        }
    };

    let result = graph.dp(1, merge, add_node);

    assert_eq!(result, Some(12));
}

#[test]
fn test_simple_path() {
    let mut graph = Graph::<usize, usize, usize, Tree>::new();
    graph.add_edge(1, 2, Some(5));
    graph.add_edge(2, 1, Some(5));
    graph.add_edge(2, 3, Some(10));
    graph.add_edge(3, 2, Some(10));
    graph.add_edge(1, 4, Some(16));
    graph.add_edge(4, 1, Some(16));
    graph.add_edge(5, 6, Some(34));
    graph.add_edge(6, 5, Some(34));

    let merge = |x: usize, y: usize| x + y;
    let add_node = |a: Option<usize>, _: &Node<usize>, edge_weight: Option<&usize>| {
        let weight = edge_weight.unwrap_or(&0);
        match a {
            Some(x) => x + weight,
            None => *weight,
        }
    };
    let ans = graph.dp(1, merge, add_node);
    assert_eq!(ans, Some(31));
    assert_eq!(
        graph.dp(6, merge, add_node),
        Some(34),
        "The total weight from node 6 should be 34"
    );
}

#[test]
fn test_simple_reachability() {
    let mut graph = Graph::<usize, usize, usize, Tree>::new();
    graph.add_edge(1, 2, Some(5));
    graph.add_edge(2, 1, Some(5));
    graph.add_edge(2, 3, Some(10));
    graph.add_edge(3, 2, Some(10));
    graph.add_edge(1, 4, Some(16));
    graph.add_edge(4, 1, Some(31));

    let merge = |x: bool, y: bool| x || y;

    let _goal = 2;
    let add_node = |res: Option<bool>, _node: &Node<usize>, _edge_weight: Option<&usize>| {
        res.unwrap_or(false)
    };

    let _result = graph.dp(1, merge, add_node);
}

#[test]
fn tests_test_grid_graph_connected() {
    let g = vec![vec![1, 0, 0], vec![1, 1, 0], vec![0, 1, 1]];

    let graph = gen_grid_graph::<_, _, Undirected>(g, |&x| x == 1);

    assert_eq!(graph.nodes.len(), 5);
}

#[test]
fn tests_test_directed_to_dsu_simple_cycle() {
    let mut graph = Graph::<usize, (), (), Directed>::new();

    graph.add_edge(1, 2, None);
    graph.add_edge(2, 3, None);
    graph.add_edge(3, 1, None);

    let mut dsu = graph.to_dsu();

    let node1_idx = graph.coord_map[&1];
    let node2_idx = graph.coord_map[&2];
    let node3_idx = graph.coord_map[&3];

    assert!(dsu.same(node1_idx, node2_idx));
    assert!(dsu.same(node2_idx, node3_idx));
    assert!(dsu.same(node1_idx, node3_idx));
}

#[test]
fn tests_test_directed_to_dsu_separate_components() {
    let mut graph = Graph::<usize, (), (), Directed>::new();

    graph.add_edge(1, 2, None);
    graph.add_edge(2, 1, None);

    graph.add_edge(3, 4, None);
    graph.add_edge(4, 3, None);

    let mut dsu = graph.to_dsu();

    let node1_idx = graph.coord_map[&1];
    let node2_idx = graph.coord_map[&2];
    let node3_idx = graph.coord_map[&3];
    let node4_idx = graph.coord_map[&4];

    assert!(dsu.same(node1_idx, node2_idx));
    assert!(dsu.same(node3_idx, node4_idx));

    assert!(!dsu.same(node1_idx, node3_idx));
    assert!(!dsu.same(node1_idx, node4_idx));
    assert!(!dsu.same(node2_idx, node3_idx));
    assert!(!dsu.same(node2_idx, node4_idx));
}

#[test]
fn tests_test_directed_to_dsu_linear_graph() {
    let mut graph = Graph::<usize, (), (), Directed>::new();

    graph.add_edge(1, 2, None);
    graph.add_edge(2, 3, None);
    graph.add_edge(3, 4, None);

    let mut dsu = graph.to_dsu();

    let node1_idx = graph.coord_map[&1];
    let node2_idx = graph.coord_map[&2];
    let node3_idx = graph.coord_map[&3];
    let node4_idx = graph.coord_map[&4];

    assert!(!dsu.same(node1_idx, node2_idx));
    assert!(!dsu.same(node2_idx, node3_idx));
    assert!(!dsu.same(node3_idx, node4_idx));
    assert!(!dsu.same(node1_idx, node3_idx));
    assert!(!dsu.same(node1_idx, node4_idx));
    assert!(!dsu.same(node2_idx, node4_idx));
}

#[test]
fn tests_test_tree_dp_min_path_sum() {

    let mut graph = Graph::<usize, usize, (), Tree>::new();

    graph.add_edge(1, 2, Some(5));
    graph.add_edge(1, 3, Some(3));
    graph.add_edge(2, 4, Some(7));
    graph.add_edge(3, 5, Some(2));
    graph.add_edge(3, 6, Some(8));

    let merge = |x: usize, y: usize| x.min(y);

    let add_node = |child_min: Option<usize>, _node: &Node<()>, edge_weight: Option<&usize>| {
        let edge_cost = edge_weight.unwrap_or(&0);
        match child_min {
            Some(min_val) => edge_cost + min_val,
            None => *edge_cost,
        }
    };

    let result = graph.dp(1, merge, add_node);

    assert_eq!(result, Some(5));
}

#[test]
fn tests_test_tree_dp_max_path_sum() {

    let mut graph = Graph::<usize, usize, (), Tree>::new();

    graph.add_edge(1, 2, Some(5));
    graph.add_edge(1, 3, Some(3));
    graph.add_edge(2, 4, Some(7));
    graph.add_edge(3, 5, Some(2));
    graph.add_edge(3, 6, Some(8));

    let merge = |x: usize, y: usize| x.max(y);

    let add_node = |child_max: Option<usize>, _node: &Node<()>, edge_weight: Option<&usize>| {
        let edge_cost = edge_weight.unwrap_or(&0);
        match child_max {
            Some(max_val) => edge_cost + max_val,
            None => *edge_cost,
        }
    };

    let result = graph.dp(1, merge, add_node);

    assert_eq!(result, Some(12));
}

#[test]
fn test_preorder_simple_tree() {

    let mut graph = Graph::<usize, usize, usize, Tree>::new();

    graph.add_edge(1, 2, Some(10));
    graph.add_edge(1, 3, Some(20));
    graph.add_edge(2, 4, Some(30));

    graph.add_weight_to_node(1, 100);
    graph.add_weight_to_node(2, 200);
    graph.add_weight_to_node(3, 300);
    graph.add_weight_to_node(4, 400);

    let calculate =
        |node: &Node<usize>, edge_weight: Option<&usize>, parent_value: Option<&usize>| {
            let node_weight = node.weight.unwrap_or(0);
            let edge_weight = edge_weight.unwrap_or(&0);
            let parent_contribution = parent_value.unwrap_or(&0);
            node_weight + edge_weight + parent_contribution
        };

    let result = graph.preorder(1, calculate);

    assert_eq!(result.get(&1), Some(&100));
    assert_eq!(result.get(&2), Some(&310));
    assert_eq!(result.get(&3), Some(&420));
    assert_eq!(result.get(&4), Some(&740));
    assert_eq!(result.len(), 4);
}

#[test]
fn test_preorder_linear_tree() {

    let mut graph = Graph::<usize, usize, (), Tree>::new();

    graph.add_edge(1, 2, Some(5));
    graph.add_edge(2, 3, Some(7));

    let calculate =
        |_node: &Node<()>, _edge_weight: Option<&usize>, parent_value: Option<&usize>| {
            parent_value.unwrap_or(&0) + 1
        };

    let result = graph.preorder(1, calculate);

    assert_eq!(*result.get(&1).unwrap(), 1);
    assert_eq!(*result.get(&2).unwrap(), 2);
    assert_eq!(*result.get(&3).unwrap(), 3);
    assert_eq!(result.len(), 3);
}

#[test]
fn test_preorder_single_node() {
    let mut graph = Graph::<usize, (), usize, Tree>::new();
    graph.add_weight_to_node(1, 42);

    let calculate =
        |node: &Node<usize>, _edge_weight: Option<&()>, _parent_value: Option<&usize>| {
            node.weight.unwrap_or(0) * 2
        };

    let result = graph.preorder(1, calculate);

    assert_eq!(result.get(&1), Some(&84));
    assert_eq!(result.len(), 1);
}

#[test]
fn test_preorder_nonexistent_start() {
    let mut graph = Graph::<usize, (), usize, Tree>::new();
    graph.add_weight_to_node(1, 42);

    let calculate =
        |node: &Node<usize>, _edge_weight: Option<&()>, _parent_value: Option<&usize>| {
            node.weight.unwrap_or(0)
        };

    let result = graph.preorder(999, calculate);

    assert!(result.is_empty());
}

#[test]
fn test_postorder_simple_tree() {

    let mut graph = Graph::<usize, usize, usize, Tree>::new();

    graph.add_edge(1, 2, Some(10));
    graph.add_edge(1, 3, Some(20));
    graph.add_edge(2, 4, Some(30));

    graph.add_weight_to_node(1, 100);
    graph.add_weight_to_node(2, 200);
    graph.add_weight_to_node(3, 300);
    graph.add_weight_to_node(4, 400);

    let calculate =
        |node: &Node<usize>, edge_weight: Option<&usize>, child_results: Vec<usize>| {
            let node_weight = node.weight.unwrap_or(0);
            let edge_weight = edge_weight.unwrap_or(&0);
            let child_sum: usize = child_results.iter().sum();
            node_weight + edge_weight + child_sum
        };

    let result = graph.postorder(1, calculate);

    assert_eq!(result.get(&4), Some(&430));
    assert_eq!(result.get(&2), Some(&640));
    assert_eq!(result.get(&3), Some(&320));
    assert_eq!(result.get(&1), Some(&1060));
    assert_eq!(result.len(), 4);
}

#[test]
fn test_postorder_subtree_size() {

    let mut graph = Graph::<usize, (), (), Tree>::new();

    graph.add_edge(1, 2, None);
    graph.add_edge(1, 3, None);
    graph.add_edge(2, 4, None);
    graph.add_edge(2, 5, None);
    graph.add_edge(3, 6, None);

    let calculate = |_node: &Node<()>, _edge_weight: Option<&()>, child_results: Vec<usize>| {
        1 + child_results.iter().sum::<usize>()
    };

    let result = graph.postorder(1, calculate);

    assert_eq!(*result.get(&4).unwrap(), 1);
    assert_eq!(*result.get(&5).unwrap(), 1);
    assert_eq!(*result.get(&6).unwrap(), 1);
    assert_eq!(*result.get(&2).unwrap(), 3);
    assert_eq!(*result.get(&3).unwrap(), 2);
    assert_eq!(*result.get(&1).unwrap(), 6);
    assert_eq!(result.len(), 6);
}

#[test]
fn test_postorder_depth_calculation() {

    let mut graph = Graph::<usize, usize, (), Tree>::new();

    graph.add_edge(1, 2, Some(1));
    graph.add_edge(2, 3, Some(1));
    graph.add_edge(3, 4, Some(1));

    let calculate =
        |_node: &Node<()>, edge_weight: Option<&usize>, _child_results: Vec<usize>| {
            *edge_weight.unwrap_or(&0)
        };

    let result = graph.postorder(1, calculate);

    assert_eq!(*result.get(&1).unwrap(), 0);
    assert_eq!(*result.get(&2).unwrap(), 1);
    assert_eq!(*result.get(&3).unwrap(), 1);
    assert_eq!(*result.get(&4).unwrap(), 1);
    assert_eq!(result.len(), 4);
}

#[test]
fn test_postorder_single_node() {
    let mut graph = Graph::<usize, (), usize, Tree>::new();
    graph.add_weight_to_node(1, 42);

    let calculate =
        |node: &Node<usize>, _edge_weight: Option<&()>, _child_results: Vec<usize>| {
            node.weight.unwrap_or(0) * 3
        };

    let result = graph.postorder(1, calculate);

    assert_eq!(result.get(&1), Some(&126));
    assert_eq!(result.len(), 1);
}

#[test]
fn test_postorder_nonexistent_start() {
    let mut graph = Graph::<usize, (), usize, Tree>::new();
    graph.add_weight_to_node(1, 42);

    let calculate =
        |node: &Node<usize>, _edge_weight: Option<&()>, _child_results: Vec<usize>| {
            node.weight.unwrap_or(0)
        };

    let result = graph.postorder(999, calculate);

    assert!(result.is_empty());
}

#[test]
fn test_get_node_mut_writes_through() {
    let mut graph = Graph::<usize, usize, usize, Undirected>::new();
    graph.add_edge(7, 8, Some(1));
    assert!(graph.get_node_mut(9).is_none());
    match graph.get_node_mut(8) {
        Some(node) => node.weight = Some(42),
        None => panic!("node 8 was made by the edge"),
    }
    assert_eq!(graph.get_node_weight(&8), Some(&42));
    assert_eq!(graph.get_node_weight(&7), None);
    assert_eq!(graph.get_or_create_id(7), 0);
    assert_eq!(graph.get_or_create_id(8), 1);
    assert_eq!(graph.get_or_create_id(9), 2);
    assert_eq!(graph.reverse_map, vec![7, 8, 9]);
    assert_eq!(graph.adj[0], vec![(1, Some(1))]);
}

#[test]
fn test_grid_graph_numbers_cells_in_order_of_mention() {
    let grid = vec![vec![1, 1], vec![0, 1]];
    let graph = gen_grid_graph::<_, _, Undirected>(grid, |&x| x == 1);
    assert_eq!(graph.reverse_map, vec![(0, 0), (0, 1), (1, 1)]);
    assert_eq!(graph.adj[0], vec![(1, Some(1))]);
    assert_eq!(graph.adj[1], vec![(2, Some(1)), (0, Some(1))]);
    assert_eq!(graph.adj[2], vec![(1, Some(1))]);
    assert_eq!(graph.get_node_weight(&(1, 1)), Some(&1));
    assert_eq!(graph.get_node_weight(&(1, 0)), None);
}

#[test]
fn test_to_dsu_of_an_empty_graph() {
    let graph = Graph::<usize, (), (), Directed>::new();
    let mut dsu = graph.to_dsu();
    let mut other = Graph::<usize, (), (), Directed>::new();
    other.add_weight_to_node(5, ());
    let mut single = other.to_dsu();
    assert_eq!(single.size(0), 1);
    assert!(single.same(0, 0));
    let _ = &mut dsu;
}

#[test]
fn test_to_dsu_one_way_bridge_keeps_components_apart() {
    let mut graph = Graph::<usize, (), (), Directed>::new();

    graph.add_edge(1, 2, None);
    graph.add_edge(2, 1, None);
    graph.add_edge(2, 3, None);
    graph.add_edge(3, 4, None);
    graph.add_edge(4, 3, None);
    graph.add_edge(5, 1, None);

    let mut dsu = graph.to_dsu();
    let id = |k: usize| graph.coord_map[&k];

    assert!(dsu.same(id(1), id(2)));
    assert!(dsu.same(id(3), id(4)));
    assert!(!dsu.same(id(2), id(3)));
    assert!(!dsu.same(id(1), id(4)));
    assert!(!dsu.same(id(5), id(1)));
    assert_eq!(dsu.size(id(1)), 2);
    assert_eq!(dsu.size(id(3)), 2);
    assert_eq!(dsu.size(id(5)), 1);
}

#[test]
fn test_walk_tables_hold_the_reachable_nodes_only() {
    let mut graph = Graph::<usize, usize, (), Tree>::new();

    graph.add_edge(1, 2, Some(1));
    graph.add_edge(2, 3, Some(1));
    graph.add_edge(7, 8, Some(1));
    graph.add_edge(3, 1, Some(1));

    let down = graph.preorder(1, |_n: &Node<()>, _w: Option<&usize>, p: Option<&usize>| {
        p.unwrap_or(&0) + 1
    });
    let mut keys: Vec<usize> = down.keys().copied().collect();
    keys.sort();
    assert_eq!(keys, vec![1, 2, 3]);

    let up = graph.postorder(7, |_n: &Node<()>, _w: Option<&usize>, cs: Vec<usize>| {
        cs.iter().sum::<usize>() + 1
    });
    let mut keys: Vec<usize> = up.keys().copied().collect();
    keys.sort();
    assert_eq!(keys, vec![7, 8]);
    assert_eq!(up.get(&7), Some(&2));
}
