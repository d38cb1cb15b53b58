use rust_macro::dp::{
    BestSearchable, MemoizedDFS, Searchable, TopologicalDPRules, TopologicalDPSolver,
};
use std::cmp::{max, min};

struct SimpleGraph;
impl Searchable for SimpleGraph {
    type Node = i32;
    type Answer = i32;
    fn successors(&self, &node: &Self::Node) -> Vec<Self::Node> {
        if node < 3 {
            vec![node + 1]
        } else {
            vec![]
        }
    }
    fn is_goal(&self, &node: &Self::Node) -> bool {
        node == 3
    }
    fn collect(&self, &node: &Self::Node) -> Self::Answer {
        node
    }
}

struct MultiGoalGraph;
impl Searchable for MultiGoalGraph {
    type Node = i32;
    type Answer = i32;
    fn successors(&self, &node: &Self::Node) -> Vec<Self::Node> {
        if node < 5 {
            vec![node + 1, node + 2]
        } else {
            vec![]
        }
    }
    fn is_goal(&self, &node: &Self::Node) -> bool {
        node >= 3
    }
    fn collect(&self, &node: &Self::Node) -> Self::Answer {
        node
    }
}

struct FindMinGoal;
impl Searchable for FindMinGoal {
    type Node = i32;
    type Answer = i32;
    fn successors(&self, &node: &Self::Node) -> Vec<Self::Node> {
        if node < 5 {
            vec![node + 1, node + 2]
        } else {
            vec![]
        }
    }
    fn is_goal(&self, &node: &Self::Node) -> bool {
        node >= 3
    }
    fn collect(&self, &node: &Self::Node) -> Self::Answer {
        node
    }
}
impl BestSearchable for FindMinGoal {
    fn is_better(&self, new: &Self::Answer, old_best: &Self::Answer) -> bool {
        new < old_best
    }
}

struct FindMaxGoal;
impl Searchable for FindMaxGoal {
    type Node = i32;
    type Answer = i32;
    fn successors(&self, &node: &Self::Node) -> Vec<Self::Node> {
        if node < 5 {
            vec![node + 1, node + 2]
        } else {
            vec![]
        }
    }
    fn is_goal(&self, &node: &Self::Node) -> bool {
        node >= 3
    }
    fn collect(&self, &node: &Self::Node) -> Self::Answer {
        node
    }
}
impl BestSearchable for FindMaxGoal {
    fn is_better(&self, new: &Self::Answer, old_best: &Self::Answer) -> bool {
        new > old_best
    }
}

struct CyclicGraph;
impl Searchable for CyclicGraph {
    type Node = i32;
    type Answer = i32;
    fn successors(&self, &node: &Self::Node) -> Vec<Self::Node> {
        match node {
            0 => vec![1],
            1 => vec![2],
            2 => vec![0],
            _ => vec![],
        }
    }
    fn is_goal(&self, &node: &Self::Node) -> bool {
        node == 1
    }
    fn collect(&self, &node: &Self::Node) -> Self::Answer {
        node
    }
}

#[test]
fn test_search_simple_graph() {
    let result = MemoizedDFS::search(0, &SimpleGraph, false);
    assert_eq!(result, vec![3]);
}

#[test]
fn test_search_multiple_goals() {
    let mut result = MemoizedDFS::search(0, &MultiGoalGraph, false);
    result.sort();
    assert_eq!(result, vec![3, 4, 5, 6]);
}

#[test]
fn test_search_return_on_first() {
    let result = MemoizedDFS::search(0, &MultiGoalGraph, true);
    assert_eq!(result.len(), 1);
    assert!(result[0] >= 3);
}

#[test]
fn test_search_cycle_detection() {
    let result = MemoizedDFS::search(0, &CyclicGraph, false);
    assert_eq!(result, vec![1]);
}

#[test]
fn test_search_with_best_find_minimum() {
    let result = MemoizedDFS::search_with_best(0, &FindMinGoal);
    assert_eq!(result, Some(3));
}

#[test]
fn test_search_with_best_find_maximum() {
    let result = MemoizedDFS::search_with_best(0, &FindMaxGoal);
    assert_eq!(result, Some(6));
}

#[derive(Clone, Hash, Eq, PartialEq, Debug)]
struct Node {
    id: i32,
    value: i32,
}

struct ComplexProblem;
impl Searchable for ComplexProblem {
    type Node = Node;
    type Answer = i32;
    fn successors(&self, node: &Self::Node) -> Vec<Self::Node> {
        match node.id {
            0 => vec![Node { id: 1, value: 20 }, Node { id: 2, value: 15 }],
            1 => vec![Node { id: 3, value: 30 }],
            2 => vec![Node { id: 3, value: 25 }],
            _ => vec![],
        }
    }
    fn is_goal(&self, node: &Self::Node) -> bool {
        node.id == 3
    }
    fn collect(&self, node: &Self::Node) -> Self::Answer {
        node.value
    }
}
impl BestSearchable for ComplexProblem {
    fn is_better(&self, new: &Self::Answer, old_best: &Self::Answer) -> bool {
        new > old_best
    }
}

#[test]
fn test_complex_graph_structure() {
    let start = Node { id: 0, value: 10 };
    let result = MemoizedDFS::search_with_best(start, &ComplexProblem);
    assert_eq!(result, Some(30));
}

#[test]
fn test_search_without_reachable_goal() {
    assert_eq!(MemoizedDFS::search(4, &SimpleGraph, false), Vec::<i32>::new());
    assert_eq!(MemoizedDFS::search(4, &SimpleGraph, true), Vec::<i32>::new());
    assert_eq!(MemoizedDFS::search_with_best(7, &FindMinGoal), Some(7));
    assert_eq!(MemoizedDFS::search_with_best(3, &CyclicGraph2), None);
}

struct CyclicGraph2;
impl Searchable for CyclicGraph2 {
    type Node = i32;
    type Answer = i32;
    fn successors(&self, &node: &Self::Node) -> Vec<Self::Node> {
        vec![(node + 1) % 4]
    }
    fn is_goal(&self, _node: &Self::Node) -> bool {
        false
    }
    fn collect(&self, &node: &Self::Node) -> Self::Answer {
        node
    }
}
impl BestSearchable for CyclicGraph2 {
    fn is_better(&self, new: &Self::Answer, old_best: &Self::Answer) -> bool {
        new < old_best
    }
}

#[test]
fn test_search_start_is_goal_with_return_on_first() {
    assert_eq!(MemoizedDFS::search(3, &MultiGoalGraph, true), vec![3]);
    assert_eq!(MemoizedDFS::search(1, &CyclicGraph, true), vec![1]);
}

struct HungryTakahashi {
    h: usize,
    w: usize,
    a: Vec<Vec<isize>>,
    p: Vec<isize>,
}

impl TopologicalDPRules for HungryTakahashi {
    type Node = (usize, usize);
    type Value = isize;

    fn nodes_in_order(&self) -> Vec<Self::Node> {
        let mut nodes = Vec::with_capacity(self.h * self.w);
        for i in (0..self.h).rev() {
            for j in (0..self.w).rev() {
                nodes.push((i, j));
            }
        }
        nodes
    }

    fn next_nodes(&self, node: &Self::Node) -> Vec<Self::Node> {
        vec![(node.0 + 1, node.1), (node.0, node.1 + 1)]
    }

    fn calculate_value(&self, node: &Self::Node, next_values: &[Self::Value]) -> Self::Value {
        let (i, j) = *node;
        let b_ij = self.a[i][j] - self.p[i + j];
        let min_next_required = min(next_values[0], next_values[1]);
        max(0, min_next_required - b_ij)
    }

    fn boundary_value(&self) -> Self::Value {
        1_000_000_000_000_000_000
    }
}

struct HungryTakahashiWithGoal(HungryTakahashi);

impl TopologicalDPRules for HungryTakahashiWithGoal {
    type Node = (usize, usize);
    type Value = isize;

    fn nodes_in_order(&self) -> Vec<Self::Node> {
        self.0.nodes_in_order()
    }

    fn next_nodes(&self, node: &Self::Node) -> Vec<Self::Node> {
        if node.0 + 1 == self.0.h && node.1 + 1 == self.0.w {
            vec![]
        } else {
            self.0.next_nodes(node)
        }
    }

    fn calculate_value(&self, node: &Self::Node, next_values: &[Self::Value]) -> Self::Value {
        if next_values.is_empty() {
            max(0, self.0.p[node.0 + node.1] - self.0.a[node.0][node.1])
        } else {
            self.0.calculate_value(node, next_values)
        }
    }

    fn boundary_value(&self) -> Self::Value {
        self.0.boundary_value()
    }
}

// The puzzle's own answer for this grid is 2. These rules give the goal cell
// no value of its own: it takes the boundary value of the two cells outside
// the grid, and that value reaches the start. The rules with a goal, below,
// give the 2.
#[test]
fn test_hungry_takahashi_example1() {
    let problem = HungryTakahashi {
        h: 2,
        w: 2,
        a: vec![vec![3, 2], vec![4, 1]],
        p: vec![1, 3, 6],
    };

    let dp_table = TopologicalDPSolver::solve(&problem);
    let result = dp_table.get(&(0, 0)).unwrap();

    assert_eq!(*result, 999_999_999_999_999_997);
    assert_eq!(dp_table.len(), 4);
    assert_eq!(dp_table.get(&(1, 1)), Some(&1_000_000_000_000_000_005));
    assert_eq!(dp_table.get(&(0, 0)), Some(&999_999_999_999_999_997));
}

#[test]
fn test_hungry_takahashi_with_goal_rule() {
    let problem = HungryTakahashiWithGoal(HungryTakahashi {
        h: 2,
        w: 2,
        a: vec![vec![3, 2], vec![4, 1]],
        p: vec![1, 3, 6],
    });
    let dp_table = TopologicalDPSolver::solve(&problem);
    assert_eq!(dp_table.get(&(1, 1)), Some(&5));
    assert_eq!(dp_table.get(&(0, 0)), Some(&2));
}

struct PathCounter {
    h: usize,
    w: usize,
}

impl TopologicalDPRules for PathCounter {
    type Node = (usize, usize);
    type Value = usize;

    fn nodes_in_order(&self) -> Vec<Self::Node> {
        let mut nodes = Vec::with_capacity(self.h * self.w);
        for i in (0..self.h).rev() {
            for j in (0..self.w).rev() {
                nodes.push((i, j));
            }
        }
        nodes
    }

    fn next_nodes(&self, node: &Self::Node) -> Vec<Self::Node> {
        vec![(node.0 + 1, node.1), (node.0, node.1 + 1)]
    }

    fn calculate_value(&self, node: &Self::Node, next_values: &[Self::Value]) -> Self::Value {
        if node.0 == self.h - 1 && node.1 == self.w - 1 {
            1
        } else {
            next_values[0] + next_values[1]
        }
    }

    fn boundary_value(&self) -> Self::Value {
        0
    }
}

#[test]
fn test_path_counting() {
    let problem_2x2 = PathCounter { h: 2, w: 2 };
    let dp_2x2 = TopologicalDPSolver::solve(&problem_2x2);
    assert_eq!(*dp_2x2.get(&(0, 0)).unwrap(), 2);

    let problem_3x3 = PathCounter { h: 3, w: 3 };
    let dp_3x3 = TopologicalDPSolver::solve(&problem_3x3);
    assert_eq!(*dp_3x3.get(&(0, 0)).unwrap(), 6);
}

#[test]
fn test_topological_table_holds_every_listed_node() {
    let problem = PathCounter { h: 2, w: 3 };
    let table = TopologicalDPSolver::solve(&problem);
    assert_eq!(table.len(), 6);
    assert_eq!(table.get(&(1, 2)), Some(&1));
    assert_eq!(table.get(&(0, 0)), Some(&3));
    assert_eq!(table.get(&(2, 0)), None);
}
