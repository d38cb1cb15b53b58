//! Dynamic programming over nodes that the problem lists in evaluation
//! order.
//!
//! The problem names its nodes in an order in which every node comes after
//! the nodes its value depends on. The solver fills a table in that order;
//! a dependency that the table does not hold counts with the problem's
//! boundary value.

use crate::fx::{fx_get, fx_insert, lawful_key};
use crate::values::clone_is_exact;
use rustc_hash::FxHashMap;
use std::hash::Hash;
use vstd::prelude::*;

verus! {

/// The rules of one problem with a fixed evaluation order.
///
/// `nodes_in_order` lists all nodes, dependencies first. `next_nodes` lists
/// the nodes that the value of a node depends on. `calculate_value` gives
/// the value of a node from the values of its dependencies, in the order in
/// which `next_nodes` lists them. `boundary_value` stands for a dependency
/// outside the table.
pub trait TopologicalDPRules {
    type Node: Clone + Eq + Hash;

    type Value: Clone;

    fn nodes_in_order(&self) -> Vec<Self::Node>;

    fn next_nodes(&self, node: &Self::Node) -> Vec<Self::Node>;

    fn calculate_value(&self, node: &Self::Node, next_values: &[Self::Value]) -> Self::Value;

    fn boundary_value(&self) -> Self::Value;
}

/// `calculate_value` may return `v` for `node` when it is given the values
/// `vals`.
pub open spec fn topo_may_calculate<P: TopologicalDPRules>(
    problem: &P,
    node: P::Node,
    vals: Seq<P::Value>,
    v: P::Value,
) -> bool {
    exists|x: &[P::Value]|
        x@ == vals && #[trigger] call_ensures(P::calculate_value, (problem, &node, x), v)
}

/// Each rule of `problem` is a function: what it returns is fixed by what
/// it is given.
pub open spec fn topo_rules_are_functions<P: TopologicalDPRules>(problem: &P) -> bool {
    &&& forall|a: Vec<P::Node>, b: Vec<P::Node>|
        #[trigger] call_ensures(P::nodes_in_order, (problem,), a) && #[trigger] call_ensures(P::nodes_in_order, (problem,), b)
            ==> a@ == b@
    &&& forall|s: P::Node, a: Vec<P::Node>, b: Vec<P::Node>|
        #[trigger] call_ensures(P::next_nodes, (problem, &s), a) && #[trigger] call_ensures(P::next_nodes, (problem, &s), b)
            ==> a@ == b@
    &&& forall|a: P::Value, b: P::Value|
        #[trigger] call_ensures(P::boundary_value, (problem,), a) && #[trigger] call_ensures(P::boundary_value, (problem,), b)
            ==> a == b
    &&& forall|s: P::Node, vals: Seq<P::Value>, a: P::Value, b: P::Value|
        #[trigger] topo_may_calculate(problem, s, vals, a) && #[trigger] topo_may_calculate(
            problem,
            s,
            vals,
            b,
        ) ==> a == b
}

/// All nodes, dependencies first.
pub open spec fn topo_nodes<P: TopologicalDPRules>(problem: &P) -> Seq<P::Node> {
    (choose|ns: Vec<P::Node>| call_ensures(P::nodes_in_order, (problem,), ns))@
}

/// The nodes that the value of `node` depends on.
pub open spec fn topo_next<P: TopologicalDPRules>(problem: &P, node: P::Node) -> Seq<P::Node> {
    (choose|ns: Vec<P::Node>| call_ensures(P::next_nodes, (problem, &node), ns))@
}

/// The value of `node`, given the values `vals` of its dependencies.
pub open spec fn topo_calculate<P: TopologicalDPRules>(
    problem: &P,
    node: P::Node,
    vals: Seq<P::Value>,
) -> P::Value {
    choose|v: P::Value| topo_may_calculate(problem, node, vals, v)
}

/// The value that stands for a dependency outside the table.
pub open spec fn topo_boundary<P: TopologicalDPRules>(problem: &P) -> P::Value {
    choose|v: P::Value| call_ensures(P::boundary_value, (problem,), v)
}

/// The values that `table` gives for `nodes`, the boundary value standing in
/// for a node that the table does not bind.
pub open spec fn looked_up<P: TopologicalDPRules>(
    problem: &P,
    table: Map<P::Node, P::Value>,
    nodes: Seq<P::Node>,
) -> Seq<P::Value> {
    nodes.map_values(
        |n: P::Node|
            if table.contains_key(n) {
                table[n]
            } else {
                topo_boundary(problem)
            },
    )
}

/// The table after `nodes` have been evaluated in turn: each node is bound
/// to its rule applied to what the table held for its dependencies just
/// before.
pub open spec fn table_after<P: TopologicalDPRules>(problem: &P, nodes: Seq<P::Node>) -> Map<
    P::Node,
    P::Value,
>
    decreases nodes.len(),
{
    if nodes.len() == 0 {
        Map::empty()
    } else {
        let prev = table_after(problem, nodes.drop_last());
        let node = nodes.last();
        prev.insert(
            node,
            topo_calculate(problem, node, looked_up(problem, prev, topo_next(problem, node))),
        )
    }
}

pub struct TopologicalDPSolver;

impl TopologicalDPSolver {
    /// Evaluates the problem's nodes in the order in which it lists them and
    /// returns the table of their values.
    pub fn solve<P>(problem: &P) -> (dp_table: FxHashMap<P::Node, P::Value>) where
        P: TopologicalDPRules,

        requires
            lawful_key::<P::Node>(),
            clone_is_exact::<P::Value>(),
            topo_rules_are_functions(problem),
        ensures
            dp_table@ == table_after(problem, topo_nodes(problem)),
    {
        let mut dp_table: FxHashMap<P::Node, P::Value> = FxHashMap::default();
        let nodes = problem.nodes_in_order();
        let mut k: usize = 0;
        while k < nodes.len()
            invariant
                lawful_key::<P::Node>(),
                clone_is_exact::<P::Value>(),
                topo_rules_are_functions(problem),
                nodes@ == topo_nodes(problem),
                k <= nodes.len(),
                dp_table@ == table_after(problem, nodes@.take(k as int)),
            decreases nodes.len() - k,
        {
            let node = &nodes[k];
            proof {
                let upto = nodes@.take(k + 1);
                assert(upto.drop_last() =~= nodes@.take(k as int));
                assert(upto.last() == nodes@[k as int]);
            }
            let next_nodes = problem.next_nodes(node);
            let mut next_values: Vec<P::Value> = Vec::new();
            let mut j: usize = 0;
            while j < next_nodes.len()
                invariant
                    lawful_key::<P::Node>(),
                    clone_is_exact::<P::Value>(),
                    topo_rules_are_functions(problem),
                    j <= next_nodes.len(),
                    next_values@ == looked_up(problem, dp_table@, next_nodes@.take(j as int)),
                decreases next_nodes.len() - j,
            {
                let v = match fx_get(&dp_table, &next_nodes[j]) {
                    Some(v) => v.clone(),
                    None => problem.boundary_value(),
                };
                proof {
                    assert(looked_up(problem, dp_table@, next_nodes@.take(j + 1)) =~= looked_up(
                        problem,
                        dp_table@,
                        next_nodes@.take(j as int),
                    ).push(v));
                }
                next_values.push(v);
                j += 1;
            }
            assert(next_nodes@.take(next_nodes.len() as int) =~= next_nodes@);
            let new_value = problem.calculate_value(node, next_values.as_slice());
            proof {
                let vals = next_values@;
                assert(topo_may_calculate(problem, *node, vals, new_value));
                let w = topo_calculate(problem, *node, vals);
                assert(topo_may_calculate(problem, *node, vals, w));
            }
            fx_insert(&mut dp_table, node.clone(), new_value);
            k += 1;
        }
        assert(nodes@.take(nodes.len() as int) =~= nodes@);
        dp_table
    }
}

} // verus!
