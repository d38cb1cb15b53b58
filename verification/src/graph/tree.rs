//! Dynamic programming over trees.
//!
//! Each of the three walks here starts at a node and follows the edges
//! depth first, never entering a node twice and never stepping straight
//! back to the node it came from. They differ in when a node's value is
//! computed: from its children's values once they are all known, or from
//! its parent's value before any child is entered.

use super::{Graph, GraphModel, Node, Tree};
use crate::fx::{keyed_get, lawful_key};
use crate::values::{apply2, clone_is_exact, is_function2};
use std::collections::HashMap;
use std::hash::Hash;
use vstd::prelude::*;

verus! {

/// The number of nodes that a walk has not entered yet.
pub open spec fn count_unvisited(visited: Seq<bool>) -> nat
    decreases visited.len(),
{
    if visited.len() == 0 {
        0
    } else {
        count_unvisited(visited.drop_last()) + if visited.last() {
            0nat
        } else {
            1nat
        }
    }
}

/// Entering a node that was not entered before leaves one node less to
/// enter.
pub proof fn lemma_enter(visited: Seq<bool>, node: int)
    requires
        0 <= node < visited.len(),
        !visited[node],
    ensures
        count_unvisited(visited.update(node, true)) + 1 == count_unvisited(visited),
    decreases visited.len(),
{
    let after = visited.update(node, true);
    if node == visited.len() - 1 {
        assert(after.drop_last() =~= visited.drop_last());
    } else {
        lemma_enter(visited.drop_last(), node);
        assert(after.drop_last() =~= visited.drop_last().update(node, true));
    }
}

/// A walk that enters more nodes leaves no more nodes to enter.
pub proof fn lemma_entered_more(before: Seq<bool>, after: Seq<bool>)
    requires
        before.len() == after.len(),
        forall|i: int| 0 <= i < before.len() && before[i] ==> after[i],
    ensures
        count_unvisited(after) <= count_unvisited(before),
    decreases before.len(),
{
    if before.len() > 0 {
        lemma_entered_more(before.drop_last(), after.drop_last());
    }
}

/// `child` is the node that the walk just came from.
pub open spec fn came_from(parent: Option<usize>, child: usize) -> bool {
    parent == Some(child)
}

/// Whether the walk steps from a node to `child`: not where it came from
/// there, and not where it has been there.
pub open spec fn steps_to(parent: Option<usize>, child: usize, visited: Seq<bool>) -> bool {
    !came_from(parent, child) && child < visited.len() && !visited[child as int]
}

/// The weight of an edge as a rule function is given it.
pub open spec fn weight_ref<EW>(w: &Option<EW>) -> Option<&EW> {
    match w {
        Some(x) => Some(x),
        None => None,
    }
}

/// `add_node` is a function: it can be called on everything, and what it
/// returns is fixed by what it is given.
pub open spec fn node_rule_is_function<V, EW, NW, F: Fn(Option<V>, &Node<NW>, Option<&EW>) -> V>(
    add_node: F,
) -> bool {
    &&& forall|acc: Option<V>, node: Node<NW>, w: Option<EW>| #[trigger]
        call_requires(add_node, (acc, &node, weight_ref(&w)))
    &&& forall|acc: Option<V>, node: Node<NW>, w: Option<EW>, a: V, b: V|
        #[trigger] call_ensures(add_node, (acc, &node, weight_ref(&w)), a) && #[trigger] call_ensures(
            add_node,
            (acc, &node, weight_ref(&w)),
            b,
        ) ==> a == b
}

/// What `add_node` makes of the merged values of a node's children, the
/// node, and the weight of the edge that led to it.
pub open spec fn node_rule<V, EW, NW, F: Fn(Option<V>, &Node<NW>, Option<&EW>) -> V>(
    add_node: F,
    acc: Option<V>,
    node: Node<NW>,
    w: Option<EW>,
) -> V {
    choose|v: V| call_ensures(add_node, (acc, &node, weight_ref(&w)), v)
}

/// The merged value of the children so far, with one more.
pub open spec fn merged_with<V, F1: Fn(V, V) -> V>(merge: F1, acc: Option<V>, v: V) -> Option<V> {
    Some(
        match acc {
            Some(current) => apply2(merge, current, v),
            None => v,
        },
    )
}

/// The value of `node` and the nodes entered, after the walk below `node`:
/// the rule of the node applied to the merged values of the children that
/// the walk steps to.
pub open spec fn dp_visit<I, EW, NW, V, F1: Fn(V, V) -> V, F2: Fn(Option<V>, &Node<NW>, Option<&EW>) -> V>(
    g: GraphModel<I, EW, NW>,
    nodes: Seq<Node<NW>>,
    merge: F1,
    add_node: F2,
    node: int,
    parent: Option<usize>,
    pw: Option<EW>,
    visited: Seq<bool>,
) -> (V, Seq<bool>)
    decreases count_unvisited(visited), g.edges[node].len() + 1,
{
    let (acc, vis) = dp_fold(g, nodes, merge, add_node, node, parent, visited, g.edges[node].len());
    (node_rule(add_node, acc, nodes[node], pw), vis)
}

/// The merged value of the children among the first `k` edges of `node`,
/// and the nodes entered so far.
pub open spec fn dp_fold<I, EW, NW, V, F1: Fn(V, V) -> V, F2: Fn(Option<V>, &Node<NW>, Option<&EW>) -> V>(
    g: GraphModel<I, EW, NW>,
    nodes: Seq<Node<NW>>,
    merge: F1,
    add_node: F2,
    node: int,
    parent: Option<usize>,
    visited: Seq<bool>,
    k: nat,
) -> (Option<V>, Seq<bool>)
    decreases count_unvisited(visited), k,
{
    if k == 0 {
        (None, visited.update(node, true))
    } else {
        let (acc, vis) = dp_fold(g, nodes, merge, add_node, node, parent, visited, (k - 1) as nat);
        let (child, ew) = g.edges[node][k - 1];
        if steps_to(parent, child, vis) && count_unvisited(vis) < count_unvisited(visited) {
            let (cv, vis2) = dp_visit(
                g,
                nodes,
                merge,
                add_node,
                child as int,
                Some(node as usize),
                ew,
                vis,
            );
            (merged_with(merge, acc, cv), vis2)
        } else {
            (acc, vis)
        }
    }
}

/// `calculate` of a walk that goes from parents to children is a function.
pub open spec fn pre_rule_is_function<V, EW, NW, F: Fn(&Node<NW>, Option<&EW>, Option<&V>) -> V>(
    calculate: F,
) -> bool {
    &&& forall|node: Node<NW>, w: Option<EW>, pv: Option<&V>| #[trigger]
        call_requires(calculate, (&node, weight_ref(&w), pv))
    &&& forall|node: Node<NW>, w: Option<EW>, pv: Option<&V>, a: V, b: V|
        #[trigger] call_ensures(calculate, (&node, weight_ref(&w), pv), a) && #[trigger] call_ensures(
            calculate,
            (&node, weight_ref(&w), pv),
            b,
        ) ==> a == b
}

/// What `calculate` makes of a node, the weight of the edge that led to
/// it, and the value of its parent.
pub open spec fn pre_rule<V, EW, NW, F: Fn(&Node<NW>, Option<&EW>, Option<&V>) -> V>(
    calculate: F,
    node: Node<NW>,
    w: Option<EW>,
    pv: Option<&V>,
) -> V {
    choose|v: V| call_ensures(calculate, (&node, weight_ref(&w), pv), v)
}

/// The nodes entered and the table of values, after the walk below `node`
/// that computes each node's value from its parent's.
pub open spec fn pre_visit<I, EW, NW, V, F: Fn(&Node<NW>, Option<&EW>, Option<&V>) -> V>(
    g: GraphModel<I, EW, NW>,
    nodes: Seq<Node<NW>>,
    calculate: F,
    node: int,
    parent: Option<usize>,
    pw: Option<EW>,
    pv: Option<&V>,
    visited: Seq<bool>,
    table: Map<I, V>,
) -> (Seq<bool>, Map<I, V>)
    decreases count_unvisited(visited), g.edges[node].len() + 1,
{
    pre_fold(g, nodes, calculate, node, parent, pw, pv, visited, table, g.edges[node].len())
}

/// The nodes entered and the table of values, after the node's own value
/// was computed and the first `k` of its edges were followed.
pub open spec fn pre_fold<I, EW, NW, V, F: Fn(&Node<NW>, Option<&EW>, Option<&V>) -> V>(
    g: GraphModel<I, EW, NW>,
    nodes: Seq<Node<NW>>,
    calculate: F,
    node: int,
    parent: Option<usize>,
    pw: Option<EW>,
    pv: Option<&V>,
    visited: Seq<bool>,
    table: Map<I, V>,
    k: nat,
) -> (Seq<bool>, Map<I, V>)
    decreases count_unvisited(visited), k,
{
    let value = pre_rule(calculate, nodes[node], pw, pv);
    if k == 0 {
        (visited.update(node, true), table.insert(g.keys[node], value))
    } else {
        let (vis, tab) = pre_fold(
            g,
            nodes,
            calculate,
            node,
            parent,
            pw,
            pv,
            visited,
            table,
            (k - 1) as nat,
        );
        let (child, ew) = g.edges[node][k - 1];
        if steps_to(parent, child, vis) && count_unvisited(vis) < count_unvisited(visited) {
            pre_visit(
                g,
                nodes,
                calculate,
                child as int,
                Some(node as usize),
                ew,
                Some(&value),
                vis,
                tab,
            )
        } else {
            (vis, tab)
        }
    }
}

/// `calculate` of a walk that goes from children to parents is a function.
pub open spec fn post_rule_is_function<V, EW, NW, F: Fn(&Node<NW>, Option<&EW>, Vec<V>) -> V>(
    calculate: F,
) -> bool {
    &&& forall|node: Node<NW>, w: Option<EW>, cs: Vec<V>| #[trigger]
        call_requires(calculate, (&node, weight_ref(&w), cs))
    &&& forall|node: Node<NW>, w: Option<EW>, cs: Vec<V>, ds: Vec<V>, a: V, b: V|
        #[trigger] call_ensures(calculate, (&node, weight_ref(&w), cs), a) && #[trigger] call_ensures(
            calculate,
            (&node, weight_ref(&w), ds),
            b,
        ) && cs@ == ds@ ==> a == b
}

/// `calculate` may return `v` for a node, the weight of the edge that led
/// to it, and the values `cs` of its children.
pub open spec fn post_rule_may<V, EW, NW, F: Fn(&Node<NW>, Option<&EW>, Vec<V>) -> V>(
    calculate: F,
    node: Node<NW>,
    w: Option<EW>,
    cs: Seq<V>,
    v: V,
) -> bool {
    exists|given: Vec<V>|
        given@ == cs && #[trigger] call_ensures(calculate, (&node, weight_ref(&w), given), v)
}

/// What `calculate` makes of a node, the weight of the edge that led to
/// it, and the values of its children.
pub open spec fn post_rule<V, EW, NW, F: Fn(&Node<NW>, Option<&EW>, Vec<V>) -> V>(
    calculate: F,
    node: Node<NW>,
    w: Option<EW>,
    cs: Seq<V>,
) -> V {
    choose|v: V| post_rule_may(calculate, node, w, cs, v)
}

/// The value of `node`, the nodes entered and the table of values, after
/// the walk below `node` that computes each node's value from its
/// children's.
pub open spec fn post_visit<I, EW, NW, V, F: Fn(&Node<NW>, Option<&EW>, Vec<V>) -> V>(
    g: GraphModel<I, EW, NW>,
    nodes: Seq<Node<NW>>,
    calculate: F,
    node: int,
    parent: Option<usize>,
    pw: Option<EW>,
    visited: Seq<bool>,
    table: Map<I, V>,
) -> (V, Seq<bool>, Map<I, V>)
    decreases count_unvisited(visited), g.edges[node].len() + 1,
{
    let (cs, vis, tab) = post_fold(
        g,
        nodes,
        calculate,
        node,
        parent,
        visited,
        table,
        g.edges[node].len(),
    );
    let value = post_rule(calculate, nodes[node], pw, cs);
    (value, vis, tab.insert(g.keys[node], value))
}

/// The values of the children among the first `k` edges of `node`, the
/// nodes entered and the table of values so far.
pub open spec fn post_fold<I, EW, NW, V, F: Fn(&Node<NW>, Option<&EW>, Vec<V>) -> V>(
    g: GraphModel<I, EW, NW>,
    nodes: Seq<Node<NW>>,
    calculate: F,
    node: int,
    parent: Option<usize>,
    visited: Seq<bool>,
    table: Map<I, V>,
    k: nat,
) -> (Seq<V>, Seq<bool>, Map<I, V>)
    decreases count_unvisited(visited), k,
{
    if k == 0 {
        (Seq::empty(), visited.update(node, true), table)
    } else {
        let (cs, vis, tab) = post_fold(
            g,
            nodes,
            calculate,
            node,
            parent,
            visited,
            table,
            (k - 1) as nat,
        );
        let (child, ew) = g.edges[node][k - 1];
        if steps_to(parent, child, vis) && count_unvisited(vis) < count_unvisited(visited) {
            let (cv, vis2, tab2) = post_visit(
                g,
                nodes,
                calculate,
                child as int,
                Some(node as usize),
                ew,
                vis,
                tab,
            );
            (cs.push(cv), vis2, tab2)
        } else {
            (cs, vis, tab)
        }
    }
}

/// No node entered.
pub open spec fn nothing_visited(n: nat) -> Seq<bool> {
    Seq::new(n, |i: int| false)
}

/// Whether the walk came to its node from `child`.
fn is_parent(parent: Option<usize>, child: usize) -> (b: bool)
    ensures
        b == came_from(parent, child),
{
    match parent {
        Some(p) => p == child,
        None => false,
    }
}

/// The weight of an edge, as a rule function takes it.
fn as_weight<EW>(w: &Option<EW>) -> (r: Option<&EW>)
    ensures
        r == weight_ref(w),
{
    match w {
        Some(x) => Some(x),
        None => None,
    }
}

/// What the contracts of the walks need to know of a tree: whether it is
/// ready to be walked, and what it holds.
pub trait TreeShape<I, EW, NW> {
    /// The tree can be walked.
    spec fn tree_ready(&self) -> bool;

    /// The tree as the contracts see it.
    spec fn tree_model(&self) -> GraphModel<I, EW, NW>;

    /// The nodes of the tree, by number.
    spec fn tree_nodes(&self) -> Seq<Node<NW>>;
}

/// The value of the node `start` in the tree below it, or `None` where
/// there is no such node.
pub open spec fn dp_answer<I, EW, NW, V, F1: Fn(V, V) -> V, F2: Fn(Option<V>, &Node<NW>, Option<&EW>) -> V>(
    g: GraphModel<I, EW, NW>,
    nodes: Seq<Node<NW>>,
    start: I,
    merge: F1,
    add_node: F2,
) -> Option<V> {
    if g.ids.contains_key(start) {
        Some(
            dp_visit(
                g,
                nodes,
                merge,
                add_node,
                g.ids[start] as int,
                None,
                None,
                nothing_visited(g.len()),
            ).0,
        )
    } else {
        None
    }
}

/// The values of the nodes of the tree below `start`, each computed from
/// the value of its parent; nothing where there is no node `start`.
pub open spec fn preorder_answer<I, EW, NW, V, F: Fn(&Node<NW>, Option<&EW>, Option<&V>) -> V>(
    g: GraphModel<I, EW, NW>,
    nodes: Seq<Node<NW>>,
    start: I,
    calculate: F,
) -> Map<I, V> {
    if g.ids.contains_key(start) {
        pre_visit(
            g,
            nodes,
            calculate,
            g.ids[start] as int,
            None,
            None,
            None,
            nothing_visited(g.len()),
            Map::empty(),
        ).1
    } else {
        Map::empty()
    }
}

/// The values of the nodes of the tree below `start`, each computed from
/// the values of its children; nothing where there is no node `start`.
pub open spec fn postorder_answer<I, EW, NW, V, F: Fn(&Node<NW>, Option<&EW>, Vec<V>) -> V>(
    g: GraphModel<I, EW, NW>,
    nodes: Seq<Node<NW>>,
    start: I,
    calculate: F,
) -> Map<I, V> {
    if g.ids.contains_key(start) {
        post_visit(
            g,
            nodes,
            calculate,
            g.ids[start] as int,
            None,
            None,
            nothing_visited(g.len()),
            Map::empty(),
        ).2
    } else {
        Map::empty()
    }
}

impl<I, EW, NW> TreeShape<I, EW, NW> for Graph<I, EW, NW, Tree> where
    I: Clone + Eq + Hash,
    EW: Copy,
    NW: Copy,
 {
    open spec fn tree_ready(&self) -> bool {
        lawful_key::<I>() && self.wf()
    }

    open spec fn tree_model(&self) -> GraphModel<I, EW, NW> {
        self.model()
    }

    open spec fn tree_nodes(&self) -> Seq<Node<NW>> {
        self.node_list()
    }
}

/// A tree DP that folds the values of a node's children with `merge` and
/// finishes the node with `add_node`.
pub trait TreeDP<I, EW, NW>: TreeShape<I, EW, NW> {
    fn dp<V, F1, F2>(&self, start: I, merge: F1, add_node: F2) -> (r: Option<V>) where
        V: Copy,
        F1: Fn(V, V) -> V,
        F2: Fn(Option<V>, &Node<NW>, Option<&EW>) -> V,

        requires
            self.tree_ready(),
            is_function2(merge),
            node_rule_is_function(add_node),
        ensures
            r == dp_answer(self.tree_model(), self.tree_nodes(), start, merge, add_node),
    ;
}

/// The walk below `node` for `dp`.
fn dfs_dp<V, F1, F2, I, EW, NW>(
    graph: &Graph<I, EW, NW, Tree>,
    node: usize,
    parent: Option<usize>,
    parent_edge_weight: Option<&EW>,
    visited: &mut Vec<bool>,
    merge: &F1,
    add_node: &F2,
    Ghost(pw): Ghost<Option<EW>>,
) -> (v: V) where
    V: Copy,
    F1: Fn(V, V) -> V,
    F2: Fn(Option<V>, &Node<NW>, Option<&EW>) -> V,
    I: Clone + Eq + Hash,
    EW: Copy,
    NW: Copy,

    requires
        graph.wf(),
        is_function2(*merge),
        node_rule_is_function(*add_node),
        parent_edge_weight == weight_ref(&pw),
        node < graph.model().len(),
        old(visited)@.len() == graph.model().len(),
        !old(visited)@[node as int],
    ensures
        (v, final(visited)@) == dp_visit(
            graph.model(),
            graph.node_list(),
            *merge,
            *add_node,
            node as int,
            parent,
            pw,
            old(visited)@,
        ),
        final(visited)@.len() == old(visited)@.len(),
        forall|i: int| 0 <= i < old(visited)@.len() && old(visited)@[i] ==> final(visited)@[i],
        count_unvisited(final(visited)@) < count_unvisited(old(visited)@),
    decreases count_unvisited(old(visited)@),
{
    let ghost g = graph.model();
    let ghost nodes = graph.node_list();
    let ghost visited0 = visited@;
    proof {
        lemma_enter(visited0, node as int);
    }
    visited[node] = true;
    let mut child_result: Option<V> = None;
    let edges = &graph.adj[node];
    assert(edges@ == g.edges[node as int]);
    let mut k: usize = 0;
    while k < edges.len()
        invariant
            graph.wf(),
            is_function2(*merge),
            node_rule_is_function(*add_node),
            g == graph.model(),
            nodes == graph.node_list(),
            visited0 == old(visited)@,
            visited0.len() == g.len(),
            node < g.len(),
            edges@ == g.edges[node as int],
            k <= edges.len(),
            visited@.len() == g.len(),
            visited@[node as int],
            forall|i: int| 0 <= i < visited0.len() && visited0[i] ==> visited@[i],
            count_unvisited(visited@) < count_unvisited(visited0),
            (child_result, visited@) == dp_fold(
                g,
                nodes,
                *merge,
                *add_node,
                node as int,
                parent,
                visited0,
                k as nat,
            ),
        decreases edges.len() - k,
    {
        let child = edges[k].0;
        assert(g.edges[node as int][k as int].0 < g.len());
        if !is_parent(parent, child) && !visited[child] {
            let ghost vis = visited@;
            let child_dp = dfs_dp(
                graph,
                child,
                Some(node),
                as_weight(&edges[k].1),
                visited,
                merge,
                add_node,
                Ghost(edges[k as int].1),
            );
            child_result = Some(
                match child_result {
                    Some(current) => merge(current, child_dp),
                    None => child_dp,
                },
            );
            proof {
                lemma_entered_more(vis, visited@);
                assert forall|i: int| 0 <= i < visited0.len() && visited0[i] implies visited@[i] by {
                    assert(vis[i]);
                }
            }
        }
        k += 1;
    }
    assert(graph.node_list()[node as int] == graph.nodes@[node as int]);
    add_node(child_result, &graph.nodes[node], parent_edge_weight)
}

impl<I, EW, NW> TreeDP<I, EW, NW> for Graph<I, EW, NW, Tree> where
    I: Clone + Eq + Hash,
    EW: Copy,
    NW: Copy,
 {
    /// The value of the node `start` in the tree below it, or `None` where
    /// there is no such node.
    fn dp<V, F1, F2>(&self, start: I, merge: F1, add_node: F2) -> (r: Option<V>) where
        V: Copy,
        F1: Fn(V, V) -> V,
        F2: Fn(Option<V>, &Node<NW>, Option<&EW>) -> V,
     {
        let start_id = match keyed_get(&self.coord_map, &start) {
            Some(id) => *id,
            None => {
                return None;
            },
        };
        let n = self.nodes.len();
        let mut visited = vec![false; n];
        assert(visited@ =~= nothing_visited(self.model().len()));
        Some(dfs_dp(self, start_id, None, None, &mut visited, &merge, &add_node, Ghost(None)))
    }
}

/// A walk that gives every node a value computed from the value of its
/// parent.
pub trait TreePreorder<I, EW, NW>: TreeShape<I, EW, NW> {
    fn preorder<V, F>(&self, start: I, calculate: F) -> (r: HashMap<I, V>) where
        V: Clone,
        F: Fn(&Node<NW>, Option<&EW>, Option<&V>) -> V,

        requires
            self.tree_ready(),
            clone_is_exact::<V>(),
            pre_rule_is_function(calculate),
        ensures
            r@ == preorder_answer(self.tree_model(), self.tree_nodes(), start, calculate),
    ;
}

/// The walk below `node` for `preorder`.
fn dfs_preorder<V, F, I, EW, NW>(
    graph: &Graph<I, EW, NW, Tree>,
    node: usize,
    parent: Option<usize>,
    parent_edge_weight: Option<&EW>,
    parent_value: Option<&V>,
    visited: &mut Vec<bool>,
    calculate: &F,
    result: &mut HashMap<I, V>,
    Ghost(pw): Ghost<Option<EW>>,
) where V: Clone, F: Fn(&Node<NW>, Option<&EW>, Option<&V>) -> V, I: Clone + Eq + Hash, EW: Copy, NW: Copy
    requires
        lawful_key::<I>(),
        clone_is_exact::<V>(),
        graph.wf(),
        pre_rule_is_function(*calculate),
        parent_edge_weight == weight_ref(&pw),
        node < graph.model().len(),
        old(visited)@.len() == graph.model().len(),
        !old(visited)@[node as int],
    ensures
        (final(visited)@, final(result)@) == pre_visit(
            graph.model(),
            graph.node_list(),
            *calculate,
            node as int,
            parent,
            pw,
            parent_value,
            old(visited)@,
            old(result)@,
        ),
        final(visited)@.len() == old(visited)@.len(),
        forall|i: int| 0 <= i < old(visited)@.len() && old(visited)@[i] ==> final(visited)@[i],
        count_unvisited(final(visited)@) < count_unvisited(old(visited)@),
    decreases count_unvisited(old(visited)@),
{
    let ghost g = graph.model();
    let ghost nodes = graph.node_list();
    let ghost visited0 = visited@;
    let ghost table0 = result@;
    proof {
        lemma_enter(visited0, node as int);
    }
    visited[node] = true;
    assert(graph.node_list()[node as int] == graph.nodes@[node as int]);
    let value = calculate(&graph.nodes[node], parent_edge_weight, parent_value);
    assert(value == pre_rule(*calculate, nodes[node as int], pw, parent_value));
    assert(graph.reverse_map@[node as int] == g.keys[node as int]);
    result.insert(graph.reverse_map[node].clone(), value.clone());
    let edges = &graph.adj[node];
    assert(edges@ == g.edges[node as int]);
    let mut k: usize = 0;
    while k < edges.len()
        invariant
            lawful_key::<I>(),
            clone_is_exact::<V>(),
            graph.wf(),
            pre_rule_is_function(*calculate),
            g == graph.model(),
            nodes == graph.node_list(),
            visited0 == old(visited)@,
            visited0.len() == g.len(),
            table0 == old(result)@,
            value == pre_rule(*calculate, nodes[node as int], pw, parent_value),
            node < g.len(),
            edges@ == g.edges[node as int],
            k <= edges.len(),
            visited@.len() == g.len(),
            forall|i: int| 0 <= i < visited0.len() && visited0[i] ==> visited@[i],
            count_unvisited(visited@) < count_unvisited(visited0),
            (visited@, result@) == pre_fold(
                g,
                nodes,
                *calculate,
                node as int,
                parent,
                pw,
                parent_value,
                visited0,
                table0,
                k as nat,
            ),
        decreases edges.len() - k,
    {
        let child = edges[k].0;
        assert(g.edges[node as int][k as int].0 < g.len());
        if !is_parent(parent, child) && !visited[child] {
            let ghost vis = visited@;
            dfs_preorder(
                graph,
                child,
                Some(node),
                as_weight(&edges[k].1),
                Some(&value),
                visited,
                calculate,
                result,
                Ghost(edges[k as int].1),
            );
            proof {
                lemma_entered_more(vis, visited@);
                assert forall|i: int| 0 <= i < visited0.len() && visited0[i] implies visited@[i] by {
                    assert(vis[i]);
                }
            }
        }
        k += 1;
    }
}

impl<I, EW, NW> TreePreorder<I, EW, NW> for Graph<I, EW, NW, Tree> where
    I: Clone + Eq + Hash,
    EW: Copy,
    NW: Copy,
 {
    /// The values of the nodes of the tree below `start`, each computed
    /// from the value of its parent; nothing where there is no node
    /// `start`.
    fn preorder<V, F>(&self, start: I, calculate: F) -> (r: HashMap<I, V>) where
        V: Clone,
        F: Fn(&Node<NW>, Option<&EW>, Option<&V>) -> V,
     {
        let mut result = HashMap::new();
        match keyed_get(&self.coord_map, &start) {
            Some(id) => {
                let start_id = *id;
                assert(self.model().ids.contains_key(start));
                let n = self.nodes.len();
                let mut visited = vec![false; n];
                assert(visited@ =~= nothing_visited(self.model().len()));
                dfs_preorder(
                    self,
                    start_id,
                    None,
                    None,
                    None,
                    &mut visited,
                    &calculate,
                    &mut result,
                    Ghost(None),
                );
            },
            None => {},
        }
        result
    }
}

/// A walk that gives every node a value computed from the values of its
/// children.
pub trait TreePostorder<I, EW, NW>: TreeShape<I, EW, NW> {
    fn postorder<V, F>(&self, start: I, calculate: F) -> (r: HashMap<I, V>) where
        V: Clone,
        F: Fn(&Node<NW>, Option<&EW>, Vec<V>) -> V,

        requires
            self.tree_ready(),
            clone_is_exact::<V>(),
            post_rule_is_function(calculate),
        ensures
            r@ == postorder_answer(self.tree_model(), self.tree_nodes(), start, calculate),
    ;
}

/// The walk below `node` for `postorder`.
fn dfs_postorder<V, F, I, EW, NW>(
    graph: &Graph<I, EW, NW, Tree>,
    node: usize,
    parent: Option<usize>,
    parent_edge_weight: Option<&EW>,
    visited: &mut Vec<bool>,
    calculate: &F,
    result: &mut HashMap<I, V>,
    Ghost(pw): Ghost<Option<EW>>,
) -> (value: V) where
    V: Clone,
    F: Fn(&Node<NW>, Option<&EW>, Vec<V>) -> V,
    I: Clone + Eq + Hash,
    EW: Copy,
    NW: Copy,

    requires
        lawful_key::<I>(),
        clone_is_exact::<V>(),
        graph.wf(),
        post_rule_is_function(*calculate),
        parent_edge_weight == weight_ref(&pw),
        node < graph.model().len(),
        old(visited)@.len() == graph.model().len(),
        !old(visited)@[node as int],
    ensures
        (value, final(visited)@, final(result)@) == post_visit(
            graph.model(),
            graph.node_list(),
            *calculate,
            node as int,
            parent,
            pw,
            old(visited)@,
            old(result)@,
        ),
        final(visited)@.len() == old(visited)@.len(),
        forall|i: int| 0 <= i < old(visited)@.len() && old(visited)@[i] ==> final(visited)@[i],
        count_unvisited(final(visited)@) < count_unvisited(old(visited)@),
    decreases count_unvisited(old(visited)@),
{
    let ghost g = graph.model();
    let ghost nodes = graph.node_list();
    let ghost visited0 = visited@;
    let ghost table0 = result@;
    proof {
        lemma_enter(visited0, node as int);
    }
    visited[node] = true;
    let mut child_results: Vec<V> = Vec::new();
    let edges = &graph.adj[node];
    assert(edges@ == g.edges[node as int]);
    let mut k: usize = 0;
    while k < edges.len()
        invariant
            lawful_key::<I>(),
            clone_is_exact::<V>(),
            graph.wf(),
            post_rule_is_function(*calculate),
            g == graph.model(),
            nodes == graph.node_list(),
            visited0 == old(visited)@,
            visited0.len() == g.len(),
            table0 == old(result)@,
            node < g.len(),
            edges@ == g.edges[node as int],
            k <= edges.len(),
            visited@.len() == g.len(),
            forall|i: int| 0 <= i < visited0.len() && visited0[i] ==> visited@[i],
            count_unvisited(visited@) < count_unvisited(visited0),
            (child_results@, visited@, result@) == post_fold(
                g,
                nodes,
                *calculate,
                node as int,
                parent,
                visited0,
                table0,
                k as nat,
            ),
        decreases edges.len() - k,
    {
        let child = edges[k].0;
        assert(g.edges[node as int][k as int].0 < g.len());
        if !is_parent(parent, child) && !visited[child] {
            let ghost vis = visited@;
            let child_value = dfs_postorder(
                graph,
                child,
                Some(node),
                as_weight(&edges[k].1),
                visited,
                calculate,
                result,
                Ghost(edges[k as int].1),
            );
            child_results.push(child_value);
            proof {
                lemma_entered_more(vis, visited@);
                assert forall|i: int| 0 <= i < visited0.len() && visited0[i] implies visited@[i] by {
                    assert(vis[i]);
                }
            }
        }
        k += 1;
    }
    assert(graph.node_list()[node as int] == graph.nodes@[node as int]);
    let ghost given = child_results@;
    let value = calculate(&graph.nodes[node], parent_edge_weight, child_results);
    proof {
        assert(post_rule_may(*calculate, nodes[node as int], pw, given, value));
        let w = post_rule(*calculate, nodes[node as int], pw, given);
        assert(post_rule_may(*calculate, nodes[node as int], pw, given, w));
    }
    assert(graph.reverse_map@[node as int] == g.keys[node as int]);
    result.insert(graph.reverse_map[node].clone(), value.clone());
    value
}

impl<I, EW, NW> TreePostorder<I, EW, NW> for Graph<I, EW, NW, Tree> where
    I: Clone + Eq + Hash,
    EW: Copy,
    NW: Copy,
 {
    /// The values of the nodes of the tree below `start`, each computed
    /// from the values of its children; nothing where there is no node
    /// `start`.
    fn postorder<V, F>(&self, start: I, calculate: F) -> (r: HashMap<I, V>) where
        V: Clone,
        F: Fn(&Node<NW>, Option<&EW>, Vec<V>) -> V,
     {
        let mut result = HashMap::new();
        match keyed_get(&self.coord_map, &start) {
            Some(id) => {
                let start_id = *id;
                assert(self.model().ids.contains_key(start));
                let n = self.nodes.len();
                let mut visited = vec![false; n];
                assert(visited@ =~= nothing_visited(self.model().len()));
                dfs_postorder(
                    self,
                    start_id,
                    None,
                    None,
                    &mut visited,
                    &calculate,
                    &mut result,
                    Ghost(None),
                );
            },
            None => {},
        }
        result
    }
}

} // verus!
