//! Which nodes a depth-first walk enters.
//!
//! A walk that starts with no node entered enters exactly the nodes that
//! can be reached from its start along the edges. The tables of the two
//! walks that fill one hold a value for these nodes and for no others.

use super::tree::{
    count_unvisited, lemma_enter, nothing_visited, post_fold, post_visit, postorder_answer, pre_fold,
    pre_rule, pre_visit, preorder_answer, steps_to,
};
use super::{GraphModel, Node};
use vstd::prelude::*;

verus! {

/// An edge leads from `a` to `b`.
pub open spec fn has_edge<I, EW, NW>(g: GraphModel<I, EW, NW>, a: int, b: int) -> bool {
    exists|k: int| 0 <= k < g.edges[a].len() && (#[trigger] g.edges[a][k]).0 == b
}

/// `path` names nodes, each joined to the next by an edge.
pub open spec fn is_path<I, EW, NW>(g: GraphModel<I, EW, NW>, path: Seq<int>) -> bool {
    &&& path.len() > 0
    &&& forall|i: int| 0 <= i < path.len() ==> 0 <= #[trigger] path[i] < g.len()
    &&& forall|i: int| 0 <= i < path.len() - 1 ==> has_edge(g, #[trigger] path[i], path[i + 1])
}

/// `b` can be reached from `a` along the edges.
pub open spec fn reaches<I, EW, NW>(g: GraphModel<I, EW, NW>, a: int, b: int) -> bool {
    exists|path: Seq<int>| #[trigger] is_path(g, path) && path[0] == a && path.last() == b
}

/// The nodes entered after a walk has entered `node` and followed the first
/// `k` of its edges, each to the end wherever it led to a node not entered
/// before.
pub open spec fn entered_fold<I, EW, NW>(
    g: GraphModel<I, EW, NW>,
    node: int,
    visited: Seq<bool>,
    k: nat,
) -> Seq<bool>
    decreases count_unvisited(visited), k,
{
    if k == 0 {
        visited.update(node, true)
    } else {
        let vis = entered_fold(g, node, visited, (k - 1) as nat);
        let child = g.edges[node][k - 1].0;
        if child < vis.len() && !vis[child as int] && count_unvisited(vis) < count_unvisited(visited) {
            entered_fold(g, child as int, vis, g.edges[child as int].len())
        } else {
            vis
        }
    }
}

/// Every edge of an entered node outside `open` leads to an entered node.
pub open spec fn settled<I, EW, NW>(g: GraphModel<I, EW, NW>, vis: Seq<bool>, open: Set<int>) -> bool {
    forall|u: int, k: int|
        0 <= u < vis.len() && vis[u] && !open.contains(u) && 0 <= k < g.edges[u].len() ==> vis[(
        #[trigger] g.edges[u][k]).0 as int]
}

/// Every entered node can be reached from `start`.
pub open spec fn all_reached<I, EW, NW>(g: GraphModel<I, EW, NW>, start: int, vis: Seq<bool>) -> bool {
    forall|u: int| 0 <= u < vis.len() && #[trigger] vis[u] ==> reaches(g, start, u)
}

/// A node reaches itself.
pub proof fn lemma_reaches_itself<I, EW, NW>(g: GraphModel<I, EW, NW>, a: int)
    requires
        0 <= a < g.len(),
    ensures
        reaches(g, a, a),
{
    let path = seq![a];
    assert(is_path(g, path));
    assert(path[0] == a && path.last() == a);
}

/// What reaches a node reaches the targets of its edges.
pub proof fn lemma_reaches_step<I, EW, NW>(g: GraphModel<I, EW, NW>, a: int, b: int, k: int)
    requires
        g.wf(),
        reaches(g, a, b),
        0 <= k < g.edges[b].len(),
    ensures
        reaches(g, a, g.edges[b][k].0 as int),
{
    let path = choose|path: Seq<int>| #[trigger] is_path(g, path) && path[0] == a && path.last() == b;
    let c = g.edges[b][k].0 as int;
    let longer = path.push(c);
    assert(0 <= b < g.len());
    assert forall|i: int| 0 <= i < longer.len() - 1 implies has_edge(g, #[trigger] longer[i], longer[i + 1]) by {
        if i < path.len() - 1 {
            assert(has_edge(g, path[i], path[i + 1]));
        } else {
            assert(longer[i] == b);
            assert(g.edges[b][k].0 == c);
        }
    }
    assert forall|i: int| 0 <= i < longer.len() implies 0 <= #[trigger] longer[i] < g.len() by {
        if i < path.len() {
            assert(longer[i] == path[i]);
        }
    }
    assert(is_path(g, longer));
    assert(longer[0] == a && longer.last() == c);
}

/// What a walk below a node does to the set of entered nodes: it adds the
/// node, takes none away, settles every node it enters but the node
/// itself, which it settles as far as it has followed its edges, and
/// enters only what can be reached.
pub proof fn lemma_entered_fold<I, EW, NW>(
    g: GraphModel<I, EW, NW>,
    start: int,
    node: int,
    visited: Seq<bool>,
    k: nat,
    open: Set<int>,
)
    requires
        g.wf(),
        0 <= node < g.len(),
        visited.len() == g.len(),
        !visited[node],
        k <= g.edges[node].len(),
        settled(g, visited, open),
        all_reached(g, start, visited),
        reaches(g, start, node),
    ensures
        ({
            let vis = entered_fold(g, node, visited, k);
            &&& vis.len() == visited.len()
            &&& vis[node]
            &&& forall|i: int| 0 <= i < visited.len() && visited[i] ==> vis[i]
            &&& count_unvisited(vis) < count_unvisited(visited)
            &&& settled(g, vis, open.insert(node))
            &&& forall|j: int| 0 <= j < k ==> vis[(#[trigger] g.edges[node][j]).0 as int]
            &&& all_reached(g, start, vis)
        }),
    decreases count_unvisited(visited), k,
{
    if k == 0 {
        lemma_enter(visited, node);
    } else {
        lemma_entered_fold(g, start, node, visited, (k - 1) as nat, open);
        let vis = entered_fold(g, node, visited, (k - 1) as nat);
        let child = g.edges[node][k - 1].0 as int;
        assert(0 <= child < g.len());
        if !vis[child] {
            lemma_reaches_step(g, start, node, k - 1);
            let full = g.edges[child].len();
            lemma_entered_fold(g, start, child, vis, full, open.insert(node));
            let vis2 = entered_fold(g, child, vis, full);
            assert(vis2 == entered_fold(g, node, visited, k));
            assert(settled(g, vis2, open.insert(node))) by {
                assert forall|u: int, j: int|
                    0 <= u < vis2.len() && vis2[u] && !open.insert(node).contains(u) && 0 <= j
                        < g.edges[u].len() implies vis2[(#[trigger] g.edges[u][j]).0 as int] by {
                    if u != child {
                        assert(!open.insert(node).insert(child).contains(u));
                    }
                }
            }
            assert forall|j: int| 0 <= j < k implies vis2[(#[trigger] g.edges[node][j]).0 as int] by {
                if j < k - 1 {
                    assert(vis[g.edges[node][j].0 as int]);
                }
            }
        } else {
            assert(vis == entered_fold(g, node, visited, k));
        }
    }
}

/// Along a path that starts at an entered node, where every entered node is
/// settled, every node is entered.
pub proof fn lemma_path_stays_entered<I, EW, NW>(
    g: GraphModel<I, EW, NW>,
    vis: Seq<bool>,
    path: Seq<int>,
    i: int,
)
    requires
        g.wf(),
        vis.len() == g.len(),
        settled(g, vis, Set::<int>::empty()),
        is_path(g, path),
        vis[path[0]],
        0 <= i < path.len(),
    ensures
        vis[path[i]],
    decreases i,
{
    if i > 0 {
        lemma_path_stays_entered(g, vis, path, i - 1);
        let u = path[i - 1];
        assert(has_edge(g, u, path[i]));
        let k = choose|k: int| 0 <= k < g.edges[u].len() && (#[trigger] g.edges[u][k]).0 == path[i];
        assert(!Set::<int>::empty().contains(u));
        assert(vis[g.edges[u][k].0 as int]);
    }
}

/// A walk that starts with no node entered enters exactly the nodes that
/// can be reached from its start.
pub proof fn lemma_walk_enters_reachable<I, EW, NW>(g: GraphModel<I, EW, NW>, start: int, u: int)
    requires
        g.wf(),
        0 <= start < g.len(),
        0 <= u < g.len(),
    ensures
        entered_fold(g, start, nothing_visited(g.len()), g.edges[start].len())[u] <==> reaches(
            g,
            start,
            u,
        ),
{
    let none = nothing_visited(g.len());
    let empty = Set::<int>::empty();
    lemma_reaches_itself(g, start);
    lemma_entered_fold(g, start, start, none, g.edges[start].len(), empty);
    let vis = entered_fold(g, start, none, g.edges[start].len());
    assert(settled(g, vis, empty)) by {
        assert forall|a: int, j: int|
            0 <= a < vis.len() && vis[a] && !empty.contains(a) && 0 <= j < g.edges[a].len() implies vis[(
        #[trigger] g.edges[a][j]).0 as int] by {
            if a != start {
                assert(!empty.insert(start).contains(a));
            }
        }
    }
    if reaches(g, start, u) {
        let path = choose|path: Seq<int>| #[trigger]
            is_path(g, path) && path[0] == start && path.last() == u;
        lemma_path_stays_entered(g, vis, path, path.len() - 1);
    }
}

/// A table that held `table` when the nodes `visited` were entered holds
/// `tab` now that the nodes `vis` are: a value for every key it had, and
/// for the key of every node entered since, but for the node `skip`.
pub open spec fn keys_follow<I, EW, NW, V>(
    g: GraphModel<I, EW, NW>,
    table: Map<I, V>,
    tab: Map<I, V>,
    visited: Seq<bool>,
    vis: Seq<bool>,
    skip: int,
) -> bool {
    forall|id: I| #[trigger]
        tab.contains_key(id) <==> table.contains_key(id) || (g.ids.contains_key(id) && vis[g.ids[id] as int]
            && !visited[g.ids[id] as int] && g.ids[id] != skip)
}

/// The walk that computes each node's value from its parent's enters the
/// nodes that a plain walk enters, and gives a value to each of them.
pub proof fn lemma_pre_fold<I, EW, NW, V, F: Fn(&Node<NW>, Option<&EW>, Option<&V>) -> V>(
    g: GraphModel<I, EW, NW>,
    nodes: Seq<Node<NW>>,
    calculate: F,
    node: int,
    parent: Option<usize>,
    pw: Option<EW>,
    pv: Option<&V>,
    visited: Seq<bool>,
    table: Map<I, V>,
    k: nat,
    start: int,
    open: Set<int>,
)
    requires
        g.wf(),
        0 <= node < g.len(),
        visited.len() == g.len(),
        !visited[node],
        k <= g.edges[node].len(),
        parent is Some ==> parent->0 < g.len() && visited[parent->0 as int],
        settled(g, visited, open),
        all_reached(g, start, visited),
        reaches(g, start, node),
    ensures
        ({
            let (vis, tab) = pre_fold(g, nodes, calculate, node, parent, pw, pv, visited, table, k);
            &&& vis == entered_fold(g, node, visited, k)
            &&& keys_follow(g, table, tab, visited, vis, -1)
        }),
    decreases count_unvisited(visited), k,
{
    let value = pre_rule(calculate, nodes[node], pw, pv);
    if k == 0 {
        let tab = table.insert(g.keys[node], value);
        let vis = visited.update(node, true);
        assert(g.ids.contains_key(g.keys[node]) && g.ids[g.keys[node]] == node);
        assert forall|id: I| #[trigger]
            tab.contains_key(id) <==> table.contains_key(id) || (g.ids.contains_key(id) && vis[g.ids[id] as int]
                && !visited[g.ids[id] as int] && g.ids[id] != -1) by {
            if g.ids.contains_key(id) {
                assert(g.keys[g.ids[id] as int] == id);
            }
        }
    } else {
        lemma_pre_fold(g, nodes, calculate, node, parent, pw, pv, visited, table, (k - 1) as nat, start, open);
        lemma_entered_fold(g, start, node, visited, (k - 1) as nat, open);
        let (vis, tab) = pre_fold(
            g,
            nodes,
            calculate,
            node,
            parent,
            pw,
            pv,
            visited,
            table,
            (k - 1) as nat,
        );
        let (child, ew) = g.edges[node][k - 1];
        assert(0 <= child < g.len());
        if !vis[child as int] {
            assert(steps_to(parent, child, vis));
            lemma_reaches_step(g, start, node, k - 1);
            let full = g.edges[child as int].len();
            lemma_pre_fold(
                g,
                nodes,
                calculate,
                child as int,
                Some(node as usize),
                ew,
                Some(&value),
                vis,
                tab,
                full,
                start,
                open.insert(node),
            );
            lemma_entered_fold(g, start, child as int, vis, full, open.insert(node));
            let (vis2, tab2) = pre_visit(
                g,
                nodes,
                calculate,
                child as int,
                Some(node as usize),
                ew,
                Some(&value),
                vis,
                tab,
            );
            assert((vis2, tab2) == pre_fold(g, nodes, calculate, node, parent, pw, pv, visited, table, k));
            assert(vis2 == entered_fold(g, node, visited, k));
            assert forall|id: I| #[trigger]
                tab2.contains_key(id) <==> table.contains_key(id) || (g.ids.contains_key(id)
                    && vis2[g.ids[id] as int] && !visited[g.ids[id] as int] && g.ids[id] != -1) by {
                assert(tab2.contains_key(id) <==> tab.contains_key(id) || (g.ids.contains_key(id)
                    && vis2[g.ids[id] as int] && !vis[g.ids[id] as int] && g.ids[id] != -1));
                assert(tab.contains_key(id) <==> table.contains_key(id) || (g.ids.contains_key(id)
                    && vis[g.ids[id] as int] && !visited[g.ids[id] as int] && g.ids[id] != -1));
            }
        } else {
            assert(!steps_to(parent, child, vis));
            assert((vis, tab) == pre_fold(g, nodes, calculate, node, parent, pw, pv, visited, table, k));
            assert(vis == entered_fold(g, node, visited, k));
        }
    }
}

/// The walk that computes each node's value from its children's enters the
/// nodes that a plain walk enters, and gives a value to each of them but
/// the node it stands at, whose value is still to come.
pub proof fn lemma_post_fold<I, EW, NW, V, F: Fn(&Node<NW>, Option<&EW>, Vec<V>) -> V>(
    g: GraphModel<I, EW, NW>,
    nodes: Seq<Node<NW>>,
    calculate: F,
    node: int,
    parent: Option<usize>,
    visited: Seq<bool>,
    table: Map<I, V>,
    k: nat,
    start: int,
    open: Set<int>,
)
    requires
        g.wf(),
        0 <= node < g.len(),
        visited.len() == g.len(),
        !visited[node],
        k <= g.edges[node].len(),
        parent is Some ==> parent->0 < g.len() && visited[parent->0 as int],
        settled(g, visited, open),
        all_reached(g, start, visited),
        reaches(g, start, node),
    ensures
        ({
            let (cs, vis, tab) = post_fold(g, nodes, calculate, node, parent, visited, table, k);
            &&& vis == entered_fold(g, node, visited, k)
            &&& keys_follow(g, table, tab, visited, vis, node)
        }),
    decreases count_unvisited(visited), k,
{
    if k > 0 {
        lemma_post_fold(g, nodes, calculate, node, parent, visited, table, (k - 1) as nat, start, open);
        lemma_entered_fold(g, start, node, visited, (k - 1) as nat, open);
        let (cs, vis, tab) = post_fold(g, nodes, calculate, node, parent, visited, table, (k - 1) as nat);
        let (child, ew) = g.edges[node][k - 1];
        assert(0 <= child < g.len());
        if !vis[child as int] {
            assert(steps_to(parent, child, vis));
            lemma_reaches_step(g, start, node, k - 1);
            let full = g.edges[child as int].len();
            lemma_post_fold(
                g,
                nodes,
                calculate,
                child as int,
                Some(node as usize),
                vis,
                tab,
                full,
                start,
                open.insert(node),
            );
            lemma_entered_fold(g, start, child as int, vis, full, open.insert(node));
            let (cs2, vis2, tab2) = post_fold(
                g,
                nodes,
                calculate,
                child as int,
                Some(node as usize),
                vis,
                tab,
                full,
            );
            let (cv, vis3, tab3) = post_visit(
                g,
                nodes,
                calculate,
                child as int,
                Some(node as usize),
                ew,
                vis,
                tab,
            );
            assert(vis3 == vis2);
            assert(tab3 == tab2.insert(g.keys[child as int], cv));
            assert(g.ids.contains_key(g.keys[child as int]) && g.ids[g.keys[child as int]] == child);
            assert forall|id: I| #[trigger]
                tab3.contains_key(id) <==> table.contains_key(id) || (g.ids.contains_key(id)
                    && vis3[g.ids[id] as int] && !visited[g.ids[id] as int] && g.ids[id] != node) by {
                assert(tab2.contains_key(id) <==> tab.contains_key(id) || (g.ids.contains_key(id)
                    && vis2[g.ids[id] as int] && !vis[g.ids[id] as int] && g.ids[id] != child));
                assert(tab.contains_key(id) <==> table.contains_key(id) || (g.ids.contains_key(id)
                    && vis[g.ids[id] as int] && !visited[g.ids[id] as int] && g.ids[id] != node));
                if g.ids.contains_key(id) {
                    assert(g.keys[g.ids[id] as int] == id);
                }
            }
        }
    }
}

/// The table of the walk that goes from parents to children holds a value
/// for exactly the nodes that can be reached from `start`.
pub proof fn lemma_preorder_covers<I, EW, NW, V, F: Fn(&Node<NW>, Option<&EW>, Option<&V>) -> V>(
    g: GraphModel<I, EW, NW>,
    nodes: Seq<Node<NW>>,
    start: I,
    calculate: F,
    id: I,
)
    requires
        g.wf(),
        g.ids.contains_key(start),
    ensures
        preorder_answer(g, nodes, start, calculate).contains_key(id) <==> g.ids.contains_key(id)
            && reaches(g, g.ids[start] as int, g.ids[id] as int),
{
    let s = g.ids[start] as int;
    let none = nothing_visited(g.len());
    let empty = Set::<int>::empty();
    lemma_reaches_itself(g, s);
    lemma_pre_fold(
        g,
        nodes,
        calculate,
        s,
        None,
        None,
        None,
        none,
        Map::<I, V>::empty(),
        g.edges[s].len(),
        s,
        empty,
    );
    let (vis, tab) = pre_visit(g, nodes, calculate, s, None, None, None, none, Map::<I, V>::empty());
    assert(tab == preorder_answer(g, nodes, start, calculate));
    assert(tab.contains_key(id) <==> Map::<I, V>::empty().contains_key(id) || (g.ids.contains_key(id)
        && vis[g.ids[id] as int] && !none[g.ids[id] as int] && g.ids[id] != -1));
    if g.ids.contains_key(id) {
        lemma_walk_enters_reachable(g, s, g.ids[id] as int);
    }
}

/// The table of the walk that goes from children to parents holds a value
/// for exactly the nodes that can be reached from `start`.
pub proof fn lemma_postorder_covers<I, EW, NW, V, F: Fn(&Node<NW>, Option<&EW>, Vec<V>) -> V>(
    g: GraphModel<I, EW, NW>,
    nodes: Seq<Node<NW>>,
    start: I,
    calculate: F,
    id: I,
)
    requires
        g.wf(),
        g.ids.contains_key(start),
    ensures
        postorder_answer(g, nodes, start, calculate).contains_key(id) <==> g.ids.contains_key(id)
            && reaches(g, g.ids[start] as int, g.ids[id] as int),
{
    let s = g.ids[start] as int;
    let none = nothing_visited(g.len());
    let empty = Set::<int>::empty();
    lemma_reaches_itself(g, s);
    lemma_post_fold(g, nodes, calculate, s, None, none, Map::<I, V>::empty(), g.edges[s].len(), s, empty);
    lemma_entered_fold(g, s, s, none, g.edges[s].len(), empty);
    let (cs, vis, tab) = post_fold(
        g,
        nodes,
        calculate,
        s,
        None,
        none,
        Map::<I, V>::empty(),
        g.edges[s].len(),
    );
    let (value, vis2, tab2) = post_visit(g, nodes, calculate, s, None, None, none, Map::<I, V>::empty());
    assert(tab2 == postorder_answer(g, nodes, start, calculate));
    assert(tab2 == tab.insert(g.keys[s], value));
    assert(g.ids.contains_key(g.keys[s]) && g.ids[g.keys[s]] == s);
    assert(tab.contains_key(id) <==> Map::<I, V>::empty().contains_key(id) || (g.ids.contains_key(id)
        && vis[g.ids[id] as int] && !none[g.ids[id] as int] && g.ids[id] != s));
    if g.ids.contains_key(id) {
        assert(g.keys[g.ids[id] as int] == id);
        lemma_walk_enters_reachable(g, s, g.ids[id] as int);
    }
}

} // verus!
