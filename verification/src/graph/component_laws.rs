//! Why the two walks find the strongly connected components.
//!
//! The first walk lists the nodes in the order in which it leaves them.
//! Behind every node of that list stands the stretch of nodes that the walk
//! entered below it, and no edge leads into that stretch from further
//! back. The second walk goes against the edges from the node left last
//! that it has not entered: what it collects can reach that node, lies in
//! its stretch, and so can be reached from it.

use super::directed::{
    apart, collect_fold, collect_visit, components_from, finish_all, finish_fold, finish_visit, joined,
    kosaraju_roots, lists_within, turned_round, within,
};
use super::tree::{count_unvisited, lemma_enter, nothing_visited};
use crate::union_laws::lemma_united_relation;
use vstd::prelude::*;

verus! {

/// An edge leads from `a` to `b`.
pub open spec fn leads(adj: Seq<Seq<usize>>, a: int, b: int) -> bool {
    exists|k: int| 0 <= k < adj[a].len() && #[trigger] adj[a][k] == b
}

/// `route` names nodes, each joined to the next by an edge.
pub open spec fn is_route(adj: Seq<Seq<usize>>, route: Seq<int>) -> bool {
    &&& route.len() > 0
    &&& forall|i: int| 0 <= i < route.len() ==> 0 <= #[trigger] route[i] < adj.len()
    &&& forall|i: int| 0 <= i < route.len() - 1 ==> leads(adj, #[trigger] route[i], route[i + 1])
}

/// `b` can be reached from `a` along the edges.
pub open spec fn gets_to(adj: Seq<Seq<usize>>, a: int, b: int) -> bool {
    exists|route: Seq<int>| #[trigger] is_route(adj, route) && route[0] == a && route.last() == b
}

/// Each of `a` and `b` can be reached from the other: the two are in one
/// strongly connected component.
pub open spec fn mutual(adj: Seq<Seq<usize>>, a: int, b: int) -> bool {
    gets_to(adj, a, b) && gets_to(adj, b, a)
}

/// A node reaches itself.
pub proof fn lemma_gets_to_itself(adj: Seq<Seq<usize>>, a: int)
    requires
        0 <= a < adj.len(),
    ensures
        gets_to(adj, a, a),
{
    let route = seq![a];
    assert(is_route(adj, route));
    assert(route[0] == a && route.last() == a);
}

/// Two routes that meet make one.
pub proof fn lemma_gets_to_chain(adj: Seq<Seq<usize>>, a: int, b: int, c: int)
    requires
        gets_to(adj, a, b),
        gets_to(adj, b, c),
    ensures
        gets_to(adj, a, c),
{
    let first = choose|route: Seq<int>| #[trigger] is_route(adj, route) && route[0] == a && route.last() == b;
    let second = choose|route: Seq<int>| #[trigger] is_route(adj, route) && route[0] == b && route.last() == c;
    let whole = first.drop_last() + second;
    assert forall|i: int| 0 <= i < whole.len() implies 0 <= #[trigger] whole[i] < adj.len() by {
        if i < first.len() - 1 {
            assert(whole[i] == first[i]);
        } else {
            assert(whole[i] == second[i - (first.len() - 1)]);
        }
    }
    assert forall|i: int| 0 <= i < whole.len() - 1 implies leads(adj, #[trigger] whole[i], whole[i + 1]) by {
        let cut = first.len() - 1;
        if i < cut - 1 {
            assert(whole[i] == first[i] && whole[i + 1] == first[i + 1]);
            assert(leads(adj, first[i], first[i + 1]));
        } else if i == cut - 1 {
            assert(whole[i] == first[i]);
            assert(whole[i + 1] == second[0]);
            assert(first[i + 1] == b);
            assert(leads(adj, first[i], first[i + 1]));
        } else {
            assert(whole[i] == second[i - cut] && whole[i + 1] == second[i - cut + 1]);
            assert(leads(adj, second[i - cut], second[i - cut + 1]));
        }
    }
    assert(is_route(adj, whole));
    if first.len() > 1 {
        assert(whole[0] == first[0]);
    } else {
        assert(whole[0] == second[0]);
    }
    assert(whole.last() == second.last());
}

/// What reaches a node reaches the targets of its edges.
pub proof fn lemma_gets_to_step(adj: Seq<Seq<usize>>, n: nat, a: int, b: int, k: int)
    requires
        lists_within(adj, n),
        gets_to(adj, a, b),
        0 <= k < adj[b].len(),
    ensures
        0 <= b < n,
        gets_to(adj, a, adj[b][k] as int),
{
    let route = choose|route: Seq<int>| #[trigger] is_route(adj, route) && route[0] == a && route.last() == b;
    assert(0 <= route[route.len() - 1] < adj.len());
    let c = adj[b][k] as int;
    assert(within(adj[b], n));
    let hop = seq![b, c];
    assert(leads(adj, b, c));
    assert(is_route(adj, hop)) by {
        assert forall|i: int| 0 <= i < hop.len() - 1 implies leads(adj, #[trigger] hop[i], hop[i + 1]) by {
            assert(hop[0] == b && hop[1] == c);
        }
    }
    assert(hop[0] == b && hop.last() == c);
    lemma_gets_to_chain(adj, a, b, c);
}

/// Being in one component is an equivalence.
pub proof fn lemma_mutual_is_equivalence(adj: Seq<Seq<usize>>, a: int, b: int, c: int)
    requires
        0 <= a < adj.len(),
    ensures
        mutual(adj, a, a),
        mutual(adj, a, b) ==> mutual(adj, b, a),
        mutual(adj, a, b) && mutual(adj, b, c) ==> mutual(adj, a, c),
{
    lemma_gets_to_itself(adj, a);
    if mutual(adj, a, b) && mutual(adj, b, c) {
        lemma_gets_to_chain(adj, a, b, c);
        lemma_gets_to_chain(adj, c, b, a);
    }
}

/// The edges that lead to `y` among those that leave the nodes before
/// `from` and the first `k` that leave `from`.
pub open spec fn turned_so_far(adj: Seq<Seq<usize>>, from: nat, k: nat, y: int, x: int) -> bool {
    (0 <= x < from && leads(adj, x, y)) || (x == from && exists|j: int|
        0 <= j < k && #[trigger] adj[x][j] == y)
}

/// The reversed edges are the edges, turned round.
pub proof fn lemma_turned_round(adj: Seq<Seq<usize>>, n: nat, from: nat, k: nat)
    requires
        lists_within(adj, n),
        n <= usize::MAX,
        from < n && k <= adj[from as int].len() || from == n && k == 0,
    ensures
        lists_within(turned_round(adj, from, k), n),
        forall|y: int, x: int|
            0 <= y < n ==> (leads(turned_round(adj, from, k), y, x) <==> #[trigger] turned_so_far(
                adj,
                from,
                k,
                y,
                x,
            )),
    decreases from, k,
{
    let t = turned_round(adj, from, k);
    if k == 0 {
        if from == 0 {
            assert forall|i: int| 0 <= i < t.len() implies within(#[trigger] t[i], n) by {}
            assert forall|y: int, x: int| 0 <= y < n implies (leads(t, y, x) <==> #[trigger] turned_so_far(
                adj,
                from,
                k,
                y,
                x,
            )) by {}
        } else {
            let last = (from - 1) as nat;
            let full = adj[from - 1].len();
            lemma_turned_round(adj, n, last, full);
            assert forall|y: int, x: int| 0 <= y < n implies (leads(t, y, x) <==> #[trigger] turned_so_far(
                adj,
                from,
                k,
                y,
                x,
            )) by {
                assert(leads(t, y, x) <==> turned_so_far(adj, last, full, y, x));
                if turned_so_far(adj, last, full, y, x) && x == last {
                    let j = choose|j: int| 0 <= j < full && #[trigger] adj[x][j] == y;
                    assert(leads(adj, x, y));
                }
                if 0 <= x < from && leads(adj, x, y) && x == last {
                    let j = choose|j: int| 0 <= j < adj[x].len() && #[trigger] adj[x][j] == y;
                    assert(turned_so_far(adj, last, full, y, x));
                }
            }
        }
    } else {
        let before = turned_round(adj, from, (k - 1) as nat);
        lemma_turned_round(adj, n, from, (k - 1) as nat);
        assert(within(adj[from as int], n));
        let to = adj[from as int][k - 1] as int;
        assert(0 <= to < n);
        assert(t == before.update(to, before[to].push(from as usize)));
        assert forall|i: int| 0 <= i < t.len() implies within(#[trigger] t[i], n) by {
            assert(within(before[i], n));
        }
        assert forall|y: int, x: int| 0 <= y < n implies (leads(t, y, x) <==> #[trigger] turned_so_far(
            adj,
            from,
            k,
            y,
            x,
        )) by {
            assert(leads(before, y, x) <==> turned_so_far(adj, from, (k - 1) as nat, y, x));
            if leads(t, y, x) {
                let j = choose|j: int| 0 <= j < t[y].len() && #[trigger] t[y][j] == x;
                if y == to && j == before[to].len() {
                    assert(x == from);
                    assert(adj[x][k - 1] == y);
                } else {
                    assert(before[y][j] == x);
                    assert(leads(before, y, x));
                    if x == from {
                        let i = choose|i: int| 0 <= i < k - 1 && #[trigger] adj[x][i] == y;
                        assert(adj[x][i] == y);
                    }
                }
            }
            if turned_so_far(adj, from, k, y, x) {
                if x == from && adj[x][k - 1] == y {
                    assert(t[y][before[to].len() as int] == x);
                } else {
                    if x == from {
                        let i = choose|i: int| 0 <= i < k && #[trigger] adj[x][i] == y;
                        assert(i < k - 1);
                    }
                    assert(turned_so_far(adj, from, (k - 1) as nat, y, x));
                    let j = choose|j: int| 0 <= j < before[y].len() && #[trigger] before[y][j] == x;
                    assert(t[y][j] == x);
                }
            }
        }
    }
}

/// The graph of the reversed edges.
pub open spec fn turned(adj: Seq<Seq<usize>>) -> Seq<Seq<usize>> {
    turned_round(adj, adj.len(), 0)
}

/// An edge of the reversed graph is an edge of the graph, turned round.
pub proof fn lemma_turned_edges(adj: Seq<Seq<usize>>, n: nat, y: int, x: int)
    requires
        lists_within(adj, n),
        n <= usize::MAX,
        0 <= y < n,
    ensures
        lists_within(turned(adj), n),
        leads(turned(adj), y, x) <==> 0 <= x < n && leads(adj, x, y),
{
    lemma_turned_round(adj, n, n, 0);
    assert(leads(turned(adj), y, x) <==> turned_so_far(adj, n, 0, y, x));
}

/// A route of the reversed graph, read backwards, is a route of the graph.
pub proof fn lemma_turned_route(adj: Seq<Seq<usize>>, n: nat, a: int, b: int)
    requires
        lists_within(adj, n),
        n <= usize::MAX,
        gets_to(turned(adj), a, b),
    ensures
        gets_to(adj, b, a),
{
    let back = turned(adj);
    lemma_turned_round(adj, n, n, 0);
    let route = choose|route: Seq<int>| #[trigger] is_route(back, route) && route[0] == a && route.last() == b;
    let rev = route.reverse();
    assert forall|i: int| 0 <= i < rev.len() implies 0 <= #[trigger] rev[i] < adj.len() by {
        assert(rev[i] == route[route.len() - 1 - i]);
    }
    assert forall|i: int| 0 <= i < rev.len() - 1 implies leads(adj, #[trigger] rev[i], rev[i + 1]) by {
        let m = route.len() - 2 - i;
        assert(rev[i] == route[m + 1]);
        assert(rev[i + 1] == route[m]);
        assert(leads(back, route[m], route[m + 1]));
        lemma_turned_edges(adj, n, route[m], route[m + 1]);
    }
    assert(is_route(adj, rev));
    assert(rev[0] == b && rev.last() == a);
}

/// `x` stands in `order`.
pub open spec fn is_listed(order: Seq<usize>, x: int) -> bool {
    exists|i: int| 0 <= i < order.len() && #[trigger] order[i] == x
}

/// `longer` begins with `order`.
pub open spec fn begins_with(longer: Seq<usize>, order: Seq<usize>) -> bool {
    &&& longer.len() >= order.len()
    &&& forall|i: int| 0 <= i < order.len() ==> #[trigger] longer[i] == order[i]
}

/// Every node of `order` has been entered.
pub open spec fn listed_entered(vis: Seq<bool>, order: Seq<usize>) -> bool {
    forall|i: int| 0 <= i < order.len() ==> vis[#[trigger] order[i] as int]
}

/// Every edge that leaves a node of `order` leads to an entered node.
pub open spec fn left_behind(adj: Seq<Seq<usize>>, vis: Seq<bool>, order: Seq<usize>) -> bool {
    forall|i: int, k: int|
        0 <= i < order.len() && 0 <= k < adj[order[i] as int].len() ==> vis[#[trigger] adj[order[i] as int][k] as int]
}

/// The places `s..=j` of `order` are the stretch of the node at `j`: that
/// node reaches every node of the stretch, and no edge leads into the
/// stretch from a node that stands before it.
pub open spec fn is_stretch(adj: Seq<Seq<usize>>, order: Seq<usize>, s: int, j: int) -> bool {
    &&& 0 <= s <= j < order.len()
    &&& forall|i: int| s <= i <= j ==> gets_to(adj, order[j] as int, #[trigger] order[i] as int)
    &&& forall|i: int, k: int, m: int|
        0 <= i < s && 0 <= k < adj[order[i] as int].len() && s <= m <= j ==> #[trigger] adj[order[i] as int][k]
            != #[trigger] order[m]
}

/// The node at place `j` has a stretch.
pub open spec fn has_stretch(adj: Seq<Seq<usize>>, order: Seq<usize>, j: int) -> bool {
    exists|s: int| #[trigger] is_stretch(adj, order, s, j)
}

/// Every node of `order` has a stretch.
pub open spec fn all_stretched(adj: Seq<Seq<usize>>, order: Seq<usize>) -> bool {
    forall|j: int| 0 <= j < order.len() ==> #[trigger] has_stretch(adj, order, j)
}

/// What holds of the nodes entered and the nodes left while the first
/// walk runs.
pub open spec fn first_walk_sound(adj: Seq<Seq<usize>>, n: nat, vis: Seq<bool>, order: Seq<usize>) -> bool {
    &&& vis.len() == n
    &&& within(order, n)
    &&& listed_entered(vis, order)
    &&& left_behind(adj, vis, order)
    &&& all_stretched(adj, order)
}

/// A stretch stays one when more nodes are listed behind it.
pub proof fn lemma_stretch_stays(adj: Seq<Seq<usize>>, order: Seq<usize>, longer: Seq<usize>, j: int)
    requires
        begins_with(longer, order),
        0 <= j < order.len(),
        has_stretch(adj, order, j),
    ensures
        has_stretch(adj, longer, j),
{
    let s = choose|s: int| #[trigger] is_stretch(adj, order, s, j);
    assert forall|i: int| s <= i <= j implies gets_to(adj, longer[j] as int, #[trigger] longer[i] as int) by {
        assert(gets_to(adj, order[j] as int, order[i] as int));
    }
    assert forall|i: int, k: int, m: int|
        0 <= i < s && 0 <= k < adj[longer[i] as int].len() && s <= m <= j implies #[trigger] adj[longer[i] as int][k]
        != #[trigger] longer[m] by {
        assert(longer[i] == order[i]);
        assert(adj[order[i] as int][k] != order[m]);
    }
    assert(is_stretch(adj, longer, s, j));
}

/// What the first walk below `node` does: see `lemma_finish_fold`.
pub proof fn lemma_finish_visit(
    adj: Seq<Seq<usize>>,
    n: nat,
    node: int,
    visited: Seq<bool>,
    order: Seq<usize>,
)
    requires
        lists_within(adj, n),
        n <= usize::MAX,
        0 <= node < n,
        !visited[node],
        first_walk_sound(adj, n, visited, order),
    ensures
        ({
            let (vis, ord) = finish_visit(adj, node, visited, order);
            &&& vis[node]
            &&& forall|i: int| 0 <= i < n && visited[i] ==> vis[i]
            &&& count_unvisited(vis) < count_unvisited(visited)
            &&& begins_with(ord, order)
            &&& forall|i: int|
                order.len() <= i < ord.len() ==> !visited[#[trigger] ord[i] as int] && gets_to(
                    adj,
                    node,
                    ord[i] as int,
                )
            &&& first_walk_sound(adj, n, vis, ord)
            &&& forall|x: int| 0 <= x < n && vis[x] ==> visited[x] || #[trigger] is_listed(ord, x)
        }),
    decreases count_unvisited(visited), adj[node].len() + 1,
{
    let full = adj[node].len();
    lemma_finish_fold(adj, n, node, visited, order, full);
    let (vis, ord) = finish_fold(adj, node, visited, order, full);
    let ord1 = ord.push(node as usize);
    assert((vis, ord1) == finish_visit(adj, node, visited, order));
    lemma_gets_to_itself(adj, node);
    assert forall|j: int| 0 <= j < ord1.len() implies #[trigger] has_stretch(adj, ord1, j) by {
        if j < ord.len() {
            assert(has_stretch(adj, ord, j));
            lemma_stretch_stays(adj, ord, ord1, j);
        } else {
            let s = order.len() as int;
            assert forall|i: int| s <= i <= j implies gets_to(adj, ord1[j] as int, #[trigger] ord1[i] as int) by {
                if i < j {
                    assert(ord1[i] == ord[i]);
                }
            }
            assert forall|i: int, k: int, m: int|
                0 <= i < s && 0 <= k < adj[ord1[i] as int].len() && s <= m <= j implies #[trigger] adj[ord1[i] as int][k]
                != #[trigger] ord1[m] by {
                assert(ord1[i] == order[i]);
                assert(visited[adj[order[i] as int][k] as int]);
                if m < j {
                    assert(ord1[m] == ord[m]);
                    assert(!visited[ord[m] as int]);
                }
            }
            assert(is_stretch(adj, ord1, s, j));
        }
    }
    assert forall|i: int, k: int|
        0 <= i < ord1.len() && 0 <= k < adj[ord1[i] as int].len() implies vis[#[trigger] adj[ord1[i] as int][k] as int] by {
        if i < ord.len() {
            assert(ord1[i] == ord[i]);
        }
    }
    assert forall|i: int| 0 <= i < ord1.len() implies vis[#[trigger] ord1[i] as int] by {
        if i < ord.len() {
            assert(ord1[i] == ord[i]);
        }
    }
    assert forall|i: int| 0 <= i < ord1.len() implies #[trigger] ord1[i] < n by {
        if i < ord.len() {
            assert(ord1[i] == ord[i]);
        }
    }
    assert forall|i: int| order.len() <= i < ord1.len() implies !visited[#[trigger] ord1[i] as int]
        && gets_to(adj, node, ord1[i] as int) by {
        if i < ord.len() {
            assert(ord1[i] == ord[i]);
        }
    }
    assert forall|x: int| 0 <= x < n && vis[x] implies visited[x] || #[trigger] is_listed(ord1, x) by {
        if !visited[x] {
            if x == node {
                assert(ord1[ord.len() as int] == x);
            } else {
                assert(is_listed(ord, x));
                let i = choose|i: int| 0 <= i < ord.len() && #[trigger] ord[i] == x;
                assert(ord1[i] == x);
            }
        }
    }
}

/// What the first walk does once it has entered `node` and followed the
/// first `k` of its edges: it has entered no node twice and left none that
/// it had not entered, every node it left since reaches back to `node`
/// and has all its edges leading to entered nodes, and every node it left
/// has a stretch.
pub proof fn lemma_finish_fold(
    adj: Seq<Seq<usize>>,
    n: nat,
    node: int,
    visited: Seq<bool>,
    order: Seq<usize>,
    k: nat,
)
    requires
        lists_within(adj, n),
        n <= usize::MAX,
        0 <= node < n,
        !visited[node],
        k <= adj[node].len(),
        first_walk_sound(adj, n, visited, order),
    ensures
        ({
            let (vis, ord) = finish_fold(adj, node, visited, order, k);
            &&& vis[node]
            &&& forall|i: int| 0 <= i < n && visited[i] ==> vis[i]
            &&& count_unvisited(vis) < count_unvisited(visited)
            &&& begins_with(ord, order)
            &&& forall|i: int|
                order.len() <= i < ord.len() ==> !visited[#[trigger] ord[i] as int] && ord[i] != node
                    && gets_to(adj, node, ord[i] as int)
            &&& first_walk_sound(adj, n, vis, ord)
            &&& forall|j: int| 0 <= j < k ==> vis[#[trigger] adj[node][j] as int]
            &&& forall|x: int|
                0 <= x < n && vis[x] ==> visited[x] || x == node || #[trigger] is_listed(ord, x)
        }),
    decreases count_unvisited(visited), k,
{
    if k == 0 {
        lemma_enter(visited, node);
        let vis = visited.update(node, true);
        assert forall|i: int, j: int|
            0 <= i < order.len() && 0 <= j < adj[order[i] as int].len() implies vis[#[trigger] adj[order[i] as int][j] as int] by {
            assert(visited[adj[order[i] as int][j] as int]);
        }
        assert forall|i: int| 0 <= i < order.len() implies vis[#[trigger] order[i] as int] by {
            assert(visited[order[i] as int]);
        }
    } else {
        lemma_finish_fold(adj, n, node, visited, order, (k - 1) as nat);
        let (vis, ord) = finish_fold(adj, node, visited, order, (k - 1) as nat);
        assert(within(adj[node], n));
        let child = adj[node][k - 1] as int;
        assert(0 <= child < n);
        if !vis[child] {
            lemma_finish_visit(adj, n, child, vis, ord);
            let (vis2, ord2) = finish_visit(adj, child, vis, ord);
            assert((vis2, ord2) == finish_fold(adj, node, visited, order, k));
            lemma_gets_to_itself(adj, node);
            lemma_gets_to_step(adj, n, node, node, k - 1);
            assert forall|i: int| 0 <= i < order.len() implies #[trigger] ord2[i] == order[i] by {
                assert(ord[i] == order[i]);
            }
            assert forall|i: int| order.len() <= i < ord2.len() implies !visited[#[trigger] ord2[i] as int]
                && ord2[i] != node && gets_to(adj, node, ord2[i] as int) by {
                if i < ord.len() {
                    assert(ord2[i] == ord[i]);
                } else {
                    assert(!vis[ord2[i] as int]);
                    lemma_gets_to_chain(adj, node, child, ord2[i] as int);
                }
            }
            assert forall|j: int| 0 <= j < k implies vis2[#[trigger] adj[node][j] as int] by {
                if j < k - 1 {
                    assert(vis[adj[node][j] as int]);
                }
            }
            assert forall|x: int| 0 <= x < n && vis2[x] implies visited[x] || x == node || #[trigger] is_listed(
                ord2,
                x,
            ) by {
                if vis[x] && !visited[x] && x != node {
                    assert(is_listed(ord, x));
                    let i = choose|i: int| 0 <= i < ord.len() && #[trigger] ord[i] == x;
                    assert(ord2[i] == x);
                }
            }
        } else {
            assert((vis, ord) == finish_fold(adj, node, visited, order, k));
        }
    }
}

/// After the first walk was started from each of the first `i` nodes, it
/// has entered these nodes, left every node that it entered, and every
/// node it left has a stretch.
pub proof fn lemma_finish_all(adj: Seq<Seq<usize>>, n: nat, i: nat)
    requires
        lists_within(adj, n),
        n <= usize::MAX,
        i <= n,
    ensures
        ({
            let (vis, ord) = finish_all(adj, i);
            &&& first_walk_sound(adj, n, vis, ord)
            &&& forall|x: int| 0 <= x < i ==> vis[x]
            &&& forall|x: int| 0 <= x < n && vis[x] ==> #[trigger] is_listed(ord, x)
        }),
    decreases i,
{
    if i > 0 {
        lemma_finish_all(adj, n, (i - 1) as nat);
        let (vis, ord) = finish_all(adj, (i - 1) as nat);
        if !vis[i - 1] {
            lemma_finish_visit(adj, n, i - 1, vis, ord);
            let (vis2, ord2) = finish_visit(adj, i - 1, vis, ord);
            assert forall|x: int| 0 <= x < n && vis2[x] implies #[trigger] is_listed(ord2, x) by {
                if vis[x] {
                    assert(is_listed(ord, x));
                    let m = choose|m: int| 0 <= m < ord.len() && #[trigger] ord[m] == x;
                    assert(ord2[m] == x);
                }
            }
        }
    }
}

/// Every edge that leaves an entered node outside `open` leads to an
/// entered node.
pub open spec fn closed_but(back: Seq<Seq<usize>>, vis: Seq<bool>, open: Set<int>) -> bool {
    forall|u: int, k: int|
        0 <= u < vis.len() && vis[u] && !open.contains(u) && 0 <= k < back[u].len() ==> vis[#[trigger] back[u][k] as int]
}

/// `x` stands in `order` at the place `from` or behind it.
pub open spec fn is_listed_from(order: Seq<usize>, from: int, x: int) -> bool {
    exists|i: int| from <= i < order.len() && #[trigger] order[i] == x
}

/// What the second walk does once it has entered `node` and followed the
/// first `k` of its edges: it has collected `node` first and after it
/// exactly the nodes that it entered since, each of which `node` reaches,
/// and every edge of a node that it entered, `node` apart, leads to an
/// entered node.
pub proof fn lemma_collect_fold(
    back: Seq<Seq<usize>>,
    n: nat,
    node: int,
    visited: Seq<bool>,
    comp: Seq<usize>,
    k: nat,
    open: Set<int>,
)
    requires
        lists_within(back, n),
        n <= usize::MAX,
        0 <= node < n,
        visited.len() == n,
        !visited[node],
        k <= back[node].len(),
        within(comp, n),
        closed_but(back, visited, open),
    ensures
        ({
            let (vis, cs) = collect_fold(back, node, visited, comp, k);
            &&& vis.len() == n
            &&& vis[node]
            &&& forall|i: int| 0 <= i < n && visited[i] ==> vis[i]
            &&& count_unvisited(vis) < count_unvisited(visited)
            &&& within(cs, n)
            &&& begins_with(cs, comp)
            &&& cs.len() > comp.len()
            &&& cs[comp.len() as int] == node
            &&& forall|i: int|
                comp.len() <= i < cs.len() ==> !visited[#[trigger] cs[i] as int] && vis[cs[i] as int]
                    && gets_to(back, node, cs[i] as int)
            &&& closed_but(back, vis, open.insert(node))
            &&& forall|j: int| 0 <= j < k ==> vis[#[trigger] back[node][j] as int]
            &&& forall|x: int|
                0 <= x < n && vis[x] ==> visited[x] || #[trigger] is_listed_from(cs, comp.len() as int, x)
        }),
    decreases count_unvisited(visited), k,
{
    if k == 0 {
        lemma_enter(visited, node);
        lemma_gets_to_itself(back, node);
        let vis = visited.update(node, true);
        let cs = comp.push(node as usize);
        assert forall|x: int| 0 <= x < n && vis[x] implies visited[x] || #[trigger] is_listed_from(
            cs,
            comp.len() as int,
            x,
        ) by {
            if !visited[x] {
                assert(cs[comp.len() as int] == x);
            }
        }
        assert forall|i: int| 0 <= i < cs.len() implies #[trigger] cs[i] < n by {
            if i < comp.len() {
                assert(cs[i] == comp[i]);
            }
        }
    } else {
        lemma_collect_fold(back, n, node, visited, comp, (k - 1) as nat, open);
        let (vis, cs) = collect_fold(back, node, visited, comp, (k - 1) as nat);
        assert(within(back[node], n));
        let child = back[node][k - 1] as int;
        assert(0 <= child < n);
        if !vis[child] {
            let full = back[child].len();
            lemma_collect_fold(back, n, child, vis, cs, full, open.insert(node));
            let (vis2, cs2) = collect_fold(back, child, vis, cs, full);
            assert((vis2, cs2) == collect_visit(back, child, vis, cs));
            assert((vis2, cs2) == collect_fold(back, node, visited, comp, k));
            lemma_gets_to_itself(back, node);
            lemma_gets_to_step(back, n, node, node, k - 1);
            assert forall|i: int| 0 <= i < comp.len() implies #[trigger] cs2[i] == comp[i] by {
                assert(cs[i] == comp[i]);
            }
            assert(cs2[comp.len() as int] == cs[comp.len() as int]);
            assert forall|i: int| comp.len() <= i < cs2.len() implies !visited[#[trigger] cs2[i] as int]
                && vis2[cs2[i] as int] && gets_to(back, node, cs2[i] as int) by {
                if i < cs.len() {
                    assert(cs2[i] == cs[i]);
                } else {
                    assert(!vis[cs2[i] as int]);
                    lemma_gets_to_chain(back, node, child, cs2[i] as int);
                }
            }
            assert forall|u: int, j: int|
                0 <= u < vis2.len() && vis2[u] && !open.insert(node).contains(u) && 0 <= j < back[u].len() implies vis2[#[trigger] back[u][j] as int] by {
                if u != child {
                    assert(!open.insert(node).insert(child).contains(u));
                }
            }
            assert forall|j: int| 0 <= j < k implies vis2[#[trigger] back[node][j] as int] by {
                if j < k - 1 {
                    assert(vis[back[node][j] as int]);
                }
            }
            assert forall|x: int| 0 <= x < n && vis2[x] implies visited[x] || #[trigger] is_listed_from(
                cs2,
                comp.len() as int,
                x,
            ) by {
                if !visited[x] {
                    if vis[x] {
                        assert(is_listed_from(cs, comp.len() as int, x));
                        let i = choose|i: int| comp.len() <= i < cs.len() && #[trigger] cs[i] == x;
                        assert(cs2[i] == x);
                    } else {
                        assert(is_listed_from(cs2, cs.len() as int, x));
                        let i = choose|i: int| cs.len() <= i < cs2.len() && #[trigger] cs2[i] == x;
                        assert(cs2[i] == x);
                    }
                }
            }
        } else {
            assert((vis, cs) == collect_fold(back, node, visited, comp, k));
        }
    }
}

/// One of the first `k` nodes of `comp` is `x`.
pub open spec fn in_first(comp: Seq<usize>, k: nat, x: int) -> bool {
    exists|i: int| 0 <= i < k && i < comp.len() && #[trigger] comp[i] == x
}

/// Uniting the first of `comp` with each of its next members, where every
/// member stood alone, puts exactly the members together.
pub proof fn lemma_joined(rep: Seq<int>, n: nat, comp: Seq<usize>, k: nat, u: int, v: int)
    requires
        rep.len() == n,
        within(comp, n),
        k <= comp.len(),
        0 <= u < n,
        0 <= v < n,
        forall|i: int, x: int|
            0 <= i < comp.len() && 0 <= x < n ==> (rep[#[trigger] comp[i] as int] == #[trigger] rep[x] <==> x
                == comp[i]),
    ensures
        joined(rep, comp, k).len() == n,
        joined(rep, comp, k)[u] == joined(rep, comp, k)[v] <==> rep[u] == rep[v] || (in_first(comp, k, u)
            && in_first(comp, k, v)),
    decreases k,
{
    if k <= 1 {
        if in_first(comp, k, u) && in_first(comp, k, v) {
            let i = choose|i: int| 0 <= i < k && i < comp.len() && #[trigger] comp[i] == u;
            let j = choose|j: int| 0 <= j < k && j < comp.len() && #[trigger] comp[j] == v;
            assert(i == 0 && j == 0);
        }
    } else {
        let last = (k - 1) as nat;
        let prev = joined(rep, comp, last);
        let first = comp[0] as int;
        let new = comp[k - 1] as int;
        assert(0 <= first < n && 0 <= new < n);
        lemma_joined(rep, n, comp, last, u, v);
        lemma_joined(rep, n, comp, last, u, first);
        lemma_joined(rep, n, comp, last, u, new);
        lemma_joined(rep, n, comp, last, v, first);
        lemma_joined(rep, n, comp, last, v, new);
        lemma_united_relation(prev, first, new, u, v);
        assert(in_first(comp, last, first)) by {
            assert(comp[0] == first);
        }
        assert(rep[comp[0] as int] == rep[u] <==> u == first);
        assert(rep[comp[0] as int] == rep[v] <==> v == first);
        assert(rep[comp[k - 1] as int] == rep[u] <==> u == new);
        assert(rep[comp[k - 1] as int] == rep[v] <==> v == new);
        assert forall|x: int| in_first(comp, k, x) <==> in_first(comp, last, x) || x == new by {
            if in_first(comp, k, x) {
                let i = choose|i: int| 0 <= i < k && i < comp.len() && #[trigger] comp[i] == x;
                if i < last {
                    assert(in_first(comp, last, x));
                }
            }
            if in_first(comp, last, x) {
                let i = choose|i: int| 0 <= i < last && i < comp.len() && #[trigger] comp[i] == x;
                assert(in_first(comp, k, x));
            }
            if x == new {
                assert(comp[k - 1] == x);
            }
        }
        if in_first(comp, last, u) {
            let i = choose|i: int| 0 <= i < last && i < comp.len() && #[trigger] comp[i] == u;
        }
    }
}

/// Every node of `route` stands in `order` at the place `at` or before it.
pub open spec fn route_stands_upto(order: Seq<usize>, at: int, route: Seq<int>) -> bool {
    forall|t: int| 0 <= t < route.len() ==> #[trigger] stands_between(order, 0, at, route[t])
}

/// `x` stands in `order` at one of the places `s..=at`.
pub open spec fn stands_between(order: Seq<usize>, s: int, at: int, x: int) -> bool {
    exists|m: int| s <= m <= at && 0 <= m < order.len() && #[trigger] order[m] == x
}

/// A route to the node at the place `at` that stays among the nodes at
/// that place and before it stays inside the stretch of that node.
pub proof fn lemma_route_in_stretch(
    adj: Seq<Seq<usize>>,
    order: Seq<usize>,
    s: int,
    at: int,
    route: Seq<int>,
    t: int,
)
    requires
        is_stretch(adj, order, s, at),
        is_route(adj, route),
        route.last() == order[at],
        route_stands_upto(order, at, route),
        0 <= t < route.len(),
    ensures
        stands_between(order, s, at, route[t]),
    decreases route.len() - t,
{
    if t == route.len() - 1 {
        assert(order[at] == route[t]);
    } else {
        lemma_route_in_stretch(adj, order, s, at, route, t + 1);
        let far = choose|m: int| s <= m <= at && 0 <= m < order.len() && #[trigger] order[m] == route[t + 1];
        assert(stands_between(order, 0, at, route[t]));
        let m = choose|m: int| 0 <= m <= at && 0 <= m < order.len() && #[trigger] order[m] == route[t];
        if m < s {
            assert(leads(adj, route[t], route[t + 1]));
            let k = choose|k: int| 0 <= k < adj[route[t]].len() && #[trigger] adj[route[t]][k] == route[t + 1];
            assert(adj[order[m] as int][k] != order[far]);
        }
    }
}

/// Where the entered nodes are closed against the edges, a route that
/// starts outside them stays outside them.
pub proof fn lemma_route_outside(adj: Seq<Seq<usize>>, n: nat, vis: Seq<bool>, route: Seq<int>, t: int)
    requires
        lists_within(adj, n),
        n <= usize::MAX,
        vis.len() == n,
        closed_but(turned(adj), vis, Set::<int>::empty()),
        is_route(adj, route),
        !vis[route[0]],
        0 <= t < route.len(),
    ensures
        !vis[route[t]],
    decreases t,
{
    if t > 0 {
        lemma_route_outside(adj, n, vis, route, t - 1);
        let a = route[t - 1];
        let b = route[t];
        assert(0 <= a < n && 0 <= b < n);
        assert(leads(adj, a, b));
        lemma_turned_edges(adj, n, b, a);
        let k = choose|k: int| 0 <= k < turned(adj)[b].len() && #[trigger] turned(adj)[b][k] == a;
        if vis[b] {
            assert(!Set::<int>::empty().contains(b));
            assert(vis[turned(adj)[b][k] as int]);
        }
    }
}

/// The representatives put two nodes together exactly if they are the same
/// node, or both entered and in one component.
pub open spec fn groups_entered(adj: Seq<Seq<usize>>, vis: Seq<bool>, rep: Seq<int>) -> bool {
    forall|u: int, v: int|
        0 <= u < vis.len() && 0 <= v < vis.len() ==> (#[trigger] rep[u] == #[trigger] rep[v] <==> u == v || (
        vis[u] && vis[v] && mutual(adj, u, v)))
}

/// After the second walk was started from the nodes of `order` from the
/// place `at` on, last first, it has entered these nodes, the entered
/// nodes are closed against the edges, and the representatives put the
/// entered nodes together by component.
pub proof fn lemma_components_from(adj: Seq<Seq<usize>>, n: nat, order: Seq<usize>, at: nat)
    requires
        lists_within(adj, n),
        n <= usize::MAX,
        within(order, n),
        all_stretched(adj, order),
        forall|x: int| 0 <= x < n ==> #[trigger] is_listed(order, x),
        at <= order.len(),
    ensures
        ({
            let (vis, rep) = components_from(turned(adj), order, at);
            &&& vis.len() == n
            &&& rep.len() == n
            &&& closed_but(turned(adj), vis, Set::<int>::empty())
            &&& forall|i: int| at <= i < order.len() ==> vis[#[trigger] order[i] as int]
            &&& groups_entered(adj, vis, rep)
        }),
    decreases order.len() - at,
{
    let back = turned(adj);
    lemma_turned_round(adj, n, n, 0);
    if at < order.len() {
        lemma_components_from(adj, n, order, at + 1);
        let (vis, rep) = components_from(back, order, at + 1);
        let root = order[at as int] as int;
        assert(0 <= root < n);
        if !vis[root] {
            let empty = Set::<int>::empty();
            let none = Seq::<usize>::empty();
            let full = back[root].len();
            lemma_collect_fold(back, n, root, vis, none, full, empty);
            let (vis2, comp) = collect_visit(back, root, vis, none);
            assert((vis2, comp) == collect_fold(back, root, vis, none, full));
            let rep2 = joined(rep, comp, comp.len());
            assert((vis2, rep2) == components_from(back, order, at));
            assert(closed_but(back, vis2, empty)) by {
                assert forall|u: int, j: int|
                    0 <= u < vis2.len() && vis2[u] && !empty.contains(u) && 0 <= j < back[u].len() implies vis2[#[trigger] back[u][j] as int] by {
                    if u != root {
                        assert(!empty.insert(root).contains(u));
                    }
                }
            }
            assert(has_stretch(adj, order, at as int));
            let s = choose|s: int| #[trigger] is_stretch(adj, order, s, at as int);
            assert forall|i: int| 0 <= i < comp.len() implies mutual(adj, root, #[trigger] comp[i] as int) by {
                let c = comp[i] as int;
                assert(gets_to(back, root, c));
                lemma_turned_route(adj, n, root, c);
                let route = choose|route: Seq<int>| #[trigger]
                    is_route(adj, route) && route[0] == c && route.last() == root;
                assert forall|t: int| 0 <= t < route.len() implies #[trigger] stands_between(
                    order,
                    0,
                    at as int,
                    route[t],
                ) by {
                    lemma_route_outside(adj, n, vis, route, t);
                    assert(is_listed(order, route[t]));
                    let m = choose|m: int| 0 <= m < order.len() && #[trigger] order[m] == route[t];
                    if m > at {
                        assert(vis[order[m] as int]);
                    }
                }
                lemma_route_in_stretch(adj, order, s, at as int, route, 0);
                let m = choose|m: int| s <= m <= at && 0 <= m < order.len() && #[trigger] order[m] == route[0];
                assert(gets_to(adj, order[at as int] as int, order[m] as int));
            }
            assert forall|i: int, x: int| 0 <= i < comp.len() && 0 <= x < n implies (rep[#[trigger] comp[i] as int]
                == #[trigger] rep[x] <==> x == comp[i]) by {
                assert(!vis[comp[i] as int]);
            }
            lemma_joined(rep, n, comp, comp.len(), root, root);
            assert forall|u: int, v: int| 0 <= u < vis2.len() && 0 <= v < vis2.len() implies (#[trigger] rep2[u]
                == #[trigger] rep2[v] <==> u == v || (vis2[u] && vis2[v] && mutual(adj, u, v))) by {
                lemma_joined(rep, n, comp, comp.len(), u, v);
                let new_u = in_first(comp, comp.len(), u);
                let new_v = in_first(comp, comp.len(), v);
                assert(new_u <==> vis2[u] && !vis[u]) by {
                    if new_u {
                        let i = choose|i: int| 0 <= i < comp.len() && i < comp.len() && #[trigger] comp[i] == u;
                        assert(!vis[comp[i] as int] && vis2[comp[i] as int]);
                    }
                    if vis2[u] && !vis[u] {
                        assert(is_listed_from(comp, 0, u));
                        let i = choose|i: int| 0 <= i < comp.len() && #[trigger] comp[i] == u;
                        assert(in_first(comp, comp.len(), u));
                    }
                }
                assert(new_v <==> vis2[v] && !vis[v]) by {
                    if new_v {
                        let i = choose|i: int| 0 <= i < comp.len() && i < comp.len() && #[trigger] comp[i] == v;
                        assert(!vis[comp[i] as int] && vis2[comp[i] as int]);
                    }
                    if vis2[v] && !vis[v] {
                        assert(is_listed_from(comp, 0, v));
                        let i = choose|i: int| 0 <= i < comp.len() && #[trigger] comp[i] == v;
                        assert(in_first(comp, comp.len(), v));
                    }
                }
                assert(rep[u] == rep[v] <==> u == v || (vis[u] && vis[v] && mutual(adj, u, v)));
                if new_u && new_v {
                    let i = choose|i: int| 0 <= i < comp.len() && i < comp.len() && #[trigger] comp[i] == u;
                    let j = choose|j: int| 0 <= j < comp.len() && j < comp.len() && #[trigger] comp[j] == v;
                    assert(mutual(adj, root, comp[i] as int));
                    assert(mutual(adj, root, comp[j] as int));
                    lemma_mutual_is_equivalence(adj, root, u, v);
                    lemma_mutual_is_equivalence(adj, u, root, v);
                }
                if u != v && vis2[u] && vis2[v] && mutual(adj, u, v) {
                    if vis[u] && !vis[v] {
                        let route = choose|route: Seq<int>| #[trigger]
                            is_route(adj, route) && route[0] == v && route.last() == u;
                        lemma_route_outside(adj, n, vis, route, route.len() - 1);
                    }
                    if vis[v] && !vis[u] {
                        let route = choose|route: Seq<int>| #[trigger]
                            is_route(adj, route) && route[0] == u && route.last() == v;
                        lemma_route_outside(adj, n, vis, route, route.len() - 1);
                    }
                }
            }
            assert forall|i: int| at <= i < order.len() implies vis2[#[trigger] order[i] as int] by {
                if i > at {
                    assert(vis[order[i] as int]);
                }
            }
        } else {
            assert((vis, rep) == components_from(back, order, at));
            assert forall|i: int| at <= i < order.len() implies vis[#[trigger] order[i] as int] by {}
        }
    } else {
        let vis = nothing_visited(n);
        let rep = apart(n);
        assert((vis, rep) == components_from(back, order, at));
    }
}

/// The two walks put two nodes together exactly if each can be reached
/// from the other: their sets are the strongly connected components.
pub proof fn lemma_components_are_mutual(adj: Seq<Seq<usize>>, u: int, v: int)
    requires
        lists_within(adj, adj.len()),
        adj.len() <= usize::MAX,
        0 <= u < adj.len(),
        0 <= v < adj.len(),
    ensures
        kosaraju_roots(adj)[u] == kosaraju_roots(adj)[v] <==> mutual(adj, u, v),
{
    let n = adj.len();
    lemma_finish_all(adj, n, n);
    let (seen, order) = finish_all(adj, n);
    lemma_components_from(adj, n, order, 0);
    let (vis, rep) = components_from(turned(adj), order, 0);
    assert(rep == kosaraju_roots(adj));
    assert(is_listed(order, u));
    assert(is_listed(order, v));
    let i = choose|i: int| 0 <= i < order.len() && #[trigger] order[i] == u;
    let j = choose|j: int| 0 <= j < order.len() && #[trigger] order[j] == v;
    assert(vis[order[i] as int]);
    assert(vis[order[j] as int]);
    assert(rep[u] == rep[v] <==> u == v || (vis[u] && vis[v] && mutual(adj, u, v)));
    lemma_mutual_is_equivalence(adj, u, v, v);
}

} // verus!
