//! Operations on directed graphs.
//!
//! The one operation here groups the nodes of a directed graph by strongly
//! connected component. A first depth-first walk along the edges orders
//! the nodes by the time at which it leaves them. A second walk, against
//! the edges, starts from the nodes left last and collects one component at
//! a time.

use super::component_laws::{lemma_components_are_mutual, mutual};
use super::tree::{count_unvisited, lemma_enter, lemma_entered_more, nothing_visited};
use super::{Directed, Graph};
use crate::union_find::{united_roots, UnionFind};
use std::hash::Hash;
use vstd::prelude::*;

verus! {

/// Every entry of `order` is the number of one of `n` nodes.
pub open spec fn within(order: Seq<usize>, n: nat) -> bool {
    forall|i: int| 0 <= i < order.len() ==> #[trigger] order[i] < n
}

/// `lists` holds `n` lists of numbers of nodes.
pub open spec fn lists_within(lists: Seq<Seq<usize>>, n: nat) -> bool {
    &&& lists.len() == n
    &&& forall|i: int| 0 <= i < lists.len() ==> within(#[trigger] lists[i], n)
}

/// The targets of the edges that leave each node.
pub open spec fn targets<EW>(edges: Seq<Seq<(usize, Option<EW>)>>) -> Seq<Seq<usize>> {
    Seq::new(edges.len(), |i: int| Seq::new(edges[i].len(), |k: int| edges[i][k].0))
}

/// The lists that a vector of vectors holds.
pub open spec fn lists_of(lists: Seq<Vec<usize>>) -> Seq<Seq<usize>> {
    Seq::new(lists.len(), |i: int| lists[i]@)
}

/// The nodes entered and the nodes left, in the order of leaving, after
/// the first walk below `node`.
pub open spec fn finish_visit(adj: Seq<Seq<usize>>, node: int, visited: Seq<bool>, order: Seq<usize>) -> (
    Seq<bool>,
    Seq<usize>,
)
    decreases count_unvisited(visited), adj[node].len() + 1,
{
    let (vis, ord) = finish_fold(adj, node, visited, order, adj[node].len());
    (vis, ord.push(node as usize))
}

/// The nodes entered and the nodes left after the first walk has entered
/// `node` and followed the first `k` of its edges.
pub open spec fn finish_fold(
    adj: Seq<Seq<usize>>,
    node: int,
    visited: Seq<bool>,
    order: Seq<usize>,
    k: nat,
) -> (Seq<bool>, Seq<usize>)
    decreases count_unvisited(visited), k,
{
    if k == 0 {
        (visited.update(node, true), order)
    } else {
        let (vis, ord) = finish_fold(adj, node, visited, order, (k - 1) as nat);
        let next = adj[node][k - 1];
        if next < vis.len() && !vis[next as int] && count_unvisited(vis) < count_unvisited(visited) {
            finish_visit(adj, next as int, vis, ord)
        } else {
            (vis, ord)
        }
    }
}

/// The nodes entered and the nodes left after the first walk was started
/// from each of the first `i` nodes that it had not entered by then.
pub open spec fn finish_all(adj: Seq<Seq<usize>>, i: nat) -> (Seq<bool>, Seq<usize>)
    decreases i,
{
    if i == 0 {
        (nothing_visited(adj.len()), Seq::empty())
    } else {
        let (vis, ord) = finish_all(adj, (i - 1) as nat);
        if !vis[i - 1] {
            finish_visit(adj, i - 1, vis, ord)
        } else {
            (vis, ord)
        }
    }
}

/// The reversed edges, after the edges of the nodes before `from` and the
/// first `k` edges of `from` have been turned round.
pub open spec fn turned_round(adj: Seq<Seq<usize>>, from: nat, k: nat) -> Seq<Seq<usize>>
    decreases from, k,
{
    if k == 0 {
        if from == 0 {
            Seq::new(adj.len(), |i: int| Seq::<usize>::empty())
        } else {
            turned_round(adj, (from - 1) as nat, adj[from - 1].len())
        }
    } else {
        let t = turned_round(adj, from, (k - 1) as nat);
        let to = adj[from as int][k - 1] as int;
        t.update(to, t[to].push(from as usize))
    }
}

/// The nodes entered and the nodes collected after the second walk below
/// `node`.
pub open spec fn collect_visit(
    back: Seq<Seq<usize>>,
    node: int,
    visited: Seq<bool>,
    component: Seq<usize>,
) -> (Seq<bool>, Seq<usize>)
    decreases count_unvisited(visited), back[node].len() + 1,
{
    collect_fold(back, node, visited, component, back[node].len())
}

/// The nodes entered and the nodes collected after the second walk has
/// entered `node` and followed the first `k` of its reversed edges.
pub open spec fn collect_fold(
    back: Seq<Seq<usize>>,
    node: int,
    visited: Seq<bool>,
    component: Seq<usize>,
    k: nat,
) -> (Seq<bool>, Seq<usize>)
    decreases count_unvisited(visited), k,
{
    if k == 0 {
        (visited.update(node, true), component.push(node as usize))
    } else {
        let (vis, comp) = collect_fold(back, node, visited, component, (k - 1) as nat);
        let next = back[node][k - 1];
        if next < vis.len() && !vis[next as int] && count_unvisited(vis) < count_unvisited(visited) {
            collect_visit(back, next as int, vis, comp)
        } else {
            (vis, comp)
        }
    }
}

/// The representatives after the first of `component` has been united with
/// each of its next `k - 1` members in turn.
pub open spec fn joined(rep: Seq<int>, component: Seq<usize>, k: nat) -> Seq<int>
    decreases k,
{
    if k <= 1 {
        rep
    } else {
        united_roots(
            joined(rep, component, (k - 1) as nat),
            component[0] as int,
            component[k - 1] as int,
        )
    }
}

/// Every node its own representative.
pub open spec fn apart(n: nat) -> Seq<int> {
    Seq::new(n, |i: int| i)
}

/// The nodes entered and the representatives after the second walk was
/// started from each of the nodes of `order` from position `at` on, last
/// first, that it had not entered by then, and each component it collected
/// was united.
pub open spec fn components_from(back: Seq<Seq<usize>>, order: Seq<usize>, at: nat) -> (
    Seq<bool>,
    Seq<int>,
)
    decreases order.len() - at,
{
    if at >= order.len() {
        (nothing_visited(back.len()), apart(back.len()))
    } else {
        let (vis, rep) = components_from(back, order, at + 1);
        let node = order[at as int] as int;
        if !vis[node] {
            let (vis2, component) = collect_visit(back, node, vis, Seq::empty());
            (vis2, joined(rep, component, component.len()))
        } else {
            (vis, rep)
        }
    }
}

/// The representatives that the two walks leave behind on the graph of
/// the edge targets `adj`.
pub open spec fn kosaraju_roots(adj: Seq<Seq<usize>>) -> Seq<int> {
    components_from(
        turned_round(adj, adj.len(), 0),
        finish_all(adj, adj.len()).1,
        0,
    ).1
}

impl<I, EW, NW> Graph<I, EW, NW, Directed> where
    I: Clone + Eq + Hash,
    EW: Copy,
    NW: Copy,
 {
    /// Groups the nodes by strongly connected component, by Kosaraju's two
    /// walks.
    ///
    /// Two nodes are in the same set of the result exactly if each can be
    /// reached from the other along the edges. The representative of each
    /// set is the one that the walks leave behind: each component that the
    /// second walk collects is united in the order in which it was
    /// collected.
    pub fn to_dsu(&self) -> (dsu: UnionFind)
        requires
            self.wf(),
        ensures
            dsu.wf(),
            dsu.len() == self.model().len(),
            dsu.roots() == kosaraju_roots(targets(self.model().edges)),
            forall|u: int, v: int|
                0 <= u < dsu.len() && 0 <= v < dsu.len() ==> (#[trigger] dsu.same_set(u, v) <==> mutual(
                    targets(self.model().edges),
                    u,
                    v,
                )),
    {
        let ghost adj = targets(self.model().edges);
        let n = self.nodes.len();
        assert(adj.len() == n);
        proof {
            assert forall|i: int| 0 <= i < adj.len() implies within(#[trigger] adj[i], n as nat) by {
                assert forall|k: int| 0 <= k < adj[i].len() implies #[trigger] adj[i][k] < n by {
                    assert(self.model().edges[i][k].0 < n);
                }
            }
            assert forall|u: int, v: int| 0 <= u < n && 0 <= v < n implies (kosaraju_roots(adj)[u]
                == kosaraju_roots(adj)[v] <==> mutual(adj, u, v)) by {
                lemma_components_are_mutual(adj, u, v);
            }
        }
        if n == 0 {
            let dsu = UnionFind::new(0);
            proof {
                crate::union_find::lemma_roots_len(&dsu);
                assert(dsu.roots() =~= apart(0));
            }
            return dsu;
        }
        let mut visited = vec![false; n];
        let mut finish_order: Vec<usize> = Vec::new();
        assert(visited@ =~= nothing_visited(n as nat));

        let mut i: usize = 0;
        while i < n
            invariant
                self.wf(),
                adj == targets(self.model().edges),
                n == self.model().len(),
                i <= n,
                visited@.len() == n,
                within(finish_order@, n as nat),
                (visited@, finish_order@) == finish_all(adj, i as nat),
            decreases n - i,
        {
            if !visited[i] {
                self.dfs1(i, &mut visited, &mut finish_order);
            }
            i += 1;
        }
        let ghost order = finish_order@;

        let mut transposed_adj: Vec<Vec<usize>> = Vec::new();
        let mut i: usize = 0;
        while i < n
            invariant
                i <= n,
                transposed_adj@.len() == i,
                forall|k: int| 0 <= k < i ==> (#[trigger] transposed_adj@[k])@ == Seq::<usize>::empty(),
            decreases n - i,
        {
            transposed_adj.push(Vec::new());
            i += 1;
        }
        assert(lists_of(transposed_adj@) =~= turned_round(adj, 0, 0));
        let mut from: usize = 0;
        while from < n
            invariant
                self.wf(),
                adj == targets(self.model().edges),
                n == self.model().len(),
                n == self.adj@.len(),
                from <= n,
                lists_within(lists_of(transposed_adj@), n as nat),
                lists_of(transposed_adj@) == turned_round(adj, from as nat, 0),
            decreases n - from,
        {
            let edges = &self.adj[from];
            assert(edges@ == self.model().edges[from as int]);
            let mut k: usize = 0;
            while k < edges.len()
                invariant
                    self.wf(),
                    adj == targets(self.model().edges),
                    n == self.model().len(),
                    from < n,
                    edges@ == self.model().edges[from as int],
                    k <= edges.len(),
                    lists_within(lists_of(transposed_adj@), n as nat),
                    lists_of(transposed_adj@) == turned_round(adj, from as nat, k as nat),
                decreases edges.len() - k,
            {
                let to = edges[k].0;
                assert(self.model().edges[from as int][k as int].0 < n);
                assert(adj[from as int][k as int] == to);
                let ghost before = lists_of(transposed_adj@);
                assert(transposed_adj@[to as int]@ == before[to as int]);
                transposed_adj[to].push(from);
                proof {
                    assert(lists_of(transposed_adj@) =~= before.update(
                        to as int,
                        before[to as int].push(from),
                    ));
                    assert forall|i: int| 0 <= i < n implies within(
                        #[trigger] lists_of(transposed_adj@)[i],
                        n as nat,
                    ) by {
                        assert(within(before[i], n as nat));
                    }
                }
                k += 1;
            }
            assert(adj[from as int].len() == edges.len());
            from += 1;
        }
        let ghost back = lists_of(transposed_adj@);
        assert(back == turned_round(adj, adj.len(), 0));

        let mut visited2 = vec![false; n];
        assert(visited2@ =~= nothing_visited(n as nat));
        let mut dsu = UnionFind::new(n);
        proof {
            crate::union_find::lemma_roots_len(&dsu);
            assert forall|i: int| 0 <= i < n implies dsu.roots()[i] == apart(n as nat)[i] by {
                assert(dsu.root(i) == i);
            }
            assert(dsu.roots() =~= apart(n as nat));
        }
        let mut at: usize = finish_order.len();
        while at > 0
            invariant
                self.wf(),
                n == self.model().len(),
                order == finish_order@,
                at <= order.len(),
                within(order, n as nat),
                back == lists_of(transposed_adj@),
                lists_within(back, n as nat),
                visited2@.len() == n,
                dsu.wf(),
                dsu.len() == n,
                (visited2@, dsu.roots()) == components_from(back, order, at as nat),
            decreases at,
        {
            at -= 1;
            let node = finish_order[at];
            if !visited2[node] {
                let mut component: Vec<usize> = Vec::new();
                let ghost rep = dsu.roots();
                self.dfs2(node, &transposed_adj, &mut visited2, &mut component);
                let mut k: usize = 1;
                while k < component.len()
                    invariant
                        1 <= k <= component.len(),
                        within(component@, n as nat),
                        dsu.wf(),
                        dsu.len() == n,
                        dsu.roots() == joined(rep, component@, k as nat),
                    decreases component.len() - k,
                {
                    dsu.unite(component[0], component[k]);
                    k += 1;
                }
            }
        }
        dsu
    }

    /// The first walk below `node`, along the edges: appends to
    /// `finish_order` every node that it enters, at the time it leaves it.
    fn dfs1(&self, node: usize, visited: &mut Vec<bool>, finish_order: &mut Vec<usize>)
        requires
            self.wf(),
            node < self.model().len(),
            old(visited)@.len() == self.model().len(),
            !old(visited)@[node as int],
            within(old(finish_order)@, self.model().len()),
        ensures
            final(visited)@.len() == old(visited)@.len(),
            forall|i: int| 0 <= i < old(visited)@.len() && old(visited)@[i] ==> final(visited)@[i],
            count_unvisited(final(visited)@) < count_unvisited(old(visited)@),
            within(final(finish_order)@, self.model().len()),
            (final(visited)@, final(finish_order)@) == finish_visit(
                targets(self.model().edges),
                node as int,
                old(visited)@,
                old(finish_order)@,
            ),
        decreases count_unvisited(old(visited)@),
    {
        let ghost visited0 = visited@;
        let ghost order0 = finish_order@;
        let ghost n = self.model().len();
        let ghost adj = targets(self.model().edges);
        proof {
            lemma_enter(visited0, node as int);
        }
        visited[node] = true;
        let edges = &self.adj[node];
        assert(edges@ == self.model().edges[node as int]);
        assert(adj[node as int].len() == edges.len());
        let mut k: usize = 0;
        while k < edges.len()
            invariant
                self.wf(),
                n == self.model().len(),
                adj == targets(self.model().edges),
                node < n,
                visited0 == old(visited)@,
                visited0.len() == n,
                edges@ == self.model().edges[node as int],
                k <= edges.len(),
                visited@.len() == n,
                forall|i: int| 0 <= i < visited0.len() && visited0[i] ==> visited@[i],
                count_unvisited(visited@) < count_unvisited(visited0),
                within(finish_order@, n),
                (visited@, finish_order@) == finish_fold(adj, node as int, visited0, order0, k as nat),
            decreases edges.len() - k,
        {
            let next = edges[k].0;
            assert(self.model().edges[node as int][k as int].0 < n);
            assert(adj[node as int][k as int] == next);
            if !visited[next] {
                let ghost vis = visited@;
                self.dfs1(next, visited, finish_order);
                proof {
                    lemma_entered_more(vis, visited@);
                    assert forall|i: int| 0 <= i < visited0.len() && visited0[i] implies visited@[i] by {
                        assert(vis[i]);
                    }
                }
            }
            k += 1;
        }
        finish_order.push(node);
    }

    /// The second walk below `node`, against the edges: appends to
    /// `component` every node that it enters.
    fn dfs2(
        &self,
        node: usize,
        transposed_adj: &Vec<Vec<usize>>,
        visited: &mut Vec<bool>,
        component: &mut Vec<usize>,
    )
        requires
            node < transposed_adj@.len(),
            lists_within(lists_of(transposed_adj@), transposed_adj@.len()),
            old(visited)@.len() == transposed_adj@.len(),
            !old(visited)@[node as int],
            within(old(component)@, transposed_adj@.len()),
        ensures
            final(visited)@.len() == old(visited)@.len(),
            forall|i: int| 0 <= i < old(visited)@.len() && old(visited)@[i] ==> final(visited)@[i],
            count_unvisited(final(visited)@) < count_unvisited(old(visited)@),
            within(final(component)@, transposed_adj@.len()),
            final(component)@.len() > old(component)@.len(),
            (final(visited)@, final(component)@) == collect_visit(
                lists_of(transposed_adj@),
                node as int,
                old(visited)@,
                old(component)@,
            ),
        decreases count_unvisited(old(visited)@),
    {
        let ghost visited0 = visited@;
        let ghost component0 = component@;
        let ghost n = transposed_adj@.len();
        let ghost back = lists_of(transposed_adj@);
        proof {
            lemma_enter(visited0, node as int);
        }
        visited[node] = true;
        component.push(node);
        let ghost grown = component@.len();
        let edges = &transposed_adj[node];
        assert(edges@ == back[node as int]);
        let mut k: usize = 0;
        while k < edges.len()
            invariant
                n == transposed_adj@.len(),
                back == lists_of(transposed_adj@),
                lists_within(back, n),
                node < n,
                visited0 == old(visited)@,
                visited0.len() == n,
                edges@ == back[node as int],
                k <= edges.len(),
                visited@.len() == n,
                forall|i: int| 0 <= i < visited0.len() && visited0[i] ==> visited@[i],
                count_unvisited(visited@) < count_unvisited(visited0),
                within(component@, n),
                component@.len() >= grown,
                grown > component0.len(),
                (visited@, component@) == collect_fold(
                    back,
                    node as int,
                    visited0,
                    component0,
                    k as nat,
                ),
            decreases edges.len() - k,
        {
            let next = edges[k];
            assert(within(back[node as int], n));
            if !visited[next] {
                let ghost vis = visited@;
                self.dfs2(next, transposed_adj, visited, component);
                proof {
                    lemma_entered_more(vis, visited@);
                    assert forall|i: int| 0 <= i < visited0.len() && visited0[i] implies visited@[i] by {
                        assert(vis[i]);
                    }
                }
            }
            k += 1;
        }
    }
}

} // verus!
