//! All-direction (re-rooting) tree dynamic programming.
//!
//! For every node of a tree, the engine computes the value that a bottom-up
//! tree DP has at that node when the walk starts there. It does so in two
//! passes from node 0: one that aggregates every subtree, and one that hands
//! each node the aggregate of everything outside its subtree.

use crate::values::{apply1, apply2, clone_is_exact, is_function1, is_function2};
use vstd::prelude::*;

verus! {

/// Slot `j` of the neighbour list of `v` holds the parent of `v`.
pub open spec fn is_parent_slot(adj: Seq<Seq<usize>>, depth: Seq<nat>, v: int, j: int) -> bool {
    depth[adj[v][j] as int] + 1 == depth[v]
}

/// The neighbour list of `u` holds `v`.
pub open spec fn lists(adj: Seq<Seq<usize>>, u: int, v: int) -> bool {
    exists|k: int| 0 <= k < adj[u].len() && #[trigger] adj[u][k] == v
}

/// Some slot of the neighbour list of `v` holds the parent of `v`.
pub open spec fn has_parent_slot(adj: Seq<Seq<usize>>, depth: Seq<nat>, v: int) -> bool {
    exists|j: int| 0 <= j < adj[v].len() && #[trigger] is_parent_slot(adj, depth, v, j)
}

/// `adj` holds the neighbour lists of a tree on the nodes `0..adj.len()`,
/// and `depth` the distance of each node from node 0.
///
/// Every edge is listed at both its ends and joins two nodes whose depths
/// differ by one; every node but node 0 has exactly one neighbour that is
/// nearer to node 0.
pub open spec fn is_rooted_tree(adj: Seq<Seq<usize>>, depth: Seq<nat>) -> bool {
    let n = adj.len();
    &&& n >= 1
    &&& depth.len() == n
    &&& depth[0] == 0
    &&& forall|v: int| 0 <= v < n ==> #[trigger] depth[v] < n
    &&& forall|v: int| 0 < v < n ==> #[trigger] depth[v] > 0
    &&& forall|v: int| 0 <= v < n ==> (#[trigger] adj[v]).len() < n && adj[v].no_duplicates()
    &&& forall|v: int, j: int|
        0 <= v < n && 0 <= j < adj[v].len() ==> {
            let u = #[trigger] adj[v][j];
            &&& u < n
            &&& depth[u as int] == depth[v] + 1 || depth[u as int] + 1 == depth[v]
            &&& lists(adj, u as int, v)
        }
    &&& forall|v: int, j: int, k: int|
        0 <= v < n && 0 <= j < adj[v].len() && 0 <= k < adj[v].len() && #[trigger] is_parent_slot(
            adj,
            depth,
            v,
            j,
        ) && #[trigger] is_parent_slot(adj, depth, v, k) ==> j == k
    &&& forall|v: int| 0 < v < n ==> #[trigger] has_parent_slot(adj, depth, v)
}

/// The neighbour lists that `edges` give on `n` nodes: each edge appends
/// either end to the list of the other, in the order of `edges`.
pub open spec fn adjacency_of(n: nat, edges: Seq<(usize, usize)>) -> Seq<Seq<usize>>
    decreases edges.len(),
{
    if edges.len() == 0 {
        Seq::new(n, |i: int| Seq::<usize>::empty())
    } else {
        let prev = adjacency_of(n, edges.drop_last());
        let (u, v) = edges.last();
        let with_v = prev.update(u as int, prev[u as int].push(v));
        with_v.update(v as int, with_v[v as int].push(u))
    }
}

/// Neighbour lists are built for as many nodes as were asked for.
pub proof fn lemma_adjacency_len(n: nat, edges: Seq<(usize, usize)>)
    requires
        forall|k: int| 0 <= k < edges.len() ==> (#[trigger] edges[k]).0 < n && edges[k].1 < n,
    ensures
        adjacency_of(n, edges).len() == n,
    decreases edges.len(),
{
    if edges.len() > 0 {
        assert forall|k: int| 0 <= k < edges.drop_last().len() implies (#[trigger] edges.drop_last()[k]).0
            < n && edges.drop_last()[k].1 < n by {
            assert(edges.drop_last()[k] == edges[k]);
        }
        lemma_adjacency_len(n, edges.drop_last());
        assert(edges.last() == edges[edges.len() - 1]);
    }
}

/// A tree problem as the contracts see it: the neighbour lists, the depth of
/// each node, the identity, and the two functions as mathematical functions.
#[verifier::reject_recursive_types(T)]
pub struct TreeModel<T> {
    pub adj: Seq<Seq<usize>>,
    pub depth: Seq<nat>,
    pub identity: T,
    pub merge: spec_fn(T, T) -> T,
    pub finish: spec_fn(T) -> T,
}

impl<T> TreeModel<T> {
    /// The number of nodes.
    pub open spec fn n(self) -> int {
        self.adj.len() as int
    }

    /// The slot of `v` that holds its parent.
    pub open spec fn parent_slot(self, v: int) -> int {
        choose|j: int| 0 <= j < self.adj[v].len() && is_parent_slot(self.adj, self.depth, v, j)
    }

    /// The parent of `v`.
    pub open spec fn parent(self, v: int) -> int {
        self.adj[v][self.parent_slot(v)] as int
    }

    /// The slot of `p` that holds `c`.
    pub open spec fn slot_of(self, p: int, c: int) -> int {
        choose|i: int| 0 <= i < self.adj[p].len() && self.adj[p][i] == c
    }

    /// `u` lies in the subtree of `a`.
    pub open spec fn is_below(self, a: int, u: int) -> bool
        decreases self.depth[u],
    {
        u == a || (0 < u < self.n() && 0 <= self.parent(u) < self.n() && self.depth[self.parent(u)]
            < self.depth[u] && self.is_below(a, self.parent(u)))
    }

    /// The aggregate of the subtree of `v`: the finishing transform of the
    /// merge of its children's aggregates.
    pub open spec fn down(self, v: int) -> T
        decreases self.n() - self.depth[v], self.n() + 1,
    {
        if 0 <= v < self.n() && self.adj[v].len() <= self.n() {
            (self.finish)(self.down_fold(v, self.adj[v].len() as int))
        } else {
            self.identity
        }
    }

    /// The merge, from the left, of the aggregates of the children among
    /// the first `k` neighbours of `v`.
    pub open spec fn down_fold(self, v: int, k: int) -> T
        decreases self.n() - self.depth[v], k,
    {
        if 0 <= v < self.n() && 0 < k <= self.adj[v].len() {
            let to = self.adj[v][k - 1] as int;
            let acc = self.down_fold(v, k - 1);
            if to < self.n() && self.depth[to] == self.depth[v] + 1 && self.depth[to] <= self.n() {
                (self.merge)(acc, self.down(to))
            } else {
                acc
            }
        } else {
            self.identity
        }
    }

    /// What reaches `v` from its parent's side: the finished merge of all
    /// that the parent sees, `v` left out. The identity at node 0.
    pub open spec fn from_parent(self, v: int) -> T
        decreases self.depth[v], 0nat, 0nat,
    {
        if 0 < v < self.n() {
            let p = self.parent(v);
            let i = self.slot_of(p, v);
            if 0 <= p < self.n() && self.depth[p] < self.depth[v] {
                (self.finish)((self.merge)(self.prefix(p, i), self.suffix(p, i + 1)))
            } else {
                self.identity
            }
        } else {
            self.identity
        }
    }

    /// What `v` sees through slot `j`: what comes from the parent's side
    /// where the slot holds the parent, the child's aggregate where it holds
    /// a child.
    pub open spec fn slot_value(self, v: int, j: int) -> T
        decreases self.depth[v], 1nat, 0nat,
    {
        if is_parent_slot(self.adj, self.depth, v, j) {
            self.from_parent(v)
        } else {
            self.down(self.adj[v][j] as int)
        }
    }

    /// The merge, from the left, of what `v` sees through its first `k`
    /// slots.
    pub open spec fn prefix(self, v: int, k: int) -> T
        decreases self.depth[v], 2nat, k,
    {
        if 0 < k <= self.adj[v].len() {
            (self.merge)(self.prefix(v, k - 1), self.slot_value(v, k - 1))
        } else {
            self.identity
        }
    }

    /// The merge, from the right, of what `v` sees through its slots from
    /// `k` on.
    pub open spec fn suffix(self, v: int, k: int) -> T
        decreases self.depth[v], 2nat, self.adj[v].len() - k,
    {
        if 0 <= k < self.adj[v].len() {
            (self.merge)(self.slot_value(v, k), self.suffix(v, k + 1))
        } else {
            self.identity
        }
    }

    /// The answer at `v`: the finishing transform of the merge of all that
    /// `v` sees.
    pub open spec fn answer(self, v: int) -> T {
        (self.finish)(self.prefix(v, self.adj[v].len() as int))
    }

    /// `p` is what the walk carries as the parent of `v`: the parent, or at
    /// node 0 the largest machine integer.
    pub open spec fn carries_parent(self, v: int, p: usize) -> bool {
        if v == 0 {
            p == usize::MAX
        } else {
            p == self.parent(v)
        }
    }

    /// In a tree, a parent is a node of smaller depth.
    pub proof fn lemma_parent(self, v: int)
        requires
            is_rooted_tree(self.adj, self.depth),
            0 < v < self.n(),
        ensures
            0 <= self.parent_slot(v) < self.adj[v].len(),
            is_parent_slot(self.adj, self.depth, v, self.parent_slot(v)),
            0 <= self.parent(v) < self.n(),
            self.depth[self.parent(v)] + 1 == self.depth[v],
    {
        assert(has_parent_slot(self.adj, self.depth, v));
        let j = choose|j: int|
            0 <= j < self.adj[v].len() && #[trigger] is_parent_slot(self.adj, self.depth, v, j);
        assert(self.adj[v][self.parent_slot(v)] < self.n());
    }

    /// A slot holds the carried parent exactly when it is the parent slot.
    pub proof fn lemma_slot_kinds(self, v: int, p: usize, j: int)
        requires
            is_rooted_tree(self.adj, self.depth),
            0 <= v < self.n(),
            self.n() <= usize::MAX,
            self.carries_parent(v, p),
            0 <= j < self.adj[v].len(),
        ensures
            self.adj[v][j] == p <==> is_parent_slot(self.adj, self.depth, v, j),
            self.adj[v][j] != p ==> self.depth[self.adj[v][j] as int] == self.depth[v] + 1,
            self.adj[v][j] < self.n(),
    {
        let u = self.adj[v][j];
        assert(u < self.n());
        if v == 0 {
        } else {
            self.lemma_parent(v);
            let s = self.parent_slot(v);
            if is_parent_slot(self.adj, self.depth, v, j) {
                assert(j == s);
            }
            if u == p {
                assert(self.adj[v][s] == self.adj[v][j]);
                assert(j == s);
            }
        }
    }

    /// A child's parent is the node that lists it, and it stands in one
    /// slot only.
    pub proof fn lemma_child(self, v: int, j: int)
        requires
            is_rooted_tree(self.adj, self.depth),
            0 <= v < self.n(),
            0 <= j < self.adj[v].len(),
            !is_parent_slot(self.adj, self.depth, v, j),
        ensures
            ({
                let c = self.adj[v][j] as int;
                &&& 0 < c < self.n()
                &&& self.depth[c] == self.depth[v] + 1
                &&& self.parent(c) == v
                &&& self.slot_of(v, c) == j
            }),
    {
        let c = self.adj[v][j] as int;
        assert(self.adj[v][j] < self.n());
        assert(self.depth[c] == self.depth[v] + 1);
        assert(lists(self.adj, c, v));
        let k = choose|k: int| 0 <= k < self.adj[c].len() && #[trigger] self.adj[c][k] == v;
        assert(is_parent_slot(self.adj, self.depth, c, k));
        self.lemma_parent(c);
        assert(self.parent_slot(c) == k);
        let i = self.slot_of(v, c);
        assert(self.adj[v][j] == c);
        assert(0 <= i < self.adj[v].len() && self.adj[v][i] == c);
        assert(i == j);
    }

    /// A node below `v` other than `v` lies below one of the children of `v`.
    pub proof fn lemma_below_child(self, v: int, u: int)
        requires
            is_rooted_tree(self.adj, self.depth),
            0 <= v < self.n(),
            0 <= u < self.n(),
            self.is_below(v, u),
            u != v,
        ensures
            exists|j: int|
                0 <= j < self.adj[v].len() && !is_parent_slot(self.adj, self.depth, v, j)
                    && #[trigger] self.is_below(self.adj[v][j] as int, u),
        decreases self.depth[u],
    {
        let q = self.parent(u);
        self.lemma_parent(u);
        let s = self.parent_slot(u);
        if q == v {
            assert(self.adj[u][s] == v);
            assert(lists(self.adj, self.adj[u][s] as int, u));
            let j = choose|j: int| 0 <= j < self.adj[v].len() && #[trigger] self.adj[v][j] == u;
            assert(self.is_below(u, u));
            assert(self.is_below(self.adj[v][j] as int, u));
        } else {
            self.lemma_below_child(v, q);
            let j = choose|j: int|
                0 <= j < self.adj[v].len() && !is_parent_slot(self.adj, self.depth, v, j)
                    && #[trigger] self.is_below(self.adj[v][j] as int, q);
            assert(self.is_below(self.adj[v][j] as int, u));
        }
    }

    /// Every node lies below node 0.
    pub proof fn lemma_all_below_root(self, u: int)
        requires
            is_rooted_tree(self.adj, self.depth),
            0 <= u < self.n(),
        ensures
            self.is_below(0, u),
        decreases self.depth[u],
    {
        if u != 0 {
            self.lemma_parent(u);
            self.lemma_all_below_root(self.parent(u));
        }
    }
}

/// The neighbour lists that a vector of vectors holds.
pub open spec fn lists_of(graph: Seq<Vec<usize>>) -> Seq<Seq<usize>> {
    Seq::new(graph.len(), |i: int| graph[i]@)
}

#[derive(Clone)]
#[verifier::reject_recursive_types(T)]
pub struct AllDirectionTreeDP<T, FMerge, FAdd> where
    T: Clone,
    FMerge: Fn(T, T) -> T + Copy,
    FAdd: Fn(T) -> T + Copy,
 {
    n: usize,
    graph: Vec<Vec<usize>>,
    identity: T,
    merge: FMerge,
    add_root: FAdd,
}

impl<T, FMerge, FAdd> AllDirectionTreeDP<T, FMerge, FAdd> where
    T: Clone,
    FMerge: Fn(T, T) -> T + Copy,
    FAdd: Fn(T) -> T + Copy,
 {
    /// The number of nodes.
    pub closed spec fn size(&self) -> nat {
        self.n as nat
    }

    /// The neighbour list of each node.
    pub closed spec fn adjacency(&self) -> Seq<Seq<usize>> {
        lists_of(self.graph@)
    }

    /// The identity of the merge.
    pub closed spec fn identity(&self) -> T {
        self.identity
    }

    /// The merge function.
    pub closed spec fn merge_fn(&self) -> FMerge {
        self.merge
    }

    /// The finishing transform.
    pub closed spec fn add_root_fn(&self) -> FAdd {
        self.add_root
    }

    /// The neighbour lists are those of a tree on `size()` nodes.
    pub open spec fn is_tree(&self) -> bool {
        &&& self.adjacency().len() == self.size()
        &&& exists|depth: Seq<nat>| is_rooted_tree(self.adjacency(), depth)
    }

    /// The depth of each node, where the neighbour lists are a tree's.
    pub open spec fn depths(&self) -> Seq<nat> {
        choose|depth: Seq<nat>| is_rooted_tree(self.adjacency(), depth)
    }

    /// The problem as the contracts see it.
    pub open spec fn model(&self) -> TreeModel<T> {
        TreeModel {
            adj: self.adjacency(),
            depth: self.depths(),
            identity: self.identity(),
            merge: |a: T, b: T| apply2(self.merge_fn(), a, b),
            finish: |a: T| apply1(self.add_root_fn(), a),
        }
    }

    /// Builds the neighbour lists of `edges` on `n` nodes and keeps the
    /// identity and the two functions.
    pub fn new(n: usize, edges: &[(usize, usize)], identity: T, merge: FMerge, add_root: FAdd) -> (r:
        Self)
        requires
            forall|k: int| 0 <= k < edges@.len() ==> (#[trigger] edges@[k]).0 < n && edges@[k].1 < n,
        ensures
            r.size() == n,
            r.adjacency().len() == n,
            r.adjacency() == adjacency_of(n as nat, edges@),
            r.identity() == identity,
            r.merge_fn() == merge,
            r.add_root_fn() == add_root,
    {
        let mut graph: Vec<Vec<usize>> = Vec::new();
        let mut i: usize = 0;
        while i < n
            invariant
                i <= n,
                graph@.len() == i,
                forall|k: int| 0 <= k < i ==> (#[trigger] graph@[k])@ == Seq::<usize>::empty(),
            decreases n - i,
        {
            graph.push(Vec::new());
            i += 1;
        }
        assert(lists_of(graph@) =~= adjacency_of(n as nat, edges@.take(0)));
        let mut k: usize = 0;
        while k < edges.len()
            invariant
                k <= edges@.len(),
                graph@.len() == n,
                forall|k: int|
                    0 <= k < edges@.len() ==> (#[trigger] edges@[k]).0 < n && edges@[k].1 < n,
                lists_of(graph@) == adjacency_of(n as nat, edges@.take(k as int)),
            decreases edges@.len() - k,
        {
            let (u, v) = edges[k];
            let ghost before = lists_of(graph@);
            proof {
                let upto = edges@.take(k + 1);
                assert(upto.drop_last() =~= edges@.take(k as int));
                assert(upto.last() == edges@[k as int]);
            }
            graph[u].push(v);
            let ghost with_v = lists_of(graph@);
            assert(with_v =~= before.update(u as int, before[u as int].push(v)));
            graph[v].push(u);
            assert(lists_of(graph@) =~= with_v.update(v as int, with_v[v as int].push(u)));
            k += 1;
        }
        assert(edges@.take(edges@.len() as int) =~= edges@);
        proof {
            lemma_adjacency_len(n as nat, edges@);
        }
        Self { n, graph, identity, merge, add_root }
    }

    /// Computes the answer of every node.
    ///
    /// The neighbour lists must be those of a tree, and the two functions
    /// must be callable everywhere and single-valued.
    pub fn solve(&self) -> (ans: Vec<T>)
        requires
            self.is_tree(),
            clone_is_exact::<T>(),
            is_function2(self.merge_fn()),
            is_function1(self.add_root_fn()),
        ensures
            ans@.len() == self.size(),
            forall|v: int| 0 <= v < self.size() ==> #[trigger] ans@[v] == self.model().answer(v),
    {
        let ghost m = self.model();
        let mut down = vec![self.identity.clone(); self.n];
        self.dfs1(0, usize::MAX, &mut down);
        proof {
            assert forall|u: int| 0 <= u < self.n implies #[trigger] down@[u] == m.down(u) by {
                m.lemma_all_below_root(u);
            }
        }
        let mut ans = vec![self.identity.clone(); self.n];
        self.dfs2(0, usize::MAX, self.identity.clone(), &down, &mut ans);
        proof {
            assert forall|u: int| 0 <= u < self.n implies #[trigger] ans@[u] == m.answer(u) by {
                m.lemma_all_below_root(u);
            }
        }
        ans
    }

    /// The first pass below `v`: stores the aggregate of every subtree
    /// below `v` in `down` and returns that of `v`.
    fn dfs1(&self, v: usize, p: usize, down: &mut Vec<T>) -> (res: T)
        requires
            self.is_tree(),
            clone_is_exact::<T>(),
            is_function2(self.merge_fn()),
            is_function1(self.add_root_fn()),
            v < self.size(),
            self.model().carries_parent(v as int, p),
            old(down)@.len() == self.size(),
        ensures
            final(down)@.len() == self.size(),
            res == self.model().down(v as int),
            forall|u: int|
                0 <= u < self.size() && self.model().is_below(v as int, u) ==> #[trigger] final(down)@[u] == self.model().down(u),
            forall|u: int|
                0 <= u < self.size() && old(down)@[u] == self.model().down(u) ==> #[trigger] final(down)@[u] == self.model().down(u),
        decreases self.size() - self.model().depth[v as int],
    {
        let ghost m = self.model();
        let ghost down0 = down@;
        assert(self.graph@[v as int]@ == m.adj[v as int]);
        let deg = self.graph[v].len();
        let mut acc = self.identity.clone();
        let mut i: usize = 0;
        while i < deg
            invariant
                self.is_tree(),
                clone_is_exact::<T>(),
                is_function2(self.merge_fn()),
                is_function1(self.add_root_fn()),
                m == self.model(),
                v < self.size(),
                m.carries_parent(v as int, p),
                deg == m.adj[v as int].len(),
                self.graph@[v as int]@ == m.adj[v as int],
                i <= deg,
                down@.len() == self.size(),
                acc == m.down_fold(v as int, i as int),
                forall|j: int, u: int|
                    0 <= j < i && !is_parent_slot(m.adj, m.depth, v as int, j) && 0 <= u < self.size()
                        && #[trigger] m.is_below(m.adj[v as int][j] as int, u) ==> down@[u]
                        == m.down(u),
                forall|u: int|
                    0 <= u < self.size() && down0[u] == m.down(u) ==> #[trigger] down@[u] == m.down(
                        u,
                    ),
            decreases deg - i,
        {
            let to = self.graph[v][i];
            proof {
                m.lemma_slot_kinds(v as int, p, i as int);
            }
            if to != p {
                proof {
                    m.lemma_child(v as int, i as int);
                }
                let ghost before = down@;
                let child = self.dfs1(to, v, down);
                acc = (self.merge)(acc, child);
                proof {
                    assert forall|j: int, u: int|
                        0 <= j < i + 1 && !is_parent_slot(m.adj, m.depth, v as int, j) && 0 <= u
                            < self.size() && #[trigger] m.is_below(
                            m.adj[v as int][j] as int,
                            u,
                        ) implies down@[u] == m.down(u) by {
                        if j < i {
                            assert(before[u] == m.down(u));
                        }
                    }
                }
            }
            i += 1;
        }
        let res = (self.add_root)(acc.clone());
        assert(res == m.down(v as int));
        let ghost before = down@;
        down[v] = res.clone();
        proof {
            assert forall|u: int| 0 <= u < self.size() && m.is_below(v as int, u) implies #[trigger] down@[u]
                == m.down(u) by {
                if u != v {
                    m.lemma_below_child(v as int, u);
                    let j = choose|j: int|
                        0 <= j < m.adj[v as int].len() && !is_parent_slot(
                            m.adj,
                            m.depth,
                            v as int,
                            j,
                        ) && #[trigger] m.is_below(m.adj[v as int][j] as int, u);
                    assert(before[u] == m.down(u));
                }
            }
        }
        res
    }

    /// The second pass below `v`: stores the answer of every node below `v`
    /// in `ans`, given what reaches `v` from its parent's side.
    fn dfs2(&self, v: usize, p: usize, from_parent: T, down: &Vec<T>, ans: &mut Vec<T>)
        requires
            self.is_tree(),
            clone_is_exact::<T>(),
            is_function2(self.merge_fn()),
            is_function1(self.add_root_fn()),
            v < self.size(),
            self.model().carries_parent(v as int, p),
            from_parent == self.model().from_parent(v as int),
            down@.len() == self.size(),
            forall|u: int| 0 <= u < self.size() ==> #[trigger] down@[u] == self.model().down(u),
            old(ans)@.len() == self.size(),
        ensures
            final(ans)@.len() == self.size(),
            forall|u: int|
                0 <= u < self.size() && self.model().is_below(v as int, u) ==> #[trigger] final(ans)@[u] == self.model().answer(u),
            forall|u: int|
                0 <= u < self.size() && old(ans)@[u] == self.model().answer(u) ==> #[trigger] final(ans)@[u] == self.model().answer(u),
        decreases self.size() - self.model().depth[v as int],
    {
        let ghost m = self.model();
        let ghost ans0 = ans@;
        assert(self.graph@[v as int]@ == m.adj[v as int]);
        let deg = self.graph[v].len();
        let mut prefix = vec![self.identity.clone(); deg + 1];
        let mut suffix = vec![self.identity.clone(); deg + 1];

        let mut i: usize = 0;
        while i < deg
            invariant
                self.is_tree(),
                clone_is_exact::<T>(),
                is_function2(self.merge_fn()),
                m == self.model(),
                v < self.size(),
                m.carries_parent(v as int, p),
                from_parent == m.from_parent(v as int),
                down@.len() == self.size(),
                forall|u: int| 0 <= u < self.size() ==> #[trigger] down@[u] == m.down(u),
                deg == m.adj[v as int].len(),
                self.graph@[v as int]@ == m.adj[v as int],
                i <= deg,
                prefix@.len() == deg + 1,
                forall|k: int| 0 <= k <= i ==> #[trigger] prefix@[k] == m.prefix(v as int, k),
            decreases deg - i,
        {
            let to = self.graph[v][i];
            proof {
                m.lemma_slot_kinds(v as int, p, i as int);
            }
            let val = if to == p {
                from_parent.clone()
            } else {
                down[to].clone()
            };
            assert(val == m.slot_value(v as int, i as int));
            let merged = (self.merge)(prefix[i].clone(), val.clone());
            prefix[i + 1] = merged;
            i += 1;
        }

        let mut i: usize = deg;
        while i > 0
            invariant
                self.is_tree(),
                clone_is_exact::<T>(),
                is_function2(self.merge_fn()),
                m == self.model(),
                v < self.size(),
                m.carries_parent(v as int, p),
                from_parent == m.from_parent(v as int),
                down@.len() == self.size(),
                forall|u: int| 0 <= u < self.size() ==> #[trigger] down@[u] == m.down(u),
                deg == m.adj[v as int].len(),
                self.graph@[v as int]@ == m.adj[v as int],
                i <= deg,
                suffix@.len() == deg + 1,
                forall|k: int| i <= k <= deg ==> #[trigger] suffix@[k] == m.suffix(v as int, k),
            decreases i,
        {
            i -= 1;
            let to = self.graph[v][i];
            proof {
                m.lemma_slot_kinds(v as int, p, i as int);
            }
            let val = if to == p {
                from_parent.clone()
            } else {
                down[to].clone()
            };
            assert(val == m.slot_value(v as int, i as int));
            let merged = (self.merge)(val.clone(), suffix[i + 1].clone());
            suffix[i] = merged;
        }

        let here = (self.add_root)(prefix[deg].clone());
        assert(here == m.answer(v as int));
        ans[v] = here;

        let mut i: usize = 0;
        while i < deg
            invariant
                self.is_tree(),
                clone_is_exact::<T>(),
                is_function2(self.merge_fn()),
                is_function1(self.add_root_fn()),
                m == self.model(),
                v < self.size(),
                m.carries_parent(v as int, p),
                down@.len() == self.size(),
                forall|u: int| 0 <= u < self.size() ==> #[trigger] down@[u] == m.down(u),
                deg == m.adj[v as int].len(),
                self.graph@[v as int]@ == m.adj[v as int],
                i <= deg,
                prefix@.len() == deg + 1,
                suffix@.len() == deg + 1,
                forall|k: int| 0 <= k <= deg ==> #[trigger] prefix@[k] == m.prefix(v as int, k),
                forall|k: int| 0 <= k <= deg ==> #[trigger] suffix@[k] == m.suffix(v as int, k),
                ans@.len() == self.size(),
                ans@[v as int] == m.answer(v as int),
                forall|j: int, u: int|
                    0 <= j < i && !is_parent_slot(m.adj, m.depth, v as int, j) && 0 <= u < self.size()
                        && #[trigger] m.is_below(m.adj[v as int][j] as int, u) ==> ans@[u]
                        == m.answer(u),
                forall|u: int|
                    0 <= u < self.size() && ans0[u] == m.answer(u) ==> #[trigger] ans@[u]
                        == m.answer(u),
            decreases deg - i,
        {
            let to = self.graph[v][i];
            proof {
                m.lemma_slot_kinds(v as int, p, i as int);
            }
            if to != p {
                proof {
                    m.lemma_child(v as int, i as int);
                }
                let without = (self.merge)(prefix[i].clone(), suffix[i + 1].clone());
                let next_from_parent = (self.add_root)(without);
                assert(next_from_parent == m.from_parent(to as int));
                let ghost before = ans@;
                self.dfs2(to, v, next_from_parent, down, ans);
                proof {
                    assert forall|j: int, u: int|
                        0 <= j < i + 1 && !is_parent_slot(m.adj, m.depth, v as int, j) && 0 <= u
                            < self.size() && #[trigger] m.is_below(
                            m.adj[v as int][j] as int,
                            u,
                        ) implies ans@[u] == m.answer(u) by {
                        if j < i {
                            assert(before[u] == m.answer(u));
                        }
                    }
                }
            }
            i += 1;
        }
        proof {
            assert forall|u: int| 0 <= u < self.size() && m.is_below(v as int, u) implies #[trigger] ans@[u]
                == m.answer(u) by {
                if u != v {
                    m.lemma_below_child(v as int, u);
                }
            }
        }
    }
}

/// Under `val`, the problem counts nodes: the identity counts nothing, a
/// merge counts what its two sides count together, and the finishing
/// transform counts one more. The merge and the transform need to count
/// right only as long as the count stays within `bound`, which is at least
/// the number of nodes; so a machine integer with its usual addition will
/// do.
pub open spec fn counts_nodes<T>(m: TreeModel<T>, val: spec_fn(T) -> nat, bound: nat) -> bool {
    &&& m.n() <= bound
    &&& val(m.identity) == 0
    &&& forall|a: T, b: T|
        val(a) + val(b) <= bound ==> val(#[trigger] (m.merge)(a, b)) == val(a) + val(b)
    &&& forall|a: T| val(a) < bound ==> val(#[trigger] (m.finish)(a)) == val(a) + 1
}

impl<T> TreeModel<T> {
    /// The nodes of the subtree of `v`.
    pub open spec fn subtree(self, v: int) -> Set<int> {
        Set::new(|u: int| 0 <= u < self.n() && self.is_below(v, u))
    }

    /// The nodes of the subtrees of the children among the neighbours
    /// `from..to` of `v`.
    pub open spec fn subtrees_between(self, v: int, from: int, to: int) -> Set<int> {
        Set::new(
            |u: int|
                0 <= u < self.n() && exists|j: int|
                    from <= j < to && !is_parent_slot(self.adj, self.depth, v, j)
                        && #[trigger] self.is_below(self.adj[v][j] as int, u),
        )
    }

    /// The number of nodes outside the subtree of `v`, where `v` has a
    /// parent and its slot is among the slots `from..to`; else nothing.
    pub open spec fn outside_between(self, v: int, from: int, to: int) -> nat {
        if v > 0 && from <= self.parent_slot(v) < to {
            (self.n() - self.subtree(v).len()) as nat
        } else {
            0
        }
    }

    /// A node of a subtree lies at least as deep as the root of the
    /// subtree.
    pub proof fn lemma_below_is_deeper(self, a: int, u: int)
        requires
            is_rooted_tree(self.adj, self.depth),
            0 <= u < self.n(),
            self.is_below(a, u),
        ensures
            self.depth[u] >= self.depth[a],
        decreases self.depth[u],
    {
        if u != a {
            self.lemma_parent(u);
            self.lemma_below_is_deeper(a, self.parent(u));
        }
    }

    /// What lies below a node lies below the parent of the node.
    pub proof fn lemma_below_parent(self, c: int, u: int)
        requires
            is_rooted_tree(self.adj, self.depth),
            0 < c < self.n(),
            0 <= u < self.n(),
            self.is_below(c, u),
        ensures
            self.is_below(self.parent(c), u),
        decreases self.depth[u],
    {
        self.lemma_parent(c);
        let p = self.parent(c);
        if u == c {
            assert(self.is_below(p, p));
            assert(self.is_below(p, c));
        } else {
            self.lemma_parent(u);
            self.lemma_below_parent(c, self.parent(u));
        }
    }

    /// A node has one ancestor only at each depth.
    pub proof fn lemma_one_ancestor(self, a: int, b: int, u: int)
        requires
            is_rooted_tree(self.adj, self.depth),
            0 <= u < self.n(),
            self.is_below(a, u),
            self.is_below(b, u),
            self.depth[a] == self.depth[b],
        ensures
            a == b,
        decreases self.depth[u],
    {
        if u == a {
            if u != b {
                self.lemma_parent(u);
                self.lemma_below_is_deeper(b, self.parent(u));
            }
        } else if u == b {
            self.lemma_parent(u);
            self.lemma_below_is_deeper(a, self.parent(u));
        } else {
            self.lemma_parent(u);
            self.lemma_one_ancestor(a, b, self.parent(u));
        }
    }

    /// Every set of nodes is finite and has at most `n` elements.
    pub proof fn lemma_nodes_finite(self, s: Set<int>)
        requires
            forall|u: int| s.contains(u) ==> 0 <= u < self.n(),
        ensures
            s.finite(),
            s.len() <= self.n(),
    {
        let all = vstd::set_lib::set_int_range(0, self.n());
        vstd::set_lib::lemma_int_range(0, self.n());
        assert(s.subset_of(all));
        vstd::set_lib::lemma_len_subset(s, all);
    }

    /// The subtrees of the children in two ranges of slots that meet, taken
    /// together, are those of the children in the joined range, and no
    /// node is in both.
    pub proof fn lemma_ranges_join(self, v: int, from: int, mid: int, to: int)
        requires
            is_rooted_tree(self.adj, self.depth),
            0 <= v < self.n(),
            0 <= from <= mid <= to <= self.adj[v].len(),
        ensures
            self.subtrees_between(v, from, to).len() == self.subtrees_between(v, from, mid).len()
                + self.subtrees_between(v, mid, to).len(),
            self.subtrees_between(v, from, to).finite(),
    {
        let left = self.subtrees_between(v, from, mid);
        let right = self.subtrees_between(v, mid, to);
        let all = self.subtrees_between(v, from, to);
        self.lemma_nodes_finite(left);
        self.lemma_nodes_finite(right);
        self.lemma_nodes_finite(all);
        assert(left.disjoint(right)) by {
            assert forall|u: int| !(left.contains(u) && right.contains(u)) by {
                if left.contains(u) && right.contains(u) {
                    let j = choose|j: int|
                        from <= j < mid && !is_parent_slot(self.adj, self.depth, v, j)
                            && #[trigger] self.is_below(self.adj[v][j] as int, u);
                    let k = choose|k: int|
                        mid <= k < to && !is_parent_slot(self.adj, self.depth, v, k)
                            && #[trigger] self.is_below(self.adj[v][k] as int, u);
                    self.lemma_child(v, j);
                    self.lemma_child(v, k);
                    self.lemma_one_ancestor(self.adj[v][j] as int, self.adj[v][k] as int, u);
                }
            }
        }
        assert(all =~= left + right) by {
            assert forall|u: int| all.contains(u) implies (left + right).contains(u) by {
                let j = choose|j: int|
                    from <= j < to && !is_parent_slot(self.adj, self.depth, v, j)
                        && #[trigger] self.is_below(self.adj[v][j] as int, u);
                if j < mid {
                    assert(left.contains(u));
                } else {
                    assert(right.contains(u));
                }
            }
            assert forall|u: int| (left + right).contains(u) implies all.contains(u) by {
                if left.contains(u) {
                    let j = choose|j: int|
                        from <= j < mid && !is_parent_slot(self.adj, self.depth, v, j)
                            && #[trigger] self.is_below(self.adj[v][j] as int, u);
                    assert(self.is_below(self.adj[v][j] as int, u));
                } else {
                    let k = choose|k: int|
                        mid <= k < to && !is_parent_slot(self.adj, self.depth, v, k)
                            && #[trigger] self.is_below(self.adj[v][k] as int, u);
                    assert(self.is_below(self.adj[v][k] as int, u));
                }
            }
        }
        vstd::set_lib::lemma_set_disjoint_lens(left, right);
    }

    /// One slot alone holds the subtree of its child, or nothing where it
    /// holds the parent.
    pub proof fn lemma_one_slot(self, v: int, j: int)
        requires
            is_rooted_tree(self.adj, self.depth),
            0 <= v < self.n(),
            0 <= j < self.adj[v].len(),
        ensures
            self.subtrees_between(v, j, j + 1).len() == if is_parent_slot(
                self.adj,
                self.depth,
                v,
                j,
            ) {
                0nat
            } else {
                self.subtree(self.adj[v][j] as int).len()
            },
    {
        let one = self.subtrees_between(v, j, j + 1);
        if is_parent_slot(self.adj, self.depth, v, j) {
            assert(one =~= Set::empty());
        } else {
            let sub = self.subtree(self.adj[v][j] as int);
            assert(one =~= sub) by {
                assert forall|u: int| sub.contains(u) implies one.contains(u) by {
                    assert(self.is_below(self.adj[v][j] as int, u));
                }
            }
        }
    }

    /// The subtree of a node is the node with the subtrees of all its
    /// children.
    pub proof fn lemma_subtree_splits(self, v: int)
        requires
            is_rooted_tree(self.adj, self.depth),
            0 <= v < self.n(),
        ensures
            self.subtree(v).len() == self.subtrees_between(v, 0, self.adj[v].len() as int).len() + 1,
            self.subtree(v).len() <= self.n(),
    {
        let deg = self.adj[v].len() as int;
        let kids = self.subtrees_between(v, 0, deg);
        let all = self.subtree(v);
        self.lemma_nodes_finite(kids);
        self.lemma_nodes_finite(all);
        assert(!kids.contains(v)) by {
            if kids.contains(v) {
                let j = choose|j: int|
                    0 <= j < deg && !is_parent_slot(self.adj, self.depth, v, j)
                        && #[trigger] self.is_below(self.adj[v][j] as int, v);
                self.lemma_child(v, j);
                self.lemma_below_is_deeper(self.adj[v][j] as int, v);
            }
        }
        assert(all =~= kids.insert(v)) by {
            assert forall|u: int| all.contains(u) implies kids.insert(v).contains(u) by {
                if u != v {
                    self.lemma_below_child(v, u);
                }
            }
            assert forall|u: int| kids.insert(v).contains(u) implies all.contains(u) by {
                if u != v {
                    let j = choose|j: int|
                        0 <= j < deg && !is_parent_slot(self.adj, self.depth, v, j)
                            && #[trigger] self.is_below(self.adj[v][j] as int, u);
                    self.lemma_child(v, j);
                    self.lemma_below_parent(self.adj[v][j] as int, u);
                }
            }
        }
    }

    /// The subtree of node 0 is the whole tree.
    pub proof fn lemma_root_subtree(self)
        requires
            is_rooted_tree(self.adj, self.depth),
        ensures
            self.subtree(0).len() == self.n(),
    {
        let all = self.subtree(0);
        vstd::set_lib::lemma_int_range(0, self.n());
        assert(all =~= vstd::set_lib::set_int_range(0, self.n())) by {
            assert forall|u: int| 0 <= u < self.n() implies all.contains(u) by {
                self.lemma_all_below_root(u);
            }
        }
    }

    /// Counting nodes, the aggregate of a subtree counts its nodes.
    pub proof fn lemma_down_counts(self, val: spec_fn(T) -> nat, bound: nat, v: int)
        requires
            is_rooted_tree(self.adj, self.depth),
            counts_nodes(self, val, bound),
            0 <= v < self.n(),
        ensures
            val(self.down(v)) == self.subtree(v).len(),
        decreases self.n() - self.depth[v], self.adj[v].len() + 1,
    {
        let deg = self.adj[v].len() as int;
        self.lemma_fold_counts(val, bound, v, deg);
        self.lemma_subtree_splits(v);
    }

    /// Counting nodes, the merge of the aggregates of the first children
    /// counts the nodes in their subtrees.
    pub proof fn lemma_fold_counts(self, val: spec_fn(T) -> nat, bound: nat, v: int, k: int)
        requires
            is_rooted_tree(self.adj, self.depth),
            counts_nodes(self, val, bound),
            0 <= v < self.n(),
            0 <= k <= self.adj[v].len(),
        ensures
            val(self.down_fold(v, k)) == self.subtrees_between(v, 0, k).len(),
        decreases self.n() - self.depth[v], k,
    {
        if k == 0 {
            assert(self.subtrees_between(v, 0, 0) =~= Set::empty());
        } else {
            self.lemma_fold_counts(val, bound, v, k - 1);
            self.lemma_ranges_join(v, 0, k - 1, k);
            self.lemma_one_slot(v, k - 1);
            self.lemma_nodes_finite(self.subtrees_between(v, 0, k));
            let to = self.adj[v][k - 1] as int;
            assert(self.adj[v][k - 1] < self.n());
            if !is_parent_slot(self.adj, self.depth, v, k - 1) {
                self.lemma_child(v, k - 1);
                self.lemma_down_counts(val, bound, to);
            }
        }
    }

    /// Counting nodes, where what comes from the parent's side of `v`
    /// counts the nodes outside the subtree of `v`, what `v` sees through
    /// its first `k` slots counts the nodes behind them.
    pub proof fn lemma_prefix_counts(self, val: spec_fn(T) -> nat, bound: nat, v: int, k: int)
        requires
            is_rooted_tree(self.adj, self.depth),
            counts_nodes(self, val, bound),
            0 <= v < self.n(),
            0 <= k <= self.adj[v].len(),
            v > 0 ==> val(self.from_parent(v)) + self.subtree(v).len() == self.n(),
        ensures
            val(self.prefix(v, k)) == self.subtrees_between(v, 0, k).len() + self.outside_between(
                v,
                0,
                k,
            ),
            val(self.prefix(v, k)) < self.n(),
        decreases k,
    {
        let deg = self.adj[v].len() as int;
        self.lemma_subtree_splits(v);
        self.lemma_ranges_join(v, 0, k, deg);
        if v > 0 {
            self.lemma_parent(v);
        }
        if k == 0 {
            assert(self.subtrees_between(v, 0, 0) =~= Set::empty());
        } else {
            self.lemma_prefix_counts(val, bound, v, k - 1);
            self.lemma_ranges_join(v, 0, k - 1, k);
            self.lemma_one_slot(v, k - 1);
            let to = self.adj[v][k - 1] as int;
            assert(self.adj[v][k - 1] < self.n());
            assert(self.prefix(v, k) == (self.merge)(self.prefix(v, k - 1), self.slot_value(v, k - 1)));
            if is_parent_slot(self.adj, self.depth, v, k - 1) {
                assert(v > 0);
                assert(self.parent_slot(v) == k - 1);
                assert(self.slot_value(v, k - 1) == self.from_parent(v));
            } else {
                self.lemma_child(v, k - 1);
                self.lemma_down_counts(val, bound, to);
                assert(self.slot_value(v, k - 1) == self.down(to));
                if v > 0 {
                    assert(self.parent_slot(v) != k - 1);
                }
            }
        }
    }

    /// Counting nodes, where what comes from the parent's side of `v`
    /// counts the nodes outside the subtree of `v`, what `v` sees through
    /// its slots from `k` on counts the nodes behind them.
    pub proof fn lemma_suffix_counts(self, val: spec_fn(T) -> nat, bound: nat, v: int, k: int)
        requires
            is_rooted_tree(self.adj, self.depth),
            counts_nodes(self, val, bound),
            0 <= v < self.n(),
            0 <= k <= self.adj[v].len(),
            v > 0 ==> val(self.from_parent(v)) + self.subtree(v).len() == self.n(),
        ensures
            val(self.suffix(v, k)) == self.subtrees_between(v, k, self.adj[v].len() as int).len()
                + self.outside_between(v, k, self.adj[v].len() as int),
            val(self.suffix(v, k)) < self.n(),
        decreases self.adj[v].len() - k,
    {
        let deg = self.adj[v].len() as int;
        self.lemma_subtree_splits(v);
        self.lemma_ranges_join(v, 0, k, deg);
        if v > 0 {
            self.lemma_parent(v);
        }
        if k == deg {
            assert(self.subtrees_between(v, deg, deg) =~= Set::empty());
        } else {
            self.lemma_suffix_counts(val, bound, v, k + 1);
            self.lemma_ranges_join(v, k, k + 1, deg);
            self.lemma_one_slot(v, k);
            let to = self.adj[v][k] as int;
            assert(self.adj[v][k] < self.n());
            assert(self.suffix(v, k) == (self.merge)(self.slot_value(v, k), self.suffix(v, k + 1)));
            if is_parent_slot(self.adj, self.depth, v, k) {
                assert(v > 0);
                assert(self.parent_slot(v) == k);
                assert(self.slot_value(v, k) == self.from_parent(v));
            } else {
                self.lemma_child(v, k);
                self.lemma_down_counts(val, bound, to);
                assert(self.slot_value(v, k) == self.down(to));
                if v > 0 {
                    assert(self.parent_slot(v) != k);
                }
            }
        }
    }

    /// Counting nodes, what reaches a node from its parent's side counts
    /// the nodes outside its subtree.
    pub proof fn lemma_from_parent_counts(self, val: spec_fn(T) -> nat, bound: nat, v: int)
        requires
            is_rooted_tree(self.adj, self.depth),
            counts_nodes(self, val, bound),
            0 < v < self.n(),
        ensures
            val(self.from_parent(v)) + self.subtree(v).len() == self.n(),
        decreases self.depth[v],
    {
        self.lemma_parent(v);
        let p = self.parent(v);
        let s = self.parent_slot(v);
        assert(self.adj[v][s] < self.n());
        assert(lists(self.adj, p, v));
        let i = self.slot_of(p, v);
        let w = choose|w: int| 0 <= w < self.adj[p].len() && #[trigger] self.adj[p][w] == v;
        assert(0 <= i < self.adj[p].len() && self.adj[p][i] == v);
        assert(!is_parent_slot(self.adj, self.depth, p, i));
        if p > 0 {
            self.lemma_from_parent_counts(val, bound, p);
            self.lemma_parent(p);
        } else {
            self.lemma_root_subtree();
        }
        let deg = self.adj[p].len() as int;
        self.lemma_prefix_counts(val, bound, p, i);
        self.lemma_suffix_counts(val, bound, p, i + 1);
        self.lemma_subtree_splits(p);
        self.lemma_subtree_splits(v);
        self.lemma_ranges_join(p, 0, i, deg);
        self.lemma_ranges_join(p, i, i + 1, deg);
        self.lemma_one_slot(p, i);
        let joined = (self.merge)(self.prefix(p, i), self.suffix(p, i + 1));
        assert(val(joined) + self.subtree(v).len() + 1 == self.n());
    }

    /// Counting nodes, the answer at every node counts all the nodes of the
    /// tree.
    pub proof fn lemma_answer_counts_all(self, val: spec_fn(T) -> nat, bound: nat, v: int)
        requires
            is_rooted_tree(self.adj, self.depth),
            counts_nodes(self, val, bound),
            0 <= v < self.n(),
        ensures
            val(self.answer(v)) == self.n(),
    {
        let deg = self.adj[v].len() as int;
        if v > 0 {
            self.lemma_from_parent_counts(val, bound, v);
            self.lemma_parent(v);
        } else {
            self.lemma_root_subtree();
        }
        self.lemma_prefix_counts(val, bound, v, deg);
        self.lemma_subtree_splits(v);
    }
}

/// The merge is associative, and merging the identity in from the right
/// changes nothing.
#[verifier::opaque]
pub open spec fn is_monoid<T>(m: TreeModel<T>) -> bool {
    &&& forall|a: T, b: T, c: T| #[trigger]
        (m.merge)((m.merge)(a, b), c) == (m.merge)(a, (m.merge)(b, c))
    &&& forall|a: T| #[trigger] (m.merge)(a, m.identity) == a
}

impl<T> TreeModel<T> {
    /// The neighbour that the first pass comes from at `v`: the parent, or
    /// no node at node 0.
    pub open spec fn up(self, v: int) -> int {
        if v == 0 {
            -1
        } else {
            self.parent(v)
        }
    }

    /// How far the cut between `u` and `w` is from the leaves on the side of
    /// `u`: this falls from every cut to the cuts that its value depends
    /// on.
    pub open spec fn side_rank(self, u: int, w: int) -> nat {
        if 0 < u < self.n() && w == self.parent(u) {
            (self.n() - self.depth[u]) as nat
        } else {
            (self.n() + 1 + self.depth[u]) as nat
        }
    }

    /// The value of the part of the tree that hangs on `u` once the tree is
    /// cut between `u` and `w`: the finishing transform of the merge of the
    /// values of the parts behind the other neighbours of `u`.
    pub open spec fn side(self, u: int, w: int) -> T
        decreases self.side_rank(u, w), self.adj[u].len() + 1,
    {
        (self.finish)(self.side_fold(u, w, self.adj[u].len() as int))
    }

    /// The merge, from the left, of the values of the parts behind the
    /// neighbours of `u` among its first `k`, `w` left out.
    pub open spec fn side_fold(self, u: int, w: int, k: int) -> T
        decreases self.side_rank(u, w), k,
    {
        if 0 < k <= self.adj[u].len() {
            let x = self.adj[u][k - 1] as int;
            let acc = self.side_fold(u, w, k - 1);
            if x != w && self.side_rank(x, u) < self.side_rank(u, w) {
                (self.merge)(acc, self.side(x, u))
            } else {
                acc
            }
        } else {
            self.identity
        }
    }

    /// The merge, from the left, of the values of the parts behind the
    /// first `k` neighbours of `v`.
    pub open spec fn rooted_fold(self, v: int, k: int) -> T
        decreases k,
    {
        if 0 < k <= self.adj[v].len() {
            (self.merge)(self.rooted_fold(v, k - 1), self.side(self.adj[v][k - 1] as int, v))
        } else {
            self.identity
        }
    }

    /// The value of the tree with `v` as its root: the finishing transform
    /// of the merge of the values of the parts behind all neighbours of
    /// `v`.
    pub open spec fn rooted(self, v: int) -> T {
        (self.finish)(self.rooted_fold(v, self.adj[v].len() as int))
    }

    /// Merging is associative.
    pub proof fn lemma_merge_assoc(self, a: T, b: T, c: T)
        requires
            is_monoid(self),
        ensures
            (self.merge)((self.merge)(a, b), c) == (self.merge)(a, (self.merge)(b, c)),
    {
        reveal(is_monoid);
    }

    /// Merging the identity in from the right changes nothing.
    pub proof fn lemma_merge_identity(self, a: T)
        requires
            is_monoid(self),
        ensures
            (self.merge)(a, self.identity) == a,
    {
        reveal(is_monoid);
    }

    /// The value behind a neighbour depends on cuts of lower rank only.
    pub proof fn lemma_side_rank(self, u: int, w: int, j: int)
        requires
            is_rooted_tree(self.adj, self.depth),
            0 <= u < self.n(),
            0 <= j < self.adj[u].len(),
            self.adj[u][j] != w,
        ensures
            self.side_rank(self.adj[u][j] as int, u) < self.side_rank(u, w),
    {
        let x = self.adj[u][j] as int;
        assert(self.adj[u][j] < self.n());
        if u > 0 {
            self.lemma_parent(u);
        }
        if is_parent_slot(self.adj, self.depth, u, j) {
            assert(u > 0);
            assert(self.parent_slot(u) == j);
            assert(x == self.parent(u));
            if x > 0 {
                self.lemma_parent(x);
            }
        } else {
            self.lemma_child(u, j);
        }
    }

    /// The aggregate of the subtree of `v` is the value of the part that
    /// hangs on `v` once the tree is cut above `v`.
    pub proof fn lemma_down_is_side(self, v: int)
        requires
            is_rooted_tree(self.adj, self.depth),
            0 <= v < self.n(),
        ensures
            self.down(v) == self.side(v, self.up(v)),
        decreases self.n() - self.depth[v], self.adj[v].len() + 1,
    {
        self.lemma_down_fold_is_side(v, self.adj[v].len() as int);
    }

    /// The same, for the merge over the first `k` neighbours.
    pub proof fn lemma_down_fold_is_side(self, v: int, k: int)
        requires
            is_rooted_tree(self.adj, self.depth),
            0 <= v < self.n(),
            0 <= k <= self.adj[v].len(),
        ensures
            self.down_fold(v, k) == self.side_fold(v, self.up(v), k),
        decreases self.n() - self.depth[v], k,
    {
        if k > 0 {
            self.lemma_down_fold_is_side(v, k - 1);
            let x = self.adj[v][k - 1] as int;
            assert(self.adj[v][k - 1] < self.n());
            if v > 0 {
                self.lemma_parent(v);
            }
            if is_parent_slot(self.adj, self.depth, v, k - 1) {
                assert(v > 0);
                assert(self.parent_slot(v) == k - 1);
            } else {
                self.lemma_child(v, k - 1);
                self.lemma_down_is_side(x);
                if v > 0 {
                    assert(self.parent_slot(v) != k - 1);
                    assert(self.adj[v][self.parent_slot(v)] != self.adj[v][k - 1]);
                }
                self.lemma_side_rank(v, self.up(v), k - 1);
            }
        }
    }

    /// Where what comes from the parent's side of `v` is the value behind
    /// the parent, what `v` sees through a slot is the value behind the
    /// neighbour in it.
    pub proof fn lemma_slot_is_side(self, v: int, j: int)
        requires
            is_rooted_tree(self.adj, self.depth),
            0 <= v < self.n(),
            0 <= j < self.adj[v].len(),
            v > 0 ==> self.from_parent(v) == self.side(self.parent(v), v),
        ensures
            self.slot_value(v, j) == self.side(self.adj[v][j] as int, v),
    {
        assert(self.adj[v][j] < self.n());
        if v > 0 {
            self.lemma_parent(v);
        }
        if is_parent_slot(self.adj, self.depth, v, j) {
            assert(v > 0);
            assert(self.parent_slot(v) == j);
        } else {
            self.lemma_child(v, j);
            self.lemma_down_is_side(self.adj[v][j] as int);
        }
    }

    /// Where what comes from the parent's side of `v` is the value behind
    /// the parent, what `v` sees through its first `k` slots is the merge
    /// of the values behind its first `k` neighbours.
    pub proof fn lemma_prefix_is_rooted(self, v: int, k: int)
        requires
            is_rooted_tree(self.adj, self.depth),
            0 <= v < self.n(),
            0 <= k <= self.adj[v].len(),
            v > 0 ==> self.from_parent(v) == self.side(self.parent(v), v),
        ensures
            self.prefix(v, k) == self.rooted_fold(v, k),
        decreases k,
    {
        if k > 0 {
            self.lemma_prefix_is_rooted(v, k - 1);
            self.lemma_slot_is_side(v, k - 1);
        }
    }

    /// With slot `i` of `v` left out, the merge of the values behind the
    /// first `k` neighbours of `v` is what `v` sees through those slots.
    pub proof fn lemma_side_fold_before(self, v: int, i: int, k: int)
        requires
            is_rooted_tree(self.adj, self.depth),
            0 <= v < self.n(),
            0 <= k <= i < self.adj[v].len(),
            v > 0 ==> self.from_parent(v) == self.side(self.parent(v), v),
        ensures
            self.side_fold(v, self.adj[v][i] as int, k) == self.prefix(v, k),
        decreases k,
    {
        if k > 0 {
            self.lemma_side_fold_before(v, i, k - 1);
            self.lemma_slot_is_side(v, k - 1);
            assert(self.adj[v][k - 1] != self.adj[v][i]);
            self.lemma_side_rank(v, self.adj[v][i] as int, k - 1);
        }
    }

    /// With slot `i` of `v` left out, merging what `v` sees through its
    /// slots from `k` on into the values behind its first `k` neighbours
    /// gives the same for every `k` behind `i`.
    pub proof fn lemma_side_fold_after(self, v: int, i: int, k: int)
        requires
            is_rooted_tree(self.adj, self.depth),
            is_monoid(self),
            0 <= v < self.n(),
            0 <= i < k <= self.adj[v].len(),
            v > 0 ==> self.from_parent(v) == self.side(self.parent(v), v),
        ensures
            (self.merge)(self.side_fold(v, self.adj[v][i] as int, k), self.suffix(v, k)) == (
            self.merge)(self.prefix(v, i), self.suffix(v, i + 1)),
        decreases k - i,
    {
        let w = self.adj[v][i] as int;
        if k == i + 1 {
            self.lemma_side_fold_before(v, i, i);
        } else {
            self.lemma_side_fold_after(v, i, k - 1);
            self.lemma_slot_is_side(v, k - 1);
            assert(self.adj[v][k - 1] != self.adj[v][i]);
            self.lemma_side_rank(v, w, k - 1);
            self.lemma_merge_assoc(
                self.side_fold(v, w, k - 1),
                self.slot_value(v, k - 1),
                self.suffix(v, k),
            );
        }
    }

    /// Merging associatively with a right identity, what reaches a node
    /// from its parent's side is the value of the part of the tree that
    /// hangs on the parent once the tree is cut between the two.
    pub proof fn lemma_from_parent_is_side(self, v: int)
        requires
            is_rooted_tree(self.adj, self.depth),
            is_monoid(self),
            0 < v < self.n(),
        ensures
            self.from_parent(v) == self.side(self.parent(v), v),
        decreases self.depth[v],
    {
        self.lemma_parent(v);
        let p = self.parent(v);
        let s = self.parent_slot(v);
        assert(self.adj[v][s] < self.n());
        assert(lists(self.adj, p, v));
        let i = self.slot_of(p, v);
        let w = choose|w: int| 0 <= w < self.adj[p].len() && #[trigger] self.adj[p][w] == v;
        assert(0 <= i < self.adj[p].len() && self.adj[p][i] == v);
        if p > 0 {
            self.lemma_from_parent_is_side(p);
        }
        let deg = self.adj[p].len() as int;
        self.lemma_side_fold_after(p, i, deg);
        self.lemma_merge_identity(self.side_fold(p, v, deg));
    }

    /// Merging associatively with a right identity, the answer at every
    /// node is the value of the tree with that node as its root.
    pub proof fn lemma_answer_is_rooted_value(self, v: int)
        requires
            is_rooted_tree(self.adj, self.depth),
            is_monoid(self),
            0 <= v < self.n(),
        ensures
            self.answer(v) == self.rooted(v),
    {
        if v > 0 {
            self.lemma_from_parent_is_side(v);
        }
        self.lemma_prefix_is_rooted(v, self.adj[v].len() as int);
    }
}

} // verus!
